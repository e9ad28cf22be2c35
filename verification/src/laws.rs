//! Laws of the solver, stated over the grid model and proved once for all
//! grids.

use vstd::prelude::*;

use crate::grid::box_seq;
use crate::grid::col_seq;
use crate::grid::extends;
use crate::grid::fully_solved;
use crate::grid::idx_of;
use crate::grid::lemma_full_extension_identity;
use crate::grid::lemma_lex_le_antisymmetric;
use crate::grid::lemma_solved_is_solvable;
use crate::grid::lemma_solved_no_zeros;
use crate::grid::lex_le;
use crate::grid::partially_valid;
use crate::grid::row_seq;
use crate::grid::solvable;
use crate::grid::unit_valid;

verus! {

/// Idempotence on fully solved input: a grid with every cell filled that is
/// already fully solved admits exactly one extension, itself. Any call that
/// meets `solve`'s contract on such a grid therefore returns true and leaves
/// the grid unchanged.
pub proof fn lemma_solve_on_solved_grid_is_identity(pre: Seq<u8>, post: Seq<u8>, r: bool)
    requires
        pre.len() == 81,
        fully_solved(pre),
        r == solvable(pre),
        r ==> fully_solved(post) && extends(post, pre),
        !r ==> post == pre,
    ensures
        r,
        post == pre,
{
    lemma_solved_is_solvable(pre);
    lemma_solved_no_zeros(pre);
    lemma_full_extension_identity(post, pre);
}

/// Determinism: the contract of `solve` pins its outcome completely, so two
/// calls on the same input grid return the same boolean and leave identical
/// grids behind. On failure both restore the input; on success both hold the
/// lexicographically least completion, and there is only one such grid.
pub proof fn lemma_solve_deterministic(
    pre: Seq<u8>,
    post1: Seq<u8>,
    r1: bool,
    post2: Seq<u8>,
    r2: bool,
)
    requires
        r1 == solvable(pre),
        r1 ==> fully_solved(post1) && extends(post1, pre),
        r1 ==> forall|s: Seq<u8>|
            fully_solved(s) && #[trigger] extends(s, pre) ==> lex_le(post1, s),
        !r1 ==> post1 == pre,
        r2 == solvable(pre),
        r2 ==> fully_solved(post2) && extends(post2, pre),
        r2 ==> forall|s: Seq<u8>|
            fully_solved(s) && #[trigger] extends(s, pre) ==> lex_le(post2, s),
        !r2 ==> post2 == pre,
    ensures
        r1 == r2,
        post1 == post2,
{
    if r1 {
        assert(lex_le(post1, post2));
        assert(lex_le(post2, post1));
        lemma_lex_le_antisymmetric(post1, post2);
    }
}

/// Rejection of malformed input is no loss: a grid that fails the
/// construction-time legality check has no completion, since a fully solved
/// extension would repeat the very digit the grid already repeats.
pub proof fn lemma_solvable_implies_partially_valid(g: Seq<u8>)
    requires
        solvable(g),
    ensures
        partially_valid(g),
{
    let s = choose|s: Seq<u8>| fully_solved(s) && #[trigger] extends(s, g);
    assert forall|i: int| 0 <= i < 9 implies unit_valid(#[trigger] row_seq(g, i)) by {
        let u = row_seq(g, i);
        assert forall|a: int| 0 <= a < u.len() implies u[a] <= 9 by {
            if u[a] != 0 {
                assert(g[idx_of(i, a)] == u[a]);
                assert(s[idx_of(i, a)] == u[a]);
                assert(row_seq(s, i)[a] == u[a]);
            }
        }
        assert forall|a: int, b: int| 0 <= a < b < u.len() && u[a] != 0 implies u[a] != u[b] by {
            if u[a] == u[b] {
                assert(s[idx_of(i, a)] == u[a] && s[idx_of(i, b)] == u[b]);
                assert(row_seq(s, i)[a] == row_seq(s, i)[b]);
            }
        }
    }
    assert forall|i: int| 0 <= i < 9 implies unit_valid(#[trigger] col_seq(g, i)) by {
        let u = col_seq(g, i);
        assert forall|a: int| 0 <= a < u.len() implies u[a] <= 9 by {
            if u[a] != 0 {
                assert(g[idx_of(a, i)] == u[a]);
                assert(s[idx_of(a, i)] == u[a]);
                assert(col_seq(s, i)[a] == u[a]);
            }
        }
        assert forall|a: int, b: int| 0 <= a < b < u.len() && u[a] != 0 implies u[a] != u[b] by {
            if u[a] == u[b] {
                assert(s[idx_of(a, i)] == u[a] && s[idx_of(b, i)] == u[b]);
                assert(col_seq(s, i)[a] == col_seq(s, i)[b]);
            }
        }
    }
    assert forall|i: int| 0 <= i < 9 implies unit_valid(#[trigger] box_seq(g, i)) by {
        let u = box_seq(g, i);
        assert forall|a: int| 0 <= a < u.len() implies u[a] <= 9 by {
            if u[a] != 0 {
                let r = (i / 3) * 3 + a / 3;
                let c = (i % 3) * 3 + a % 3;
                assert(0 <= r < 9 && 0 <= c < 9);
                assert(g[idx_of(r, c)] == u[a]);
                assert(s[idx_of(r, c)] == u[a]);
                assert(box_seq(s, i)[a] == u[a]);
            }
        }
        assert forall|a: int, b: int| 0 <= a < b < u.len() && u[a] != 0 implies u[a] != u[b] by {
            if u[a] == u[b] {
                let ra = (i / 3) * 3 + a / 3;
                let ca = (i % 3) * 3 + a % 3;
                let rb = (i / 3) * 3 + b / 3;
                let cb = (i % 3) * 3 + b % 3;
                assert(0 <= ra < 9 && 0 <= ca < 9 && 0 <= rb < 9 && 0 <= cb < 9);
                assert(s[idx_of(ra, ca)] == u[a] && s[idx_of(rb, cb)] == u[b]);
                assert(box_seq(s, i)[a] == box_seq(s, i)[b]);
            }
        }
    }
}

} // verus!
