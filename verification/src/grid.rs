//! The mathematical model of a Sudoku grid.
//!
//! A grid is a `Seq<u8>` of length 81, row-major: the cell in row `r` and
//! column `c` sits at index `r * 9 + c`. A unit is one of the 27 groups of 9
//! cells (a row, a column, or a 3x3 box) that must each hold the digits 1..=9
//! without repetition in a solved grid. The value 0 is the placeholder for an
//! empty cell.

use vstd::prelude::*;

verus! {

/// The row-major index of the cell in row `r`, column `c`.
pub open spec fn idx_of(r: int, c: int) -> int {
    r * 9 + c
}

/// The index (0..9) of the 3x3 box that holds the cell in row `r`, column `c`.
pub open spec fn box_of(r: int, c: int) -> int {
    (r / 3) * 3 + c / 3
}

/// The 9 values of row `r`, in column order.
pub open spec fn row_seq(g: Seq<u8>, r: int) -> Seq<u8> {
    Seq::new(9, |c: int| g[idx_of(r, c)])
}

/// The 9 values of column `c`, in row order.
pub open spec fn col_seq(g: Seq<u8>, c: int) -> Seq<u8> {
    Seq::new(9, |r: int| g[idx_of(r, c)])
}

/// The 9 values of box `b`, in row-major order within the box.
pub open spec fn box_seq(g: Seq<u8>, b: int) -> Seq<u8> {
    Seq::new(9, |k: int| g[idx_of((b / 3) * 3 + k / 3, (b % 3) * 3 + k % 3)])
}

/// A unit is legal while the grid may still be partially filled: every value
/// lies in 0..=9, and no non-placeholder value appears twice.
pub open spec fn unit_valid(u: Seq<u8>) -> bool {
    &&& forall|i: int| 0 <= i < u.len() ==> u[i] <= 9
    &&& forall|i: int, j: int| 0 <= i < j < u.len() && u[i] != 0 ==> u[i] != u[j]
}

/// A unit is solved when its value set equals exactly {1, ..., 9}: every value
/// lies in 1..=9, no value appears twice, and every digit appears.
pub open spec fn unit_solved(u: Seq<u8>) -> bool {
    &&& u.len() == 9
    &&& forall|i: int| 0 <= i < 9 ==> 1 <= #[trigger] u[i] <= 9
    &&& forall|i: int, j: int| 0 <= i < j < 9 ==> u[i] != u[j]
    &&& forall|v: u8| 1 <= v <= 9 ==> u.contains(v)
}

/// The construction-time legality check: all 27 units are legal, with
/// placeholders permitted.
pub open spec fn partially_valid(g: Seq<u8>) -> bool {
    &&& forall|i: int| 0 <= i < 9 ==> unit_valid(#[trigger] row_seq(g, i))
    &&& forall|i: int| 0 <= i < 9 ==> unit_valid(#[trigger] col_seq(g, i))
    &&& forall|i: int| 0 <= i < 9 ==> unit_valid(#[trigger] box_seq(g, i))
}

/// The success predicate of the search: all 27 units are solved.
pub open spec fn fully_solved(g: Seq<u8>) -> bool {
    &&& forall|i: int| 0 <= i < 9 ==> unit_solved(#[trigger] row_seq(g, i))
    &&& forall|i: int| 0 <= i < 9 ==> unit_solved(#[trigger] col_seq(g, i))
    &&& forall|i: int| 0 <= i < 9 ==> unit_solved(#[trigger] box_seq(g, i))
}

/// Grid `s` extends grid `g`: both are full-size and `s` agrees with `g` on
/// every cell that `g` has filled.
pub open spec fn extends(s: Seq<u8>, g: Seq<u8>) -> bool {
    &&& s.len() == 81
    &&& g.len() == 81
    &&& forall|i: int| 0 <= i < 81 && g[i] != 0 ==> s[i] == g[i]
}

/// A grid is solvable when some fully solved grid extends it.
pub open spec fn solvable(g: Seq<u8>) -> bool {
    exists|s: Seq<u8>| fully_solved(s) && #[trigger] extends(s, g)
}

/// Grid `a` comes no later than grid `b` in row-major lexicographic order:
/// they are equal, or `a` holds the smaller value at the first cell where
/// they differ.
pub open spec fn lex_le(a: Seq<u8>, b: Seq<u8>) -> bool {
    a == b || exists|i: int|
        #![trigger a[i], b[i]]
        0 <= i < 81 && a[i] < b[i] && (forall|j: int| 0 <= j < i ==> a[j] == b[j])
}

/// Exhibiting a cell where `a` is smaller, with equality before it,
/// establishes the lexicographic order.
pub proof fn lemma_lex_le_at(a: Seq<u8>, b: Seq<u8>, i: int)
    requires
        0 <= i < 81,
        a[i] < b[i],
        forall|j: int| 0 <= j < i ==> a[j] == b[j],
    ensures
        lex_le(a, b),
{
}

/// Two grids that differ somewhere cannot each come first: lexicographic
/// order is antisymmetric.
pub proof fn lemma_lex_le_antisymmetric(a: Seq<u8>, b: Seq<u8>)
    requires
        lex_le(a, b),
        lex_le(b, a),
    ensures
        a == b,
{
    if a != b {
        let i1 = choose|i: int|
            0 <= i < 81 && a[i] < b[i] && (forall|j: int| 0 <= j < i ==> a[j] == b[j]);
        let i2 = choose|i: int|
            0 <= i < 81 && b[i] < a[i] && (forall|j: int| 0 <= j < i ==> b[j] == a[j]);
        if i1 < i2 {
            assert(b[i1] == a[i1]);
        } else if i2 < i1 {
            assert(a[i2] == b[i2]);
        }
        assert(false);
    }
}

/// The digit `v` may legally be placed in the empty cell at row `r`, column
/// `c`: it is a digit and is absent from the cell's row, column and box.
pub open spec fn candidate_ok(g: Seq<u8>, r: int, c: int, v: u8) -> bool {
    &&& 1 <= v <= 9
    &&& !row_seq(g, r).contains(v)
    &&& !col_seq(g, c).contains(v)
    &&& !box_seq(g, box_of(r, c)).contains(v)
}

/// How many cells of `g` hold the placeholder 0.
pub open spec fn count_zeros(g: Seq<u8>) -> nat
    decreases g.len(),
{
    if g.len() == 0 {
        0
    } else {
        count_zeros(g.drop_last()) + if g.last() == 0 {
            1nat
        } else {
            0nat
        }
    }
}

pub proof fn lemma_count_zeros_le_len(g: Seq<u8>)
    ensures
        count_zeros(g) <= g.len(),
    decreases g.len(),
{
    if g.len() > 0 {
        lemma_count_zeros_le_len(g.drop_last());
    }
}

/// Counting one more cell of a prefix adds one exactly when that cell is 0.
pub proof fn lemma_count_zeros_take_step(g: Seq<u8>, i: int)
    requires
        0 <= i < g.len(),
    ensures
        count_zeros(g.take(i + 1)) == count_zeros(g.take(i)) + if g[i] == 0 {
            1int
        } else {
            0int
        },
{
    assert(g.take(i + 1).drop_last() =~= g.take(i));
    assert(g.take(i + 1).last() == g[i]);
}

/// Updating one cell changes the zero count by the difference of the old and
/// new cell's being 0.
pub proof fn lemma_count_zeros_update(g: Seq<u8>, i: int, v: u8)
    requires
        0 <= i < g.len(),
    ensures
        count_zeros(g.update(i, v)) == count_zeros(g) - (if g[i] == 0 {
            1int
        } else {
            0int
        }) + (if v == 0 {
            1int
        } else {
            0int
        }),
    decreases g.len(),
{
    if i == g.len() - 1 {
        assert(g.update(i, v).drop_last() =~= g.drop_last());
        assert(g.update(i, v).last() == v);
    } else {
        assert(g.update(i, v).drop_last() =~= g.drop_last().update(i, v));
        assert(g.update(i, v).last() == g.last());
        lemma_count_zeros_update(g.drop_last(), i, v);
    }
}

/// A grid without placeholders has zero count 0.
pub proof fn lemma_count_zeros_all_nonzero(g: Seq<u8>)
    requires
        forall|i: int| 0 <= i < g.len() ==> g[i] != 0,
    ensures
        count_zeros(g) == 0,
    decreases g.len(),
{
    if g.len() > 0 {
        assert(forall|i: int| 0 <= i < g.drop_last().len() ==> g.drop_last()[i] == g[i]);
        lemma_count_zeros_all_nonzero(g.drop_last());
    }
}

/// A grid with zero count 0 has no placeholder anywhere.
pub proof fn lemma_count_zeros_none(g: Seq<u8>)
    requires
        count_zeros(g) == 0,
    ensures
        forall|i: int| 0 <= i < g.len() ==> g[i] != 0,
    decreases g.len(),
{
    if g.len() > 0 {
        lemma_count_zeros_none(g.drop_last());
        assert forall|i: int| 0 <= i < g.len() implies g[i] != 0 by {
            if i < g.len() - 1 {
                assert(g.drop_last()[i] == g[i]);
            } else {
                assert(g.last() == g[i]);
            }
        }
    }
}

/// A cell holding the placeholder makes the zero count positive.
pub proof fn lemma_count_zeros_pos(g: Seq<u8>, i: int)
    requires
        0 <= i < g.len(),
        g[i] == 0,
    ensures
        count_zeros(g) >= 1,
{
    if count_zeros(g) == 0 {
        lemma_count_zeros_none(g);
    }
}

/// The cell in row `r`, column `c` appears in its box's value sequence at
/// position `(r % 3) * 3 + c % 3`.
pub proof fn lemma_box_cell(g: Seq<u8>, r: int, c: int)
    requires
        0 <= r < 9,
        0 <= c < 9,
    ensures
        0 <= box_of(r, c) < 9,
        0 <= (r % 3) * 3 + c % 3 < 9,
        box_seq(g, box_of(r, c))[(r % 3) * 3 + c % 3] == g[idx_of(r, c)],
{
    let b = box_of(r, c);
    let k = (r % 3) * 3 + c % 3;
    assert(b / 3 == r / 3 && b % 3 == c / 3);
    assert(k / 3 == r % 3 && k % 3 == c % 3);
    assert((b / 3) * 3 + k / 3 == r);
    assert((b % 3) * 3 + k % 3 == c);
}

/// A grid without placeholders is extended only by itself.
pub proof fn lemma_full_extension_identity(s: Seq<u8>, g: Seq<u8>)
    requires
        extends(s, g),
        forall|i: int| 0 <= i < 81 ==> g[i] != 0,
    ensures
        s == g,
{
    assert(s =~= g);
}

/// A fully solved grid has no placeholder anywhere.
pub proof fn lemma_solved_no_zeros(g: Seq<u8>)
    requires
        g.len() == 81,
        fully_solved(g),
    ensures
        forall|i: int| 0 <= i < 81 ==> g[i] != 0,
{
    assert forall|i: int| 0 <= i < 81 implies g[i] != 0 by {
        let r = i / 9;
        let c = i % 9;
        assert(0 <= r < 9 && 0 <= c < 9);
        assert(row_seq(g, r)[c] == g[idx_of(r, c)]);
        assert(1 <= row_seq(g, r)[c] <= 9);
    }
}

/// A fully solved grid is solvable: it is its own completion.
pub proof fn lemma_solved_is_solvable(g: Seq<u8>)
    requires
        g.len() == 81,
        fully_solved(g),
    ensures
        solvable(g),
{
    assert(extends(g, g));
}

/// Where a solution fills an empty cell of the grid it extends, the digit it
/// places there is a legal candidate for that cell, and the solution also
/// extends the grid with that digit placed.
pub proof fn lemma_solution_value_is_candidate(s: Seq<u8>, g: Seq<u8>, r: int, c: int)
    requires
        fully_solved(s),
        extends(s, g),
        0 <= r < 9,
        0 <= c < 9,
        g[idx_of(r, c)] == 0,
    ensures
        candidate_ok(g, r, c, s[idx_of(r, c)]),
        extends(s, g.update(idx_of(r, c), s[idx_of(r, c)])),
{
    let v = s[idx_of(r, c)];
    assert(row_seq(s, r)[c] == v);
    assert(1 <= v <= 9);
    if row_seq(g, r).contains(v) {
        let c2 = choose|j: int| 0 <= j < 9 && row_seq(g, r)[j] == v;
        assert(g[idx_of(r, c2)] == v);
        assert(s[idx_of(r, c2)] == v);
        assert(row_seq(s, r)[c2] == v);
        assert(c2 != c);
        assert(false);
    }
    if col_seq(g, c).contains(v) {
        let r2 = choose|j: int| 0 <= j < 9 && col_seq(g, c)[j] == v;
        assert(g[idx_of(r2, c)] == v);
        assert(s[idx_of(r2, c)] == v);
        assert(col_seq(s, c)[r2] == v && col_seq(s, c)[r] == v);
        assert(r2 != r);
        assert(false);
    }
    let b = box_of(r, c);
    lemma_box_cell(s, r, c);
    let k0 = (r % 3) * 3 + c % 3;
    assert(box_seq(s, b)[k0] == v);
    if box_seq(g, b).contains(v) {
        let k2 = choose|j: int| 0 <= j < 9 && box_seq(g, b)[j] == v;
        let r2 = (b / 3) * 3 + k2 / 3;
        let c2 = (b % 3) * 3 + k2 % 3;
        assert(0 <= r2 < 9 && 0 <= c2 < 9);
        assert(g[idx_of(r2, c2)] == v);
        assert(s[idx_of(r2, c2)] == v);
        assert(box_seq(s, b)[k2] == v);
        lemma_box_cell(g, r, c);
        assert(box_seq(g, b)[k0] == 0);
        assert(k2 != k0);
        assert(false);
    }
    assert forall|i: int| 0 <= i < 81 && g.update(idx_of(r, c), v)[i] != 0 implies s[i]
        == g.update(idx_of(r, c), v)[i] by {
        if i != idx_of(r, c) {
            assert(g.update(idx_of(r, c), v)[i] == g[i]);
        }
    }
}

/// A solution of a grid with one empty cell filled in is a solution of the
/// grid itself.
pub proof fn lemma_extends_after_update(s: Seq<u8>, g: Seq<u8>, i: int, v: u8)
    requires
        0 <= i < 81,
        g.len() == 81,
        g[i] == 0,
        extends(s, g.update(i, v)),
    ensures
        extends(s, g),
{
    assert forall|j: int| 0 <= j < 81 && g[j] != 0 implies s[j] == g[j] by {
        assert(g.update(i, v)[j] == g[j]);
    }
}

} // verus!
