//! The Sudoku solver: construction-time validation and backtracking search.

use vstd::prelude::*;

use crate::grid::box_of;
use crate::grid::box_seq;
use crate::grid::candidate_ok;
use crate::grid::col_seq;
use crate::grid::count_zeros;
use crate::grid::extends;
use crate::grid::fully_solved;
use crate::grid::idx_of;
use crate::grid::lemma_count_zeros_all_nonzero;
use crate::grid::lemma_count_zeros_le_len;
use crate::grid::lemma_count_zeros_none;
use crate::grid::lemma_count_zeros_pos;
use crate::grid::lemma_count_zeros_take_step;
use crate::grid::lemma_count_zeros_update;
use crate::grid::lemma_extends_after_update;
use crate::grid::lemma_full_extension_identity;
use crate::grid::lemma_lex_le_at;
use crate::grid::lemma_solution_value_is_candidate;
use crate::grid::lex_le;
use crate::grid::partially_valid;
use crate::grid::row_seq;
use crate::grid::solvable;
use crate::grid::unit_solved;
use crate::grid::unit_valid;

verus! {

/// The one fatal error: the supplied grid breaks a uniqueness rule or holds a
/// value outside 0..=9, so no search may start from it.
#[derive(Clone, Copy, PartialEq, Eq, Structural, Debug)]
pub struct InvalidBoardError;

/// A 9x9 Sudoku board together with a count of its empty cells, kept equal to
/// the number of placeholders on the board.
pub struct Sudoku {
    cells: Vec<u8>,
    empty_cells: usize,
}

impl View for Sudoku {
    type V = Seq<u8>;

    closed spec fn view(&self) -> Seq<u8> {
        self.cells@
    }
}

/// The values of `board`, row-major, as one flat sequence of 81 cells.
pub open spec fn flat_view(board: [[u8; 9]; 9]) -> Seq<u8> {
    Seq::new(81, |i: int| board@[i / 9]@[i % 9])
}

impl Sudoku {
    /// The struct's invariant: a full-size board whose empty-cell counter
    /// matches the number of placeholders on it.
    pub closed spec fn wf(&self) -> bool {
        &&& self.cells@.len() == 81
        &&& self.empty_cells == count_zeros(self.cells@)
    }

    /// How many cells of `board` hold the placeholder 0.
    fn count_empty_cells(board: &Vec<u8>) -> (n: usize)
        ensures
            n == count_zeros(board@),
    {
        let mut n: usize = 0;
        let mut i: usize = 0;
        while i < board.len()
            invariant
                i <= board@.len(),
                n == count_zeros(board@.take(i as int)),
                n <= i,
            decreases board@.len() - i,
        {
            if board[i] == 0 {
                n += 1;
            }
            proof {
                lemma_count_zeros_take_step(board@, i as int);
            }
            i += 1;
        }
        proof {
            assert(board@.take(board@.len() as int) =~= board@);
        }
        n
    }

    /// The 9 values of row `row`, in column order.
    pub fn get_row(&self, row: usize) -> (r: Vec<u8>)
        requires
            self.wf(),
            row < 9,
        ensures
            r@ == row_seq(self@, row as int),
    {
        let mut vals: Vec<u8> = Vec::new();
        let mut col: usize = 0;
        while col < 9
            invariant
                self.wf(),
                row < 9,
                col <= 9,
                vals@.len() == col,
                forall|j: int| 0 <= j < col ==> vals@[j] == self@[idx_of(row as int, j)],
            decreases 9 - col,
        {
            vals.push(self.cells[row * 9 + col]);
            col += 1;
        }
        proof {
            assert(vals@ =~= row_seq(self@, row as int));
        }
        vals
    }

    /// The 9 values of column `col`, in row order.
    pub fn get_column(&self, col: usize) -> (r: Vec<u8>)
        requires
            self.wf(),
            col < 9,
        ensures
            r@ == col_seq(self@, col as int),
    {
        let mut vals: Vec<u8> = Vec::new();
        let mut row: usize = 0;
        while row < 9
            invariant
                self.wf(),
                col < 9,
                row <= 9,
                vals@.len() == row,
                forall|j: int| 0 <= j < row ==> vals@[j] == self@[idx_of(j, col as int)],
            decreases 9 - row,
        {
            vals.push(self.cells[row * 9 + col]);
            row += 1;
        }
        proof {
            assert(vals@ =~= col_seq(self@, col as int));
        }
        vals
    }

    /// The 9 values of box `box_num`, in row-major order within the box.
    pub fn get_box_vals(&self, box_num: usize) -> (r: Vec<u8>)
        requires
            self.wf(),
            box_num < 9,
        ensures
            r@ == box_seq(self@, box_num as int),
    {
        let row_start = (box_num / 3) * 3;
        let col_start = (box_num % 3) * 3;
        let mut vals: Vec<u8> = Vec::new();
        let mut k: usize = 0;
        while k < 9
            invariant
                self.wf(),
                box_num < 9,
                row_start == (box_num / 3) * 3,
                col_start == (box_num % 3) * 3,
                k <= 9,
                vals@.len() == k,
                forall|j: int|
                    0 <= j < k ==> vals@[j] == self@[idx_of(
                        row_start as int + j / 3,
                        col_start as int + j % 3,
                    )],
            decreases 9 - k,
        {
            vals.push(self.cells[(row_start + k / 3) * 9 + col_start + k % 3]);
            k += 1;
        }
        proof {
            assert(vals@ =~= box_seq(self@, box_num as int));
        }
        vals
    }

    /// The 9 values of the box that holds the cell in row `row`, column `col`.
    pub fn get_box_of_cell(&self, row: usize, col: usize) -> (r: Vec<u8>)
        requires
            self.wf(),
            row < 9,
            col < 9,
        ensures
            r@ == box_seq(self@, box_of(row as int, col as int)),
    {
        let box_num = (row / 3) * 3 + col / 3;
        self.get_box_vals(box_num)
    }

    /// Whether `vec` holds the value `x`.
    fn contains_value(vec: &Vec<u8>, x: u8) -> (r: bool)
        ensures
            r == vec@.contains(x),
    {
        let mut i: usize = 0;
        while i < vec.len()
            invariant
                i <= vec@.len(),
                forall|j: int| 0 <= j < i ==> vec@[j] != x,
            decreases vec@.len() - i,
        {
            if vec[i] == x {
                return true;
            }
            i += 1;
        }
        false
    }

    /// The construction-time legality check for one unit: every value lies in
    /// 0..=9 and no non-placeholder value appears twice.
    pub fn is_valid_vector(&self, vec: &Vec<u8>) -> (r: bool)
        ensures
            r == unit_valid(vec@),
    {
        let mut i: usize = 0;
        while i < vec.len()
            invariant
                i <= vec@.len(),
                forall|j: int| 0 <= j < i ==> vec@[j] <= 9,
                forall|a: int, b: int| 0 <= a < b < i && vec@[a] != 0 ==> vec@[a] != vec@[b],
            decreases vec@.len() - i,
        {
            let v = vec[i];
            if v > 9 {
                return false;
            }
            if v != 0 {
                let mut j: usize = 0;
                while j < i
                    invariant
                        j <= i,
                        i < vec@.len(),
                        v == vec@[i as int],
                        v != 0,
                        forall|a: int| 0 <= a < j ==> vec@[a] != v,
                    decreases i - j,
                {
                    if vec[j] == v {
                        proof {
                            assert(!unit_valid(vec@)) by {
                                assert(0 <= j < i < vec@.len());
                                assert(vec@[j as int] != 0 && vec@[j as int] == vec@[i as int]);
                            }
                        }
                        return false;
                    }
                    j += 1;
                }
            }
            i += 1;
        }
        true
    }

    /// The solved check for one unit: its value set equals exactly {1, ..., 9}.
    pub fn is_one_to_nine(&self, vec: &Vec<u8>) -> (r: bool)
        ensures
            r == unit_solved(vec@),
    {
        if vec.len() != 9 {
            return false;
        }
        let mut i: usize = 0;
        while i < 9
            invariant
                vec@.len() == 9,
                i <= 9,
                forall|j: int| 0 <= j < i ==> 1 <= #[trigger] vec@[j] <= 9,
                forall|a: int, b: int| 0 <= a < b < i ==> vec@[a] != vec@[b],
            decreases 9 - i,
        {
            let v = vec[i];
            if v < 1 || v > 9 {
                return false;
            }
            let mut j: usize = 0;
            while j < i
                invariant
                    j <= i,
                    i < 9,
                    vec@.len() == 9,
                    v == vec@[i as int],
                    forall|a: int| 0 <= a < j ==> vec@[a] != v,
                decreases i - j,
            {
                if vec[j] == v {
                    return false;
                }
                j += 1;
            }
            i += 1;
        }
        let mut v: u8 = 1;
        while v <= 9
            invariant
                vec@.len() == 9,
                1 <= v <= 10,
                forall|i: int| 0 <= i < 9 ==> 1 <= #[trigger] vec@[i] <= 9,
                forall|a: int, b: int| 0 <= a < b < 9 ==> vec@[a] != vec@[b],
                forall|w: u8| 1 <= w < v ==> vec@.contains(w),
            decreases 10 - v,
        {
            if !Self::contains_value(vec, v) {
                return false;
            }
            v += 1;
        }
        true
    }

    /// The construction-time legality check for the whole board: all 27 units
    /// pass `is_valid_vector`.
    pub fn is_valid_sudoku(&self) -> (r: bool)
        requires
            self.wf(),
        ensures
            r == partially_valid(self@),
    {
        let mut i: usize = 0;
        while i < 9
            invariant
                self.wf(),
                i <= 9,
                forall|j: int| 0 <= j < i ==> unit_valid(#[trigger] row_seq(self@, j)),
                forall|j: int| 0 <= j < i ==> unit_valid(#[trigger] col_seq(self@, j)),
                forall|j: int| 0 <= j < i ==> unit_valid(#[trigger] box_seq(self@, j)),
            decreases 9 - i,
        {
            let row_vals = self.get_row(i);
            let col_vals = self.get_column(i);
            let box_vals = self.get_box_vals(i);
            if !self.is_valid_vector(&row_vals) || !self.is_valid_vector(&col_vals)
                || !self.is_valid_vector(&box_vals) {
                return false;
            }
            i += 1;
        }
        true
    }

    /// Builds a solver for `board` after checking that the board is legally
    /// constructed: dimensions are fixed by the type, so the only possible
    /// rejection is a duplicate digit in a row, column or box, or a value
    /// above 9.
    pub fn new(board: [[u8; 9]; 9]) -> (r: Result<Sudoku, InvalidBoardError>)
        ensures
            match r {
                Ok(s) => {
                    &&& s.wf()
                    &&& s@ == flat_view(board)
                    &&& partially_valid(flat_view(board))
                },
                Err(_) => !partially_valid(flat_view(board)),
            },
    {
        let cells = Self::flatten_board(&board);
        let empty_cells = Self::count_empty_cells(&cells);
        let this = Sudoku { cells, empty_cells };
        if !this.is_valid_sudoku() {
            return Err(InvalidBoardError);
        }
        Ok(this)
    }

    /// Copies the 81 values of `board` into one row-major vector.
    fn flatten_board(board: &[[u8; 9]; 9]) -> (r: Vec<u8>)
        ensures
            r@ == flat_view(*board),
    {
        let mut cells: Vec<u8> = Vec::new();
        let mut row: usize = 0;
        while row < 9
            invariant
                row <= 9,
                cells@.len() == row * 9,
                forall|i: int| 0 <= i < row * 9 ==> cells@[i] == board@[i / 9]@[i % 9],
            decreases 9 - row,
        {
            let mut col: usize = 0;
            while col < 9
                invariant
                    row < 9,
                    col <= 9,
                    cells@.len() == row * 9 + col,
                    forall|i: int| 0 <= i < row * 9 + col ==> cells@[i] == board@[i / 9]@[i % 9],
                decreases 9 - col,
            {
                let v = board[row][col];
                cells.push(v);
                proof {
                    let i = row * 9 + col;
                    assert(cells@[i as int] == board@[row as int]@[col as int]);
                    assert(i as int / 9 == row as int && i as int % 9 == col as int);
                }
                col += 1;
            }
            row += 1;
        }
        proof {
            assert(cells@ =~= flat_view(*board));
        }
        cells
    }

    /// The value of the cell in row `row`, column `col`.
    pub fn get(&self, row: usize, col: usize) -> (v: u8)
        requires
            self.wf(),
            row < 9,
            col < 9,
        ensures
            v == self@[idx_of(row as int, col as int)],
    {
        self.cells[row * 9 + col]
    }

    /// How many cells of the board are still empty.
    pub fn empty_cell_count(&self) -> (n: usize)
        requires
            self.wf(),
        ensures
            n == count_zeros(self@),
    {
        self.empty_cells
    }

    /// The first empty cell in row-major order, as (row, column), or `None`
    /// when every cell is filled.
    pub fn find_next_free_cell(&self) -> (r: Option<(usize, usize)>)
        requires
            self.wf(),
        ensures
            match r {
                Some(rc) => {
                    &&& rc.0 < 9
                    &&& rc.1 < 9
                    &&& self@[idx_of(rc.0 as int, rc.1 as int)] == 0
                    &&& forall|i: int| 0 <= i < idx_of(rc.0 as int, rc.1 as int) ==> self@[i] != 0
                },
                None => forall|i: int| 0 <= i < 81 ==> self@[i] != 0,
            },
    {
        let mut idx: usize = 0;
        while idx < 81
            invariant
                self.wf(),
                idx <= 81,
                forall|i: int| 0 <= i < idx ==> self@[i] != 0,
            decreases 81 - idx,
        {
            if self.cells[idx] == 0 {
                let row = idx / 9;
                let col = idx % 9;
                return Some((row, col));
            }
            idx += 1;
        }
        None
    }

    /// The legal candidate digits for the cell in row `row`, column `col`, in
    /// ascending order: the digits 1..=9 absent from the cell's row, column
    /// and box.
    pub fn get_possible_values(&self, row: usize, col: usize) -> (r: Vec<u8>)
        requires
            self.wf(),
            row < 9,
            col < 9,
        ensures
            forall|v: u8|
                r@.contains(v) <==> candidate_ok(self@, row as int, col as int, v),
            forall|a: int, b: int| 0 <= a < b < r@.len() ==> r@[a] < r@[b],
    {
        let row_vals = self.get_row(row);
        let col_vals = self.get_column(col);
        let box_vals = self.get_box_of_cell(row, col);
        let mut cands: Vec<u8> = Vec::new();
        let mut v: u8 = 1;
        while v <= 9
            invariant
                self.wf(),
                row < 9,
                col < 9,
                1 <= v <= 10,
                row_vals@ == row_seq(self@, row as int),
                col_vals@ == col_seq(self@, col as int),
                box_vals@ == box_seq(self@, box_of(row as int, col as int)),
                forall|w: u8|
                    cands@.contains(w) ==> w < v && candidate_ok(
                        self@,
                        row as int,
                        col as int,
                        w,
                    ),
                forall|w: u8|
                    1 <= w < v && candidate_ok(self@, row as int, col as int, w)
                        ==> cands@.contains(w),
                forall|a: int, b: int| 0 <= a < b < cands@.len() ==> cands@[a] < cands@[b],
                forall|a: int| 0 <= a < cands@.len() ==> cands@[a] < v,
            decreases 10 - v,
        {
            let in_row = Self::contains_value(&row_vals, v);
            let in_col = Self::contains_value(&col_vals, v);
            let in_box = Self::contains_value(&box_vals, v);
            if !in_row && !in_col && !in_box {
                let ghost prior = cands@;
                cands.push(v);
                proof {
                    assert(candidate_ok(self@, row as int, col as int, v));
                    assert(cands@ == prior.push(v));
                    assert forall|w: u8| #[trigger] cands@.contains(w) implies w < v + 1
                        && candidate_ok(self@, row as int, col as int, w) by {
                        let a = choose|a: int| 0 <= a < cands@.len() && cands@[a] == w;
                        if a < prior.len() {
                            assert(prior[a] == w);
                            assert(prior.contains(w));
                        } else {
                            assert(w == v);
                        }
                    }
                    assert forall|w: u8|
                        1 <= w < v + 1 && candidate_ok(
                            self@,
                            row as int,
                            col as int,
                            w,
                        ) implies cands@.contains(w) by {
                        if w < v {
                            assert(prior.contains(w));
                            let a = choose|a: int| 0 <= a < prior.len() && prior[a] == w;
                            assert(cands@[a] == w);
                        } else {
                            assert(cands@[cands@.len() - 1] == v);
                        }
                    }
                }
            } else {
                proof {
                    assert(!candidate_ok(self@, row as int, col as int, v));
                    assert forall|w: u8|
                        1 <= w < v + 1 && candidate_ok(
                            self@,
                            row as int,
                            col as int,
                            w,
                        ) implies cands@.contains(w) by {
                        assert(w < v);
                    }
                }
            }
            v += 1;
        }
        cands
    }

    /// Writes `val` into the cell in row `row`, column `col`, keeping the
    /// empty-cell counter in step with the board.
    fn set_cell(&mut self, row: usize, col: usize, val: u8)
        requires
            old(self).wf(),
            row < 9,
            col < 9,
        ensures
            final(self).wf(),
            final(self)@ == old(self)@.update(idx_of(row as int, col as int), val),
    {
        let idx = row * 9 + col;
        let prev = self.cells[idx];
        if prev == 0 && val != 0 {
            proof {
                lemma_count_zeros_pos(self.cells@, idx as int);
            }
            self.empty_cells = self.empty_cells - 1;
        } else if prev != 0 && val == 0 {
            proof {
                lemma_count_zeros_le_len(self.cells@);
            }
            self.empty_cells = self.empty_cells + 1;
        }
        self.cells[idx] = val;
        proof {
            lemma_count_zeros_update(old(self).cells@, idx as int, val);
        }
    }

    /// Runs the backtracking search to completion. Returns true exactly when
    /// the board has a completion; on success the board is left fully solved,
    /// still agreeing with its former state on every filled cell, and —
    /// because the search fills the first empty cell in row-major order with
    /// the smallest legal digit first — holding the lexicographically least
    /// of all completions. On failure the board is restored to its former
    /// state, placeholders and all.
    pub fn solve(&mut self) -> (r: bool)
        requires
            old(self).wf(),
        ensures
            final(self).wf(),
            r == solvable(old(self)@),
            r ==> fully_solved(final(self)@) && extends(final(self)@, old(self)@),
            r ==> forall|s: Seq<u8>|
                fully_solved(s) && #[trigger] extends(s, old(self)@) ==> lex_le(final(self)@, s),
            !r ==> final(self)@ == old(self)@,
        decreases count_zeros(old(self)@),
    {
        if self.empty_cells == 0 {
            let r = self.is_fully_solved();
            proof {
                lemma_count_zeros_none(self.cells@);
                if r {
                    assert(extends(self@, self@));
                    assert forall|s: Seq<u8>|
                        fully_solved(s) && #[trigger] extends(s, self@) implies lex_le(
                        self@,
                        s,
                    ) by {
                        lemma_full_extension_identity(s, self@);
                    }
                } else {
                    if solvable(self@) {
                        let s = choose|s: Seq<u8>| fully_solved(s) && #[trigger] extends(s, self@);
                        lemma_full_extension_identity(s, self@);
                        assert(false);
                    }
                }
            }
            return r;
        }
        match self.find_next_free_cell() {
            Some((row, col)) => {
                let ghost g0 = self@;
                let ghost idx = idx_of(row as int, col as int);
                let cands = self.get_possible_values(row, col);
                let mut k: usize = 0;
                while k < cands.len()
                    invariant
                        row < 9,
                        col < 9,
                        idx == idx_of(row as int, col as int),
                        self.wf(),
                        g0.len() == 81,
                        g0 == old(self)@,
                        old(self).empty_cells == count_zeros(g0),
                        g0[idx] == 0,
                        forall|j: int| 0 <= j < idx ==> g0[j] != 0,
                        self@.len() == 81,
                        forall|j: int| 0 <= j < 81 && j != idx ==> self@[j] == g0[j],
                        forall|v: u8|
                            cands@.contains(v) <==> candidate_ok(g0, row as int, col as int, v),
                        forall|a: int, b: int| 0 <= a < b < cands@.len() ==> cands@[a] < cands@[b],
                        k <= cands@.len(),
                        forall|j: int|
                            0 <= j < k ==> !solvable(g0.update(idx, #[trigger] cands@[j])),
                    decreases cands@.len() - k,
                {
                    let v = cands[k];
                    proof {
                        assert(cands@[k as int] == v);
                        assert(cands@.contains(v));
                        lemma_count_zeros_update(g0, idx, v);
                    }
                    self.set_cell(row, col, v);
                    let ghost g1 = self@;
                    proof {
                        assert(g1 =~= g0.update(idx, v));
                    }
                    if self.solve() {
                        proof {
                            lemma_extends_after_update(self@, g0, idx, v);
                            assert forall|s: Seq<u8>|
                                fully_solved(s) && #[trigger] extends(s, g0) implies lex_le(
                                self@,
                                s,
                            ) by {
                                lemma_solution_value_is_candidate(s, g0, row as int, col as int);
                                let sv = s[idx];
                                assert(cands@.contains(sv));
                                let m = choose|m: int| 0 <= m < cands@.len() && cands@[m] == sv;
                                if m < k {
                                    assert(!solvable(g0.update(idx, cands@[m])));
                                    assert(extends(s, g0.update(idx, sv)));
                                    assert(false);
                                } else if m == k {
                                    assert(extends(s, g1));
                                } else {
                                    assert(cands@[k as int] < cands@[m]);
                                    assert forall|j: int| 0 <= j < idx implies self@[j] == s[j] by {
                                        assert(g0[j] != 0);
                                    }
                                    assert(self@[idx] == v);
                                    lemma_lex_le_at(self@, s, idx);
                                }
                            }
                        }
                        return true;
                    }
                    proof {
                        assert(self@ == g1);
                        assert(!solvable(g0.update(idx, cands@[k as int])));
                    }
                    k += 1;
                }
                self.set_cell(row, col, 0);
                proof {
                    assert(self@ =~= g0);
                    if solvable(g0) {
                        let s = choose|s: Seq<u8>| fully_solved(s) && #[trigger] extends(s, g0);
                        lemma_solution_value_is_candidate(s, g0, row as int, col as int);
                        let sv = s[idx];
                        assert(cands@.contains(sv));
                        let j = choose|j: int| 0 <= j < cands@.len() && cands@[j] == sv;
                        assert(!solvable(g0.update(idx, cands@[j])));
                        assert(extends(s, g0.update(idx, sv)));
                        assert(false);
                    }
                }
                false
            },
            None => {
                proof {
                    lemma_count_zeros_all_nonzero(self.cells@);
                    assert(false);
                }
                false
            },
        }
    }

    /// The success predicate of the search: all 27 units pass `is_one_to_nine`.
    pub fn is_fully_solved(&self) -> (r: bool)
        requires
            self.wf(),
        ensures
            r == fully_solved(self@),
    {
        let mut i: usize = 0;
        while i < 9
            invariant
                self.wf(),
                i <= 9,
                forall|j: int| 0 <= j < i ==> unit_solved(#[trigger] row_seq(self@, j)),
                forall|j: int| 0 <= j < i ==> unit_solved(#[trigger] col_seq(self@, j)),
                forall|j: int| 0 <= j < i ==> unit_solved(#[trigger] box_seq(self@, j)),
            decreases 9 - i,
        {
            let row_vals = self.get_row(i);
            let col_vals = self.get_column(i);
            let box_vals = self.get_box_vals(i);
            if !self.is_one_to_nine(&row_vals) || !self.is_one_to_nine(&col_vals)
                || !self.is_one_to_nine(&box_vals) {
                return false;
            }
            i += 1;
        }
        true
    }
}

} // verus!
