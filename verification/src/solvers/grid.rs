//! The mathematical model of the grid: which cells see each other, what a
//! solver's state is, and when a digit may be placed.
//!
//! Cells are numbered row by row from 0 to 80; cell `p` stands in row
//! `p / 9` and column `p % 9`. An empty cell holds 0.

use vstd::prelude::*;
use vstd::arithmetic::div_mod::lemma_fundamental_div_mod_converse;
use crate::solvers::backtracking::LogEntry;

verus! {

/// Cells `p` and `q` lie in the same row.
pub open spec fn same_row(p: int, q: int) -> bool {
    p / 9 == q / 9
}

/// Cells `p` and `q` lie in the same column.
pub open spec fn same_col(p: int, q: int) -> bool {
    p % 9 == q % 9
}

/// Cells `p` and `q` lie in the same 3×3 block.
pub open spec fn same_block(p: int, q: int) -> bool {
    (p / 9) / 3 == (q / 9) / 3 && (p % 9) / 3 == (q % 9) / 3
}

/// Cells `p` and `q` share a row, a column or a block. Every cell sees itself.
pub open spec fn sees(p: int, q: int) -> bool {
    same_row(p, q) || same_col(p, q) || same_block(p, q)
}

/// The `i`-th cell, counted row by row, of the block that holds cell `p`.
pub open spec fn block_cell(p: int, i: int) -> int {
    9 * (i / 3 + ((p / 9) / 3) * 3) + (i % 3 + ((p % 9) / 3) * 3)
}

/// The place of cell `q` within its block, counted row by row.
pub open spec fn place_in_block(q: int) -> int {
    ((q / 9) % 3) * 3 + (q % 9) % 3
}

/// The cells of a block are its nine places.
pub proof fn lemma_block_cell(p: int, i: int)
    requires
        0 <= p < 81,
        0 <= i < 9,
    ensures
        0 <= block_cell(p, i) < 81,
        same_block(p, block_cell(p, i)),
        place_in_block(block_cell(p, i)) == i,
{
    let (band, stack) = ((p / 9) / 3, (p % 9) / 3);
    let (row, col) = (i / 3 + band * 3, i % 3 + stack * 3);
    lemma_fundamental_div_mod_converse(block_cell(p, i), 9, row, col);
    lemma_fundamental_div_mod_converse(row, 3, band, i / 3);
    lemma_fundamental_div_mod_converse(col, 3, stack, i % 3);
}

/// Every cell of a block is found at its place.
pub proof fn lemma_place_in_block(p: int, q: int)
    requires
        0 <= p < 81,
        0 <= q < 81,
        same_block(p, q),
    ensures
        0 <= place_in_block(q) < 9,
        q == block_cell(p, place_in_block(q)),
{
    let (row, col) = (q / 9, q % 9);
    let i = place_in_block(q);
    lemma_fundamental_div_mod_converse(i, 3, row % 3, col % 3);
}

/// No cell in the row of `p` holds `v`.
pub open spec fn absent_from_row(cells: Seq<u8>, v: u8, p: int) -> bool {
    forall|q: int| 0 <= q < 81 && same_row(p, q) ==> #[trigger] cells[q] != v
}

/// No cell in the column of `p` holds `v`.
pub open spec fn absent_from_col(cells: Seq<u8>, v: u8, p: int) -> bool {
    forall|q: int| 0 <= q < 81 && same_col(p, q) ==> #[trigger] cells[q] != v
}

/// No cell in the block of `p` holds `v`.
pub open spec fn absent_from_block(cells: Seq<u8>, v: u8, p: int) -> bool {
    forall|q: int| 0 <= q < 81 && same_block(p, q) ==> #[trigger] cells[q] != v
}

/// Cell `i` holds a digit from 1 to 9 that no other cell of its row, column
/// or block holds.
pub open spec fn fits(cells: Seq<u8>, i: int) -> bool {
    &&& 1 <= cells[i] <= 9
    &&& forall|q: int| 0 <= q < 81 && q != i && sees(i, q) ==> #[trigger] cells[q] != cells[i]
}

/// What a solver holds: the 81 cells in row-major order, 0 for an empty one,
/// and the trial log of the assignments made so far, oldest first.
pub struct State {
    pub cells: Seq<u8>,
    pub trail: Seq<LogEntry>,
}

impl State {
    /// The invariant of every solver: each logged cell still holds the logged
    /// digit, that digit fits, and no cell is logged twice.
    pub open spec fn wf(self) -> bool {
        &&& self.cells.len() == 81
        &&& forall|k: int|
            0 <= k < self.trail.len() ==> {
                &&& (#[trigger] self.trail[k]).pos < 81
                &&& self.cells[self.trail[k].pos as int] == self.trail[k].val
                &&& fits(self.cells, self.trail[k].pos as int)
            }
        &&& forall|j: int, k: int|
            0 <= j < k < self.trail.len() ==> (#[trigger] self.trail[j]).pos != (
            #[trigger] self.trail[k]).pos
    }

    /// Digit `v` may be written into cell `p`: the cell is empty, `v` is at
    /// most 9, and neither the row, the column nor the block of `p` holds `v`.
    /// The empty value itself is never allowed, since the cell holds it.
    pub open spec fn allows(self, v: u8, p: int) -> bool {
        &&& self.cells[p] == 0
        &&& v <= 9
        &&& absent_from_col(self.cells, v, p)
        &&& absent_from_row(self.cells, v, p)
        &&& absent_from_block(self.cells, v, p)
    }

    /// The state after `v` was written into cell `p` and logged.
    pub open spec fn assign(self, v: u8, p: int) -> State {
        State {
            cells: self.cells.update(p, v),
            trail: self.trail.push(LogEntry { pos: p as usize, val: v }),
        }
    }

    /// The state after the newest logged assignment was taken back.
    pub open spec fn undo(self) -> State {
        State {
            cells: self.cells.update(self.trail.last().pos as int, 0),
            trail: self.trail.drop_last(),
        }
    }

    /// No cell is empty.
    pub open spec fn complete(self) -> bool {
        forall|i: int| 0 <= i < 81 ==> #[trigger] self.cells[i] != 0
    }

    /// Cell `i` is the first empty cell.
    pub open spec fn first_empty(self, i: int) -> bool {
        &&& 0 <= i < 81
        &&& self.cells[i] == 0
        &&& forall|j: int| 0 <= j < i ==> #[trigger] self.cells[j] != 0
    }

    /// Cell `i` was filled by a logged assignment.
    pub open spec fn logged(self, i: int) -> bool {
        exists|k: int| 0 <= k < self.trail.len() && (#[trigger] self.trail[k]).pos == i
    }

    /// The puzzle as it was given: the cells without the logged assignments.
    pub open spec fn givens(self) -> Seq<u8> {
        Seq::new(81, |i: int| if self.logged(i) { 0u8 } else { self.cells[i] })
    }

    /// `v` is the smallest digit from `start` to 9 that cell `p` allows.
    pub open spec fn first_allowed(self, p: int, start: u8, v: u8) -> bool {
        &&& start <= v <= 9
        &&& self.allows(v, p)
        &&& forall|w: u8| start <= w < v ==> !self.allows(w, p)
    }

    /// Cell `p` allows no digit from `start` to 9.
    pub open spec fn none_allowed(self, p: int, start: u8) -> bool {
        forall|w: u8| start <= w <= 9 ==> !self.allows(w, p)
    }
}

/// Seeing is mutual.
pub proof fn lemma_sees_symmetric(p: int, q: int)
    ensures
        sees(p, q) == sees(q, p),
{
}

/// A digit that a cell allows is a digit from 1 to 9 that none of the cells
/// it sees holds.
pub proof fn lemma_allows_unseen(b: State, v: u8, p: int)
    requires
        b.cells.len() == 81,
        0 <= p < 81,
        b.allows(v, p),
    ensures
        1 <= v <= 9,
        forall|q: int| 0 <= q < 81 && sees(p, q) ==> #[trigger] b.cells[q] != v,
{
    assert(same_row(p, p));
    assert(b.cells[p] != v);
}

/// An empty cell refuses a digit up to 9 only if a cell it sees holds it.
pub proof fn lemma_refused_is_seen(b: State, v: u8, p: int)
    requires
        b.cells[p] == 0,
        v <= 9,
        !b.allows(v, p),
    ensures
        exists|q: int| 0 <= q < 81 && sees(p, q) && #[trigger] b.cells[q] == v,
{
    if !absent_from_row(b.cells, v, p) {
        let q = choose|q: int| 0 <= q < 81 && same_row(p, q) && #[trigger] b.cells[q] == v;
        assert(sees(p, q) && b.cells[q] == v);
    } else if !absent_from_col(b.cells, v, p) {
        let q = choose|q: int| 0 <= q < 81 && same_col(p, q) && #[trigger] b.cells[q] == v;
        assert(sees(p, q) && b.cells[q] == v);
    } else {
        let q = choose|q: int| 0 <= q < 81 && same_block(p, q) && #[trigger] b.cells[q] == v;
        assert(sees(p, q) && b.cells[q] == v);
    }
}

/// Writing an allowed digit keeps the invariant, before and after the
/// assignment is logged.
pub proof fn lemma_assign_wf(b: State, v: u8, p: int)
    requires
        b.wf(),
        0 <= p < 81,
        b.allows(v, p),
    ensures
        (State { cells: b.cells.update(p, v), trail: b.trail }).wf(),
        b.assign(v, p).wf(),
{
    lemma_allows_unseen(b, v, p);
    let cells = b.cells.update(p, v);
    assert forall|k: int| 0 <= k < b.trail.len() implies fits(
        cells,
        (#[trigger] b.trail[k]).pos as int,
    ) by {
        let pk = b.trail[k].pos as int;
        assert(fits(b.cells, pk));
        assert(pk != p);
        assert forall|q: int| 0 <= q < 81 && q != pk && sees(pk, q) implies #[trigger] cells[q]
            != cells[pk] by {
            if q == p {
                lemma_sees_symmetric(pk, p);
                assert(b.cells[pk] != v);
            } else {
                assert(b.cells[q] != b.cells[pk]);
            }
        }
    }
    assert(fits(cells, p)) by {
        assert forall|q: int| 0 <= q < 81 && q != p && sees(p, q) implies #[trigger] cells[q]
            != cells[p] by {
            assert(b.cells[q] != v);
        }
    }
    let after = b.assign(v, p);
    assert forall|k: int| 0 <= k < after.trail.len() implies {
        &&& (#[trigger] after.trail[k]).pos < 81
        &&& after.cells[after.trail[k].pos as int] == after.trail[k].val
        &&& fits(after.cells, after.trail[k].pos as int)
    } by {
        if k < b.trail.len() {
            assert(after.trail[k] == b.trail[k]);
        }
    }
    assert forall|j: int, k: int| 0 <= j < k < after.trail.len() implies (
    #[trigger] after.trail[j]).pos != (#[trigger] after.trail[k]).pos by {
        assert(after.trail[j] == b.trail[j]);
        if k < b.trail.len() {
            assert(after.trail[k] == b.trail[k]);
        }
    }
}

/// Taking the newest assignment back keeps the invariant, before and after
/// the cell is cleared.
pub proof fn lemma_undo_wf(b: State)
    requires
        b.wf(),
        b.trail.len() > 0,
    ensures
        (State { cells: b.cells, trail: b.trail.drop_last() }).wf(),
        b.undo().wf(),
{
    let rest = b.trail.drop_last();
    let last = b.trail.last();
    let cells = b.cells.update(last.pos as int, 0);
    assert forall|k: int| 0 <= k < rest.len() implies {
        &&& (#[trigger] rest[k]).pos < 81
        &&& b.cells[rest[k].pos as int] == rest[k].val
        &&& cells[rest[k].pos as int] == rest[k].val
        &&& fits(b.cells, rest[k].pos as int)
        &&& fits(cells, rest[k].pos as int)
    } by {
        assert(rest[k] == b.trail[k]);
        let pk = rest[k].pos as int;
        assert(fits(b.cells, pk));
        assert(b.trail[k].pos != b.trail[b.trail.len() - 1].pos);
        assert forall|q: int| 0 <= q < 81 && q != pk && sees(pk, q) implies #[trigger] cells[q]
            != cells[pk] by {
            if q != last.pos {
                assert(b.cells[q] != b.cells[pk]);
            }
        }
    }
    assert forall|j: int, k: int| 0 <= j < k < rest.len() implies (#[trigger] rest[j]).pos != (
    #[trigger] rest[k]).pos by {
        assert(rest[j] == b.trail[j]);
        assert(rest[k] == b.trail[k]);
    }
}

} // verus!
