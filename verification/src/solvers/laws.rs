//! What holds of every solver, whatever was done with it.

use vstd::prelude::*;
use crate::solvers::backtracking::LogEntry;
use crate::solvers::grid::{fits, lemma_allows_unseen, lemma_sees_symmetric, sees, State};
use crate::solvers::order::{first_completion, grid_le};
use crate::solvers::resume::found_from;
use crate::solvers::search::completes;

verus! {

/// No two cells that see each other hold the same digit, and every filled
/// cell holds a digit from 1 to 9.
pub open spec fn consistent(cells: Seq<u8>) -> bool {
    forall|i: int| 0 <= i < 81 && cells[i] != 0 ==> #[trigger] fits(cells, i)
}

/// Every row, column and block holds each digit from 1 to 9 once.
pub open spec fn valid_solution(g: Seq<u8>) -> bool {
    g.len() == 81 && forall|i: int| 0 <= i < 81 ==> #[trigger] fits(g, i)
}

/// Grid `g` holds every digit that `puzzle` holds.
pub open spec fn extends(g: Seq<u8>, puzzle: Seq<u8>) -> bool {
    forall|i: int| 0 <= i < 81 && puzzle[i] != 0 ==> #[trigger] g[i] == puzzle[i]
}

/// The grid that comes of writing the logged digits, oldest first, over
/// `cells`.
pub open spec fn replay(cells: Seq<u8>, trail: Seq<LogEntry>) -> Seq<u8>
    decreases trail.len(),
{
    if trail.len() == 0 {
        cells
    } else {
        replay(cells, trail.drop_last()).update(trail.last().pos as int, trail.last().val)
    }
}

/// An assignment that is taken back at once leaves no trace: what comes
/// back is the cell and the digit that were assigned, the cell is empty
/// again, and grid and log are what they were.
pub proof fn lemma_assign_then_undo(b: State, v: u8, p: int)
    requires
        b.wf(),
        0 <= p < 81,
        b.allows(v, p),
    ensures
        b.assign(v, p).trail.last() == (LogEntry { pos: p as usize, val: v }),
        b.assign(v, p).undo().cells[p] == 0,
        b.assign(v, p).undo() == b,
{
    let back = b.assign(v, p).undo();
    assert(back.cells =~= b.cells);
    assert(back.trail =~= b.trail);
}

/// An allowed assignment keeps a consistent grid consistent.
pub proof fn lemma_assign_keeps_consistent(b: State, v: u8, p: int)
    requires
        b.cells.len() == 81,
        consistent(b.cells),
        0 <= p < 81,
        b.allows(v, p),
    ensures
        consistent(b.assign(v, p).cells),
{
    lemma_allows_unseen(b, v, p);
    let cells = b.assign(v, p).cells;
    assert forall|i: int| 0 <= i < 81 && cells[i] != 0 implies #[trigger] fits(cells, i) by {
        if i != p {
            assert(fits(b.cells, i));
            lemma_sees_symmetric(i, p);
        }
        assert forall|q: int| 0 <= q < 81 && q != i && sees(i, q) implies #[trigger] cells[q]
            != cells[i] by {
            if i != p && q != p {
                assert(b.cells[q] != b.cells[i]);
            }
        }
    }
}

/// Taking an assignment back keeps a consistent grid consistent.
pub proof fn lemma_undo_keeps_consistent(b: State)
    requires
        b.wf(),
        consistent(b.cells),
        b.trail.len() > 0,
    ensures
        consistent(b.undo().cells),
{
    let cells = b.undo().cells;
    assert forall|i: int| 0 <= i < 81 && cells[i] != 0 implies #[trigger] fits(cells, i) by {
        assert(fits(b.cells, i));
        assert forall|q: int| 0 <= q < 81 && q != i && sees(i, q) implies #[trigger] cells[q]
            != cells[i] by {
            assert(b.cells[q] != b.cells[i]);
        }
    }
}

/// Writing the first `k` logged digits over the given puzzle gives the cells
/// of the grid where those digits were logged, and the puzzle elsewhere.
proof fn lemma_replay_prefix(b: State, k: int)
    requires
        b.wf(),
        0 <= k <= b.trail.len(),
    ensures
        replay(b.givens(), b.trail.take(k)).len() == 81,
        forall|i: int|
            0 <= i < 81 ==> #[trigger] replay(b.givens(), b.trail.take(k))[i] == if exists|j: int|
                0 <= j < k && (#[trigger] b.trail[j]).pos == i {
                b.cells[i]
            } else {
                b.givens()[i]
            },
    decreases k,
{
    if k > 0 {
        lemma_replay_prefix(b, k - 1);
        let now = b.trail.take(k);
        assert(now.drop_last() =~= b.trail.take(k - 1));
        assert(now.last() == b.trail[k - 1]);
        let earlier = replay(b.givens(), b.trail.take(k - 1));
        assert forall|i: int| 0 <= i < 81 implies #[trigger] replay(b.givens(), now)[i]
            == if exists|j: int| 0 <= j < k && (#[trigger] b.trail[j]).pos == i {
            b.cells[i]
        } else {
            b.givens()[i]
        } by {
            if i == b.trail[k - 1].pos {
                assert(b.cells[b.trail[k - 1].pos as int] == b.trail[k - 1].val);
            } else {
                assert(replay(b.givens(), now)[i] == earlier[i]);
                if exists|j: int| 0 <= j < k && (#[trigger] b.trail[j]).pos == i {
                    let j = choose|j: int| 0 <= j < k && (#[trigger] b.trail[j]).pos == i;
                    assert(0 <= j < k - 1 && b.trail[j].pos == i);
                }
            }
        }
    }
}

/// The log is an exact history: writing its digits, oldest first, over the
/// puzzle as it was given brings back the grid.
pub proof fn lemma_log_replays(b: State)
    requires
        b.wf(),
    ensures
        replay(b.givens(), b.trail) == b.cells,
{
    let n = b.trail.len() as int;
    lemma_replay_prefix(b, n);
    assert(b.trail.take(n) =~= b.trail);
    assert forall|i: int| 0 <= i < 81 implies replay(b.givens(), b.trail)[i] == b.cells[i] by {
        if !b.logged(i) {
            assert(!exists|j: int| 0 <= j < n && (#[trigger] b.trail[j]).pos == i);
        }
    }
    assert(replay(b.givens(), b.trail) =~= b.cells);
}

/// For a consistent puzzle, the grids that complete it are the valid
/// solutions that hold its digits.
pub proof fn lemma_completions_are_solutions(g: Seq<u8>, puzzle: Seq<u8>)
    requires
        puzzle.len() == 81,
        consistent(puzzle),
    ensures
        completes(g, puzzle) <==> valid_solution(g) && extends(g, puzzle),
{
    if completes(g, puzzle) {
        assert forall|i: int| 0 <= i < 81 implies #[trigger] fits(g, i) by {
            if puzzle[i] != 0 {
                assert(fits(puzzle, i));
                assert(g[i] == puzzle[i]);
                assert forall|q: int| 0 <= q < 81 && q != i && sees(i, q) implies #[trigger] g[q]
                    != g[i] by {
                    if puzzle[q] != 0 {
                        assert(g[q] == puzzle[q]);
                        assert(puzzle[q] != puzzle[i]);
                    } else {
                        assert(fits(g, q));
                        lemma_sees_symmetric(i, q);
                    }
                }
            }
        }
    }
}

/// The puzzle that a consistent grid was given is consistent.
pub proof fn lemma_givens_consistent(b: State)
    requires
        b.wf(),
        consistent(b.cells),
    ensures
        consistent(b.givens()),
{
    let puzzle = b.givens();
    assert forall|i: int| 0 <= i < 81 && puzzle[i] != 0 implies #[trigger] fits(puzzle, i) by {
        assert(fits(b.cells, i));
        assert forall|q: int| 0 <= q < 81 && q != i && sees(i, q) implies #[trigger] puzzle[q]
            != puzzle[i] by {
            assert(b.cells[q] != b.cells[i]);
        }
    }
}

/// A search that starts on a consistent grid and succeeds ends in a valid
/// solution that holds the digits that were given.
pub proof fn lemma_found_is_valid(old: State, found: State)
    requires
        old.wf(),
        consistent(old.cells),
        found_from(old, found),
    ensures
        valid_solution(found.cells),
        extends(found.cells, old.givens()),
{
    lemma_givens_consistent(old);
    lemma_completions_are_solutions(found.cells, old.givens());
}

/// The order of the grids has no ties: two grids that come before each
/// other are one grid.
pub proof fn lemma_grid_le_antisymmetric(g: Seq<u8>, h: Seq<u8>)
    requires
        grid_le(g, h),
        grid_le(h, g),
    ensures
        g == h,
{
    if g != h {
        let c = choose|c: int|
            0 <= c < 81 && #[trigger] g[c] < h[c] && forall|i: int|
                0 <= i < c ==> #[trigger] g[i] == h[i];
        let d = choose|d: int|
            0 <= d < 81 && #[trigger] h[d] < g[d] && forall|i: int|
                0 <= i < d ==> #[trigger] h[i] == g[i];
        if c < d {
            assert(h[c] == g[c]);
        } else if d < c {
            assert(g[d] == h[d]);
        }
    }
}

/// A puzzle has at most one first completion.
pub proof fn lemma_first_completion_unique(g: Seq<u8>, h: Seq<u8>, puzzle: Seq<u8>)
    requires
        first_completion(g, puzzle),
        first_completion(h, puzzle),
    ensures
        g == h,
{
    lemma_grid_le_antisymmetric(g, h);
}

} // verus!
