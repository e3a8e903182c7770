//! How the log of a search goes on from the log it started with: it keeps
//! the old entries up to one whose cell gets a larger digit, and writes the
//! entries that follow for the first empty cell each.

use vstd::prelude::*;
use crate::solvers::backtracking::LogEntry;
use crate::solvers::grid::State;
use crate::solvers::laws::lemma_log_replays;
use crate::solvers::search::{
    agrees, ahead, cursor, lemma_complete_grid_completes, none_skipped, passed_over,
};

verus! {

/// Entry `k` of `trail` was logged for the cell that was then the first
/// empty one: every cell before it was given or logged earlier.
pub open spec fn at_first_empty(puzzle: Seq<u8>, trail: Seq<LogEntry>, k: int) -> bool {
    forall|i: int|
        0 <= i < trail[k].pos ==> #[trigger] puzzle[i] != 0 || exists|m: int|
            0 <= m < k && (#[trigger] trail[m]).pos == i
}

/// The first entry that a log which goes on from `since` at entry `j` has
/// written for the first empty cell: entry `j` where `since` ends there,
/// else the one after it.
pub open spec fn free_from(since: Seq<LogEntry>, j: int) -> int {
    if j < since.len() {
        j + 1
    } else {
        j
    }
}

/// Log `front` goes on from log `since` at entry `j`: the entries before
/// `j` are those of `since`; entry `j`, where `since` has one, stands for
/// the same cell with a larger digit; and every later entry, or every entry
/// from `j` on where `since` ends there, was logged for the first empty
/// cell.
pub open spec fn forks_at(
    puzzle: Seq<u8>,
    since: Seq<LogEntry>,
    front: Seq<LogEntry>,
    j: int,
) -> bool {
    &&& 0 <= j <= since.len()
    &&& j <= front.len()
    &&& forall|m: int| 0 <= m < j ==> #[trigger] front[m] == since[m]
    &&& j < since.len() ==> {
        &&& j < front.len()
        &&& front[j].pos == since[j].pos
        &&& front[j].val > since[j].val
    }
    &&& forall|k: int|
        free_from(since, j) <= k < front.len() ==> #[trigger] at_first_empty(puzzle, front, k)
}

/// Log `front` goes on from log `since`.
pub open spec fn continues(puzzle: Seq<u8>, since: Seq<LogEntry>, front: Seq<LogEntry>) -> bool {
    exists|j: int| forks_at(puzzle, since, front, j)
}

/// State `found` is what a search that starts in state `old` ends in when
/// it succeeds: a grid without an empty cell that was still ahead, with the
/// digits that were given, and a log that goes on from the log of `old` and
/// has passed over no grid that was ahead.
pub open spec fn found_from(old: State, found: State) -> bool {
    &&& found.wf()
    &&& found.complete()
    &&& found.givens() == old.givens()
    &&& ahead(found.cells, old)
    &&& none_skipped(old.givens(), old.trail, found.trail)
    &&& continues(old.givens(), old.trail, found.trail)
}

/// Whether an entry was logged for the first empty cell depends on the cells
/// of the entries up to it alone.
proof fn lemma_same_cells(puzzle: Seq<u8>, a: Seq<LogEntry>, b: Seq<LogEntry>, k: int)
    requires
        0 <= k < a.len(),
        k < b.len(),
        forall|m: int| 0 <= m <= k ==> (#[trigger] a[m]).pos == b[m].pos,
        at_first_empty(puzzle, a, k),
    ensures
        at_first_empty(puzzle, b, k),
{
    assert forall|i: int| 0 <= i < b[k].pos && #[trigger] puzzle[i] == 0 implies exists|m: int|
        0 <= m < k && (#[trigger] b[m]).pos == i by {
        assert(a[k].pos == b[k].pos);
        let m = choose|m: int| 0 <= m < k && (#[trigger] a[m]).pos == i;
        assert(a[m].pos == b[m].pos);
    }
}

/// An entry for the first empty cell is logged for the first empty cell.
proof fn lemma_first_empty_entry(b: State, p: int, v: u8)
    requires
        b.wf(),
        b.first_empty(p),
    ensures
        at_first_empty(b.givens(), b.trail.push(cursor(p, v)), b.trail.len() as int),
{
    let front = b.trail.push(cursor(p, v));
    let n = b.trail.len() as int;
    assert forall|i: int| 0 <= i < front[n].pos && #[trigger] b.givens()[i] == 0 implies exists|
        m: int,
    | 0 <= m < n && (#[trigger] front[m]).pos == i by {
        assert(b.cells[i] != 0);
        assert(b.logged(i));
        let m = choose|m: int| 0 <= m < b.trail.len() && (#[trigger] b.trail[m]).pos == i;
        assert(front[m] == b.trail[m]);
    }
}

/// A log goes on from itself.
pub proof fn lemma_continues_itself(puzzle: Seq<u8>, trail: Seq<LogEntry>)
    ensures
        continues(puzzle, trail, trail),
{
    assert(forks_at(puzzle, trail, trail, trail.len() as int));
}

/// Standing at the first empty cell goes on from the log.
pub proof fn lemma_continue_step_in(b: State, since: Seq<LogEntry>, p: int)
    requires
        b.wf(),
        b.first_empty(p),
        continues(b.givens(), since, b.trail),
    ensures
        continues(b.givens(), since, b.trail.push(cursor(p, 1))),
{
    let puzzle = b.givens();
    let front = b.trail.push(cursor(p, 1));
    let n = b.trail.len() as int;
    let j = choose|j: int| forks_at(puzzle, since, b.trail, j);
    lemma_first_empty_entry(b, p, 1);
    assert forall|m: int| 0 <= m < j implies #[trigger] front[m] == since[m] by {
        assert(front[m] == b.trail[m]);
    }
    if j < since.len() {
        assert(front[j] == b.trail[j]);
    }
    assert forall|k: int| free_from(since, j) <= k < front.len() implies #[trigger] at_first_empty(
        puzzle,
        front,
        k,
    ) by {
        if k < n {
            assert(at_first_empty(puzzle, b.trail, k));
            assert forall|m: int| 0 <= m <= k implies (#[trigger] b.trail[m]).pos
                == front[m].pos by {
                assert(front[m] == b.trail[m]);
            }
            lemma_same_cells(puzzle, b.trail, front, k);
        }
    }
    assert(forks_at(puzzle, since, front, j));
}

/// Raising the digit that the search is about to try goes on from the log.
pub proof fn lemma_continue_advance(
    puzzle: Seq<u8>,
    since: Seq<LogEntry>,
    trail: Seq<LogEntry>,
    p: int,
    start: u8,
    v: u8,
)
    requires
        start <= v,
        continues(puzzle, since, trail.push(cursor(p, start))),
    ensures
        continues(puzzle, since, trail.push(cursor(p, v))),
{
    let before = trail.push(cursor(p, start));
    let front = trail.push(cursor(p, v));
    let n = trail.len() as int;
    let j = choose|j: int| forks_at(puzzle, since, before, j);
    if j > n {
        // The place where the search stands is an entry of the old log.
        assert(before[n] == since[n]);
        assert forall|m: int| 0 <= m < n implies #[trigger] front[m] == since[m] by {
            assert(front[m] == before[m]);
        }
        if v == start {
            assert(front =~= before);
            assert(forks_at(puzzle, since, front, j));
        } else {
            assert(forks_at(puzzle, since, front, n));
        }
    } else {
        assert forall|m: int| 0 <= m < j implies #[trigger] front[m] == since[m] by {
            assert(front[m] == before[m]);
        }
        if j < since.len() {
            if j < n {
                assert(front[j] == before[j]);
            }
        }
        assert forall|k: int|
            free_from(since, j) <= k < front.len() implies #[trigger] at_first_empty(
            puzzle,
            front,
            k,
        ) by {
            assert(at_first_empty(puzzle, before, k));
            assert forall|m: int| 0 <= m <= k implies (#[trigger] before[m]).pos
                == front[m].pos by {
                if m < n {
                    assert(front[m] == before[m]);
                }
            }
            lemma_same_cells(puzzle, before, front, k);
        }
        assert(forks_at(puzzle, since, front, j));
    }
}

/// Taking the newest assignment back and going on with the next digit of
/// that cell goes on from the log.
pub proof fn lemma_continue_retreat(
    puzzle: Seq<u8>,
    since: Seq<LogEntry>,
    trail: Seq<LogEntry>,
    at: LogEntry,
)
    requires
        trail.len() > 0,
        trail.last().val < 255,
        continues(puzzle, since, trail.push(at)),
    ensures
        continues(
            puzzle,
            since,
            trail.drop_last().push(cursor(trail.last().pos as int, (trail.last().val + 1) as u8)),
        ),
{
    let before = trail.push(at);
    let rest = trail.drop_last();
    let last = trail.last();
    let front = rest.push(cursor(last.pos as int, (last.val + 1) as u8));
    let n = trail.len() as int;
    let j = choose|j: int| forks_at(puzzle, since, before, j);
    assert(before[n - 1] == last);
    assert(front[n - 1].pos == last.pos);
    if j >= n {
        assert(before[n - 1] == since[n - 1]);
        assert forall|m: int| 0 <= m < n - 1 implies #[trigger] front[m] == since[m] by {
            assert(front[m] == before[m]);
        }
        assert(forks_at(puzzle, since, front, n - 1));
    } else {
        assert forall|m: int| 0 <= m < j implies #[trigger] front[m] == since[m] by {
            assert(front[m] == before[m]);
        }
        if j < since.len() && j < n - 1 {
            assert(front[j] == before[j]);
        }
        assert forall|k: int|
            free_from(since, j) <= k < front.len() implies #[trigger] at_first_empty(
            puzzle,
            front,
            k,
        ) by {
            assert(at_first_empty(puzzle, before, k));
            assert forall|m: int| 0 <= m <= k implies (#[trigger] before[m]).pos
                == front[m].pos by {
                if m < n - 1 {
                    assert(front[m] == before[m]);
                }
            }
            lemma_same_cells(puzzle, before, front, k);
        }
        assert(forks_at(puzzle, since, front, j));
    }
}

/// A grid that was found holds a digit in every logged cell of another grid
/// that was found.
proof fn lemma_logged_in_both(old: State, a: State, b: State, k: int)
    requires
        found_from(old, a),
        found_from(old, b),
        0 <= k < b.trail.len(),
    ensures
        a.logged(b.trail[k].pos as int),
{
    let q = b.trail[k].pos as int;
    assert(b.logged(q));
    assert(b.givens()[q] == 0);
    assert(a.givens()[q] == 0);
    assert(a.cells[q] != 0);
}

/// The log of a grid that was found has not passed over another grid that
/// was found.
proof fn lemma_found_not_passed_over(old: State, a: State, b: State)
    requires
        found_from(old, a),
        found_from(old, b),
    ensures
        !passed_over(a.cells, b.trail),
        agrees(a.cells, a.trail),
{
    lemma_complete_grid_completes(a);
}

/// Two logs that go on from one log do so at the same entry.
proof fn lemma_fork_not_earlier(old: State, a: State, b: State, ja: int, jb: int)
    requires
        found_from(old, a),
        found_from(old, b),
        forks_at(old.givens(), old.trail, a.trail, ja),
        forks_at(old.givens(), old.trail, b.trail, jb),
    ensures
        ja >= jb,
{
    if ja < jb {
        lemma_found_not_passed_over(old, b, a);
        assert(b.trail[ja] == old.trail[ja]);
        let g = b.cells;
        assert(g[b.trail[ja].pos as int] == b.trail[ja].val);
        let before = a.trail.take(ja);
        assert forall|m: int| 0 <= m < before.len() implies g[(#[trigger] before[m]).pos as int]
            == before[m].val by {
            assert(before[m] == a.trail[m]);
            assert(a.trail[m] == old.trail[m]);
            assert(b.trail[m] == old.trail[m]);
            assert(g[b.trail[m].pos as int] == b.trail[m].val);
        }
        assert(g[a.trail[ja].pos as int] < a.trail[ja].val);
        assert(passed_over(g, a.trail));
    }
}

/// Where two logs of grids that were found hold the same entries before
/// entry `k`, and log the same cell there, the digit of the first is no
/// smaller than that of the second.
proof fn lemma_digit_not_smaller(old: State, a: State, b: State, k: int)
    requires
        found_from(old, a),
        found_from(old, b),
        0 <= k < a.trail.len(),
        k < b.trail.len(),
        forall|m: int| 0 <= m < k ==> #[trigger] a.trail[m] == b.trail[m],
        a.trail[k].pos == b.trail[k].pos,
    ensures
        a.trail[k].val >= b.trail[k].val,
{
    if a.trail[k].val < b.trail[k].val {
        lemma_found_not_passed_over(old, a, b);
        let g = a.cells;
        assert(g[a.trail[k].pos as int] == a.trail[k].val);
        let before = b.trail.take(k);
        assert forall|m: int| 0 <= m < before.len() implies g[(#[trigger] before[m]).pos as int]
            == before[m].val by {
            assert(before[m] == b.trail[m]);
            assert(a.trail[m] == b.trail[m]);
            assert(g[a.trail[m].pos as int] == a.trail[m].val);
        }
        assert(g[b.trail[k].pos as int] < b.trail[k].val);
        assert(passed_over(g, b.trail));
    }
}

/// Where two logs hold the same entries before entry `k`, and both logged
/// entry `k` for the first empty cell, the cell of the first does not come
/// before that of the second.
proof fn lemma_cell_not_before(old: State, a: State, b: State, k: int)
    requires
        found_from(old, a),
        found_from(old, b),
        0 <= k < a.trail.len(),
        k < b.trail.len(),
        forall|m: int| 0 <= m < k ==> #[trigger] a.trail[m] == b.trail[m],
        at_first_empty(old.givens(), b.trail, k),
    ensures
        a.trail[k].pos >= b.trail[k].pos,
{
    let p = a.trail[k].pos as int;
    if p < b.trail[k].pos {
        assert(a.logged(p));
        assert(a.givens()[p] == 0);
        assert(old.givens()[p] == 0);
        let m = choose|m: int| 0 <= m < k && (#[trigger] b.trail[m]).pos == p;
        assert(a.trail[m] == b.trail[m]);
        assert(a.trail[m].pos != a.trail[k].pos);
    }
}

/// Two logs of grids that were found from one state, which go on from its
/// log at the same entry and hold the same entries before entry `k`, are one
/// log.
proof fn lemma_same_log_from(old: State, a: State, b: State, j: int, k: int)
    requires
        found_from(old, a),
        found_from(old, b),
        forks_at(old.givens(), old.trail, a.trail, j),
        forks_at(old.givens(), old.trail, b.trail, j),
        j <= k <= a.trail.len(),
        k <= b.trail.len(),
        forall|m: int| 0 <= m < k ==> #[trigger] a.trail[m] == b.trail[m],
    ensures
        a.trail == b.trail,
    decreases a.trail.len() - k,
{
    if k == a.trail.len() {
        if k < b.trail.len() {
            lemma_logged_in_both(old, a, b, k);
            let q = b.trail[k].pos as int;
            let m = choose|m: int| 0 <= m < a.trail.len() && (#[trigger] a.trail[m]).pos == q;
            assert(a.trail[m] == b.trail[m]);
            assert(b.trail[m].pos != b.trail[k].pos);
        }
        assert(a.trail =~= b.trail);
    } else if k == b.trail.len() {
        lemma_logged_in_both(old, b, a, k);
        let q = a.trail[k].pos as int;
        let m = choose|m: int| 0 <= m < b.trail.len() && (#[trigger] b.trail[m]).pos == q;
        assert(a.trail[m] == b.trail[m]);
        assert(a.trail[m].pos != a.trail[k].pos);
    } else {
        if free_from(old.trail, j) <= k {
            assert(at_first_empty(old.givens(), a.trail, k));
            assert(at_first_empty(old.givens(), b.trail, k));
            lemma_cell_not_before(old, a, b, k);
            assert forall|m: int| 0 <= m < k implies #[trigger] b.trail[m] == a.trail[m] by {
                assert(a.trail[m] == b.trail[m]);
            }
            lemma_cell_not_before(old, b, a, k);
        }
        lemma_digit_not_smaller(old, a, b, k);
        assert forall|m: int| 0 <= m < k implies #[trigger] b.trail[m] == a.trail[m] by {
            assert(a.trail[m] == b.trail[m]);
        }
        lemma_digit_not_smaller(old, b, a, k);
        assert(a.trail[k] == b.trail[k]);
        lemma_same_log_from(old, a, b, j, k + 1);
    }
}

/// A search that succeeds has one outcome: two states that were found from
/// one state are one state.
pub proof fn lemma_found_unique(old: State, a: State, b: State)
    requires
        found_from(old, a),
        found_from(old, b),
    ensures
        a == b,
{
    let ja = choose|j: int| forks_at(old.givens(), old.trail, a.trail, j);
    let jb = choose|j: int| forks_at(old.givens(), old.trail, b.trail, j);
    lemma_fork_not_earlier(old, a, b, ja, jb);
    lemma_fork_not_earlier(old, b, a, jb, ja);
    assert forall|m: int| 0 <= m < ja implies #[trigger] a.trail[m] == b.trail[m] by {
        assert(a.trail[m] == old.trail[m]);
        assert(b.trail[m] == old.trail[m]);
    }
    lemma_same_log_from(old, a, b, ja, ja);
    lemma_log_replays(a);
    lemma_log_replays(b);
}

} // verus!
