//! What the search is held to: which grids complete a puzzle, which of them a
//! trial log has already passed over, and why the search skips none.

use vstd::prelude::*;
use crate::solvers::backtracking::LogEntry;
use crate::solvers::grid::{fits, lemma_refused_is_seen, sees, State};

verus! {

/// Grid `g` is `puzzle` with every empty cell filled: the given digits are
/// kept, and each filled-in digit fits.
pub open spec fn completes(g: Seq<u8>, puzzle: Seq<u8>) -> bool {
    &&& g.len() == 81
    &&& forall|i: int| 0 <= i < 81 && puzzle[i] != 0 ==> #[trigger] g[i] == puzzle[i]
    &&& forall|i: int| 0 <= i < 81 && puzzle[i] == 0 ==> #[trigger] fits(g, i)
}

/// Grid `g` holds every digit that `trail` logs, in the cell it logs it for.
pub open spec fn agrees(g: Seq<u8>, trail: Seq<LogEntry>) -> bool {
    forall|k: int| 0 <= k < trail.len() ==> g[(#[trigger] trail[k]).pos as int] == trail[k].val
}

/// The search that logged `trail` has left grid `g` behind: at the first
/// logged cell where the two differ, `g` holds the smaller digit. The search
/// tries the digits of a cell in ascending order, so it does not come back
/// to such a grid.
pub open spec fn passed_over(g: Seq<u8>, trail: Seq<LogEntry>) -> bool {
    exists|j: int|
        0 <= j < trail.len() && g[(#[trigger] trail[j]).pos as int] < trail[j].val && agrees(
            g,
            trail.take(j),
        )
}

/// Grid `g` is still ahead of the solver in state `b`: it completes the
/// puzzle that `b` was given, and the log of `b` has not passed it over.
/// For a solver that has logged nothing, the grids ahead are the grids that
/// complete its cells.
pub open spec fn ahead(g: Seq<u8>, b: State) -> bool {
    completes(g, b.givens()) && !passed_over(g, b.trail)
}

/// The place where the search stands, written as the log entry it would make
/// with the smallest digit it has yet to try.
pub open spec fn cursor(p: int, start: u8) -> LogEntry {
    LogEntry { pos: p as usize, val: start }
}

/// Of the grids that complete `puzzle` and that `since` had not passed over,
/// `front` has passed over none.
pub open spec fn none_skipped(puzzle: Seq<u8>, since: Seq<LogEntry>, front: Seq<LogEntry>) -> bool {
    forall|g: Seq<u8>| #[trigger]
        completes(g, puzzle) && !passed_over(g, since) ==> !passed_over(g, front)
}

/// Whatever grid `since` had passed over, `front` has passed over too.
pub open spec fn kept_behind(since: Seq<LogEntry>, front: Seq<LogEntry>) -> bool {
    forall|g: Seq<u8>| #[trigger] passed_over(g, since) ==> passed_over(g, front)
}

/// A grid agrees with a log that grew by one entry if it agrees with the log
/// and with the entry.
pub proof fn lemma_agrees_push(g: Seq<u8>, trail: Seq<LogEntry>, e: LogEntry)
    ensures
        agrees(g, trail.push(e)) <==> agrees(g, trail) && g[e.pos as int] == e.val,
{
    let longer = trail.push(e);
    if agrees(g, longer) {
        assert forall|k: int| 0 <= k < trail.len() implies g[(#[trigger] trail[k]).pos as int]
            == trail[k].val by {
            assert(longer[k] == trail[k]);
        }
        assert(longer[trail.len() as int] == e);
    }
    if agrees(g, trail) && g[e.pos as int] == e.val {
        assert forall|k: int| 0 <= k < longer.len() implies g[(#[trigger] longer[k]).pos as int]
            == longer[k].val by {
            if k < trail.len() {
                assert(longer[k] == trail[k]);
            }
        }
    }
}

/// A log that grew by one entry has passed over a grid if the log had, or if
/// the grid agrees with the log and holds a smaller digit than the entry.
pub proof fn lemma_passed_over_push(g: Seq<u8>, trail: Seq<LogEntry>, e: LogEntry)
    ensures
        passed_over(g, trail.push(e)) <==> passed_over(g, trail) || (agrees(g, trail)
            && g[e.pos as int] < e.val),
{
    let longer = trail.push(e);
    let n = trail.len() as int;
    assert(longer.take(n) =~= trail);
    if passed_over(g, trail) {
        let j = choose|j: int|
            0 <= j < trail.len() && g[(#[trigger] trail[j]).pos as int] < trail[j].val && agrees(
                g,
                trail.take(j),
            );
        assert(longer[j] == trail[j]);
        assert(longer.take(j) =~= trail.take(j));
    }
    if agrees(g, trail) && g[e.pos as int] < e.val {
        assert(longer[n] == e);
    }
    if passed_over(g, longer) {
        let j = choose|j: int|
            0 <= j < longer.len() && g[(#[trigger] longer[j]).pos as int] < longer[j].val && agrees(
                g,
                longer.take(j),
            );
        if j < n {
            assert(longer[j] == trail[j]);
            assert(longer.take(j) =~= trail.take(j));
        } else {
            assert(longer[n] == e);
        }
    }
}

/// An empty cell is empty in the puzzle as it was given.
pub proof fn lemma_empty_cell_not_given(b: State, p: int)
    requires
        b.wf(),
        0 <= p < 81,
        b.cells[p] == 0,
    ensures
        b.givens()[p] == 0,
        !b.logged(p),
{
    if b.logged(p) {
        let k = choose|k: int| 0 <= k < b.trail.len() && (#[trigger] b.trail[k]).pos == p;
        assert(fits(b.cells, b.trail[k].pos as int));
    }
}

/// A grid that completes the given puzzle and agrees with the log holds the
/// digit of every filled cell.
pub proof fn lemma_agreeing_grid_holds_cells(b: State, g: Seq<u8>)
    requires
        b.wf(),
        completes(g, b.givens()),
        agrees(g, b.trail),
    ensures
        forall|i: int| 0 <= i < 81 && b.cells[i] != 0 ==> #[trigger] g[i] == b.cells[i],
{
    assert forall|i: int| 0 <= i < 81 && b.cells[i] != 0 implies #[trigger] g[i] == b.cells[i] by {
        if b.logged(i) {
            let k = choose|k: int| 0 <= k < b.trail.len() && (#[trigger] b.trail[k]).pos == i;
            assert(g[b.trail[k].pos as int] == b.trail[k].val);
        } else {
            assert(b.givens()[i] == b.cells[i]);
        }
    }
}

/// A digit that an empty cell refuses stands in no grid that completes the
/// given puzzle and agrees with the log.
pub proof fn lemma_refused_digit(b: State, g: Seq<u8>, p: int, w: u8)
    requires
        b.wf(),
        0 <= p < 81,
        b.cells[p] == 0,
        1 <= w <= 9,
        !b.allows(w, p),
        completes(g, b.givens()),
        agrees(g, b.trail),
    ensures
        g[p] != w,
{
    lemma_agreeing_grid_holds_cells(b, g);
    lemma_empty_cell_not_given(b, p);
    assert(fits(g, p));
    lemma_refused_is_seen(b, w, p);
    let q = choose|q: int| 0 <= q < 81 && sees(p, q) && #[trigger] b.cells[q] == w;
    assert(g[q] == b.cells[q]);
}

/// Logging an assignment to an empty cell leaves the given puzzle as it was.
pub proof fn lemma_assign_keeps_givens(b: State, v: u8, p: int)
    requires
        b.wf(),
        0 <= p < 81,
        b.cells[p] == 0,
    ensures
        b.assign(v, p).givens() == b.givens(),
{
    let after = b.assign(v, p);
    lemma_empty_cell_not_given(b, p);
    assert forall|i: int| 0 <= i < 81 implies after.givens()[i] == b.givens()[i] by {
        if i == p {
            assert(after.trail[b.trail.len() as int].pos == p);
        } else {
            if b.logged(i) {
                let k = choose|k: int| 0 <= k < b.trail.len() && (#[trigger] b.trail[k]).pos == i;
                assert(after.trail[k] == b.trail[k]);
            }
            if after.logged(i) {
                let k = choose|k: int|
                    0 <= k < after.trail.len() && (#[trigger] after.trail[k]).pos == i;
                assert(after.trail[k] == b.trail[k]);
            }
        }
    }
    assert(after.givens() =~= b.givens());
}

/// Taking an assignment back leaves the given puzzle as it was.
pub proof fn lemma_undo_keeps_givens(b: State)
    requires
        b.wf(),
        b.trail.len() > 0,
    ensures
        b.undo().givens() == b.givens(),
{
    let after = b.undo();
    let last = b.trail.len() - 1;
    let p = b.trail[last].pos as int;
    assert forall|i: int| 0 <= i < 81 implies after.givens()[i] == b.givens()[i] by {
        if i == p {
            assert(b.logged(i));
        } else {
            if b.logged(i) {
                let k = choose|k: int| 0 <= k < b.trail.len() && (#[trigger] b.trail[k]).pos == i;
                assert(after.trail[k] == b.trail[k]);
            }
            if after.logged(i) {
                let k = choose|k: int|
                    0 <= k < after.trail.len() && (#[trigger] after.trail[k]).pos == i;
                assert(after.trail[k] == b.trail[k]);
            }
        }
    }
    assert(after.givens() =~= b.givens());
}

/// Moving on to an empty cell, with 1 as the first digit to try, passes over
/// nothing.
pub proof fn lemma_step_in(puzzle: Seq<u8>, since: Seq<LogEntry>, trail: Seq<LogEntry>, p: int)
    requires
        0 <= p < 81,
        puzzle[p] == 0,
        none_skipped(puzzle, since, trail),
    ensures
        none_skipped(puzzle, since, trail.push(cursor(p, 1))),
{
    assert forall|g: Seq<u8>| #[trigger]
        completes(g, puzzle) && !passed_over(g, since) implies !passed_over(
        g,
        trail.push(cursor(p, 1)),
    ) by {
        lemma_passed_over_push(g, trail, cursor(p, 1));
        assert(fits(g, p));
    }
}

/// Where a cell allows no digit from `start` on, every grid that completes
/// the given puzzle and agrees with the log holds a digit below `start`
/// there.
pub proof fn lemma_dead_end(b: State, g: Seq<u8>, p: int, start: u8)
    requires
        b.wf(),
        0 <= p < 81,
        b.cells[p] == 0,
        1 <= start,
        b.none_allowed(p, start),
        completes(g, b.givens()),
        agrees(g, b.trail),
    ensures
        g[p] < start,
{
    lemma_empty_cell_not_given(b, p);
    assert(fits(g, p));
    if g[p] >= start {
        assert(!b.allows(g[p], p));
        lemma_refused_digit(b, g, p, g[p]);
    }
}

/// Writing the smallest allowed digit into the cell where the search stands
/// passes over no grid that was still ahead.
pub proof fn lemma_advance(b: State, since: Seq<LogEntry>, p: int, start: u8, v: u8)
    requires
        b.wf(),
        0 <= p < 81,
        1 <= start,
        b.first_allowed(p, start, v),
        none_skipped(b.givens(), since, b.trail.push(cursor(p, start))),
    ensures
        none_skipped(b.givens(), since, b.assign(v, p).trail),
{
    assert forall|g: Seq<u8>| #[trigger]
        completes(g, b.givens()) && !passed_over(g, since) implies !passed_over(
        g,
        b.assign(v, p).trail,
    ) by {
        lemma_passed_over_push(g, b.trail, cursor(p, start));
        lemma_passed_over_push(g, b.trail, cursor(p, v));
        if agrees(g, b.trail) && g[p] < v {
            assert(!b.allows(g[p], p));
            lemma_refused_digit(b, g, p, g[p]);
        }
    }
}

/// Where the search is stuck, taking the newest assignment back and going on
/// with the next digit of that cell passes over no grid that was still ahead.
pub proof fn lemma_retreat(b: State, since: Seq<LogEntry>, p: int, start: u8)
    requires
        b.wf(),
        0 <= p < 81,
        b.cells[p] == 0,
        1 <= start,
        b.none_allowed(p, start),
        none_skipped(b.givens(), since, b.trail.push(cursor(p, start))),
        b.trail.len() > 0,
    ensures
        none_skipped(
            b.givens(),
            since,
            b.undo().trail.push(cursor(b.trail.last().pos as int, (b.trail.last().val + 1) as u8)),
        ),
{
    let rest = b.trail.drop_last();
    let last = b.trail.last();
    let again = cursor(last.pos as int, (last.val + 1) as u8);
    assert(rest.push(last) =~= b.trail);
    assert(1 <= last.val <= 9) by {
        assert(fits(b.cells, b.trail[b.trail.len() - 1].pos as int));
    }
    assert forall|g: Seq<u8>| #[trigger]
        completes(g, b.givens()) && !passed_over(g, since) implies !passed_over(
        g,
        rest.push(again),
    ) by {
        lemma_passed_over_push(g, b.trail, cursor(p, start));
        if agrees(g, b.trail) {
            lemma_dead_end(b, g, p, start);
        }
        lemma_passed_over_push(g, rest, last);
        lemma_agrees_push(g, rest, last);
        lemma_passed_over_push(g, rest, again);
    }
}

/// Where the search is stuck with an empty log, no grid was still ahead.
pub proof fn lemma_exhausted(b: State, since: Seq<LogEntry>, p: int, start: u8)
    requires
        b.wf(),
        0 <= p < 81,
        b.cells[p] == 0,
        1 <= start,
        b.none_allowed(p, start),
        none_skipped(b.givens(), since, b.trail.push(cursor(p, start))),
        b.trail.len() == 0,
    ensures
        forall|g: Seq<u8>| #[trigger] completes(g, b.givens()) ==> passed_over(g, since),
{
    assert forall|g: Seq<u8>| #[trigger] completes(g, b.givens()) implies passed_over(g, since) by {
        if !passed_over(g, since) {
            lemma_passed_over_push(g, b.trail, cursor(p, start));
            lemma_dead_end(b, g, p, start);
        }
    }
}

/// A log that grows keeps behind what it had passed over.
pub proof fn lemma_behind_push(since: Seq<LogEntry>, trail: Seq<LogEntry>, e: LogEntry)
    requires
        kept_behind(since, trail),
    ensures
        kept_behind(since, trail.push(e)),
{
    assert forall|g: Seq<u8>| #[trigger] passed_over(g, since) implies passed_over(
        g,
        trail.push(e),
    ) by {
        lemma_passed_over_push(g, trail, e);
    }
}

/// Logging a digit that is no smaller than the one the search was about to
/// try keeps behind what was passed over.
pub proof fn lemma_behind_advance(
    since: Seq<LogEntry>,
    trail: Seq<LogEntry>,
    p: int,
    start: u8,
    v: u8,
)
    requires
        start <= v,
        kept_behind(since, trail.push(cursor(p, start))),
    ensures
        kept_behind(since, trail.push(cursor(p, v))),
{
    assert forall|g: Seq<u8>| #[trigger] passed_over(g, since) implies passed_over(
        g,
        trail.push(cursor(p, v)),
    ) by {
        lemma_passed_over_push(g, trail, cursor(p, start));
        lemma_passed_over_push(g, trail, cursor(p, v));
    }
}

/// Taking the newest assignment back and going on with the next digit of
/// that cell keeps behind what was passed over.
pub proof fn lemma_behind_retreat(since: Seq<LogEntry>, trail: Seq<LogEntry>, at: LogEntry)
    requires
        trail.len() > 0,
        trail.last().val < 255,
        kept_behind(since, trail.push(at)),
    ensures
        kept_behind(
            since,
            trail.drop_last().push(cursor(trail.last().pos as int, (trail.last().val + 1) as u8)),
        ),
{
    let rest = trail.drop_last();
    let last = trail.last();
    let again = cursor(last.pos as int, (last.val + 1) as u8);
    assert(rest.push(last) =~= trail);
    assert forall|g: Seq<u8>| #[trigger] passed_over(g, since) implies passed_over(
        g,
        rest.push(again),
    ) by {
        lemma_passed_over_push(g, trail, at);
        lemma_passed_over_push(g, rest, last);
        lemma_agrees_push(g, rest, last);
        lemma_passed_over_push(g, rest, again);
    }
}

/// A log has not passed over a grid that agrees with it.
pub proof fn lemma_agreeing_not_passed_over(g: Seq<u8>, trail: Seq<LogEntry>)
    requires
        agrees(g, trail),
    ensures
        !passed_over(g, trail),
{
    if passed_over(g, trail) {
        let j = choose|j: int|
            0 <= j < trail.len() && g[(#[trigger] trail[j]).pos as int] < trail[j].val && agrees(
                g,
                trail.take(j),
            );
        assert(g[trail[j].pos as int] == trail[j].val);
    }
}

/// The cells of a grid without an empty cell complete the puzzle that was
/// given, and agree with the log.
pub proof fn lemma_complete_grid_completes(b: State)
    requires
        b.wf(),
        b.complete(),
    ensures
        completes(b.cells, b.givens()),
        agrees(b.cells, b.trail),
{
    assert forall|i: int| 0 <= i < 81 && b.givens()[i] == 0 implies #[trigger] fits(b.cells, i) by {
        assert(b.cells[i] != 0);
        let k = choose|k: int| 0 <= k < b.trail.len() && (#[trigger] b.trail[k]).pos == i;
        assert(fits(b.cells, b.trail[k].pos as int));
    }
}

} // verus!
