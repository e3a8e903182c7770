//! The order in which the search meets the grids: cell by cell in reading
//! order, smaller digits first.

use vstd::prelude::*;
use crate::solvers::grid::{fits, State};
use crate::solvers::search::{completes, passed_over};

verus! {

/// Grid `g` comes before `h` or equals it: at the first cell where the two
/// differ, `g` holds the smaller digit.
pub open spec fn grid_le(g: Seq<u8>, h: Seq<u8>) -> bool {
    g == h || exists|c: int|
        0 <= c < 81 && #[trigger] g[c] < h[c] && forall|i: int|
            0 <= i < c ==> #[trigger] g[i] == h[i]
}

/// Grid `g` is the first of the grids that complete `puzzle`.
pub open spec fn first_completion(g: Seq<u8>, puzzle: Seq<u8>) -> bool {
    completes(g, puzzle) && forall|h: Seq<u8>| #[trigger] completes(h, puzzle) ==> grid_le(g, h)
}

/// The log was made in reading order: its cells ascend, and every cell
/// before the newest logged one is filled. A log that only the search wrote
/// is so, and so is an empty one.
pub open spec fn in_order(b: State) -> bool {
    &&& forall|j: int, k: int|
        0 <= j < k < b.trail.len() ==> (#[trigger] b.trail[j]).pos < (#[trigger] b.trail[k]).pos
    &&& b.trail.len() > 0 ==> forall|i: int|
        0 <= i < b.trail.last().pos ==> #[trigger] b.cells[i] != 0
}

/// A solver that has logged nothing holds the puzzle as it was given, its
/// log is in reading order, and it has passed over no grid.
pub proof fn lemma_empty_log(b: State)
    requires
        b.wf(),
        b.trail.len() == 0,
    ensures
        b.givens() == b.cells,
        in_order(b),
        forall|g: Seq<u8>| !#[trigger] passed_over(g, b.trail),
{
    assert(b.givens() =~= b.cells);
}

/// Filling the first empty cell keeps the log in reading order.
pub proof fn lemma_in_order_assign(b: State, v: u8, p: int)
    requires
        b.wf(),
        in_order(b),
        b.first_empty(p),
        v != 0,
    ensures
        in_order(b.assign(v, p)),
{
    let after = b.assign(v, p);
    let n = b.trail.len() as int;
    assert(after.trail[n].pos == p);
    assert forall|j: int, k: int| 0 <= j < k < after.trail.len() implies (
    #[trigger] after.trail[j]).pos < (#[trigger] after.trail[k]).pos by {
        assert(after.trail[j] == b.trail[j]);
        if k < n {
            assert(after.trail[k] == b.trail[k]);
        } else {
            assert(b.trail[j].pos <= b.trail[n - 1].pos);
            assert(fits(b.cells, b.trail[n - 1].pos as int));
            if b.trail[n - 1].pos > p {
                assert(b.cells[p] != 0);
            }
        }
    }
}

/// Taking the newest assignment back keeps the log in reading order, and
/// leaves the cell that was cleared as the first empty one.
pub proof fn lemma_in_order_undo(b: State)
    requires
        b.wf(),
        in_order(b),
        b.trail.len() > 0,
    ensures
        in_order(b.undo()),
        b.undo().first_empty(b.trail.last().pos as int),
{
    let after = b.undo();
    let n = b.trail.len() as int;
    assert(b.trail[n - 1].pos < 81);
    assert forall|j: int, k: int| 0 <= j < k < after.trail.len() implies (
    #[trigger] after.trail[j]).pos < (#[trigger] after.trail[k]).pos by {
        assert(after.trail[j] == b.trail[j]);
        assert(after.trail[k] == b.trail[k]);
    }
    if after.trail.len() > 0 {
        assert(after.trail[n - 2] == b.trail[n - 2]);
        assert(b.trail[n - 2].pos < b.trail[n - 1].pos);
    }
}

/// Two different grids differ at a first cell.
pub proof fn lemma_first_difference(g: Seq<u8>, h: Seq<u8>, from: int) -> (c: int)
    requires
        g.len() == 81,
        h.len() == 81,
        g != h,
        0 <= from <= 81,
        forall|i: int| 0 <= i < from ==> #[trigger] g[i] == h[i],
    ensures
        from <= c < 81,
        g[c] != h[c],
        forall|i: int| 0 <= i < c ==> #[trigger] g[i] == h[i],
    decreases 81 - from,
{
    if from == 81 {
        assert(g =~= h);
        from
    } else if g[from] != h[from] {
        from
    } else {
        lemma_first_difference(g, h, from + 1)
    }
}

/// A grid without an empty cell, filled in reading order, comes before every
/// grid that completes the given puzzle and that its log has not passed over.
pub proof fn lemma_found_first(b: State, g: Seq<u8>)
    requires
        b.wf(),
        b.complete(),
        in_order(b),
        completes(g, b.givens()),
        !passed_over(g, b.trail),
    ensures
        grid_le(b.cells, g),
{
    if b.cells != g {
        let c = lemma_first_difference(b.cells, g, 0);
        assert(b.cells[c] != 0);
        if b.givens()[c] != 0 {
            assert(g[c] == b.givens()[c]);
        }
        assert(b.logged(c));
        let k = choose|k: int| 0 <= k < b.trail.len() && (#[trigger] b.trail[k]).pos == c;
        assert(b.cells[b.trail[k].pos as int] == b.trail[k].val);
        let before = b.trail.take(k);
        assert forall|j: int| 0 <= j < before.len() implies g[(#[trigger] before[j]).pos as int]
            == before[j].val by {
            assert(before[j] == b.trail[j]);
            assert(b.trail[j].pos < b.trail[k].pos);
            assert(b.cells[b.trail[j].pos as int] == b.trail[j].val);
            assert(b.cells[b.trail[j].pos as int] == g[b.trail[j].pos as int]);
        }
        assert(b.cells[c] < g[c]);
    }
}

} // verus!
