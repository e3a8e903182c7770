//! Why the search ends: the logged digits, followed by the next digit to
//! try, read as one number that every step of the search makes larger.

use vstd::prelude::*;
use vstd::seq_lib::*;
use vstd::set_lib::*;
use crate::solvers::backtracking::LogEntry;
use crate::solvers::grid::{fits, State};

verus! {

/// 11 to the power of `e`.
pub open spec fn eleven_to(e: nat) -> int
    decreases e,
{
    if e == 0 {
        1
    } else {
        11 * eleven_to((e - 1) as nat)
    }
}

/// The logged digits, oldest first, read as a number in base 11.
pub open spec fn trail_number(trail: Seq<LogEntry>) -> int
    decreases trail.len(),
{
    if trail.len() == 0 {
        0
    } else {
        trail_number(trail.drop_last()) * 11 + trail.last().val
    }
}

/// How far the search has come: the logged digits and then `start`, the next
/// digit to try, read in base 11 as the leading digits of a number of 83
/// digits.
pub open spec fn progress(trail: Seq<LogEntry>, start: u8) -> int {
    (trail_number(trail) * 11 + start) * eleven_to((82 - trail.len()) as nat)
}

/// How far the search can still go.
pub open spec fn work_left(trail: Seq<LogEntry>, start: u8) -> int {
    eleven_to(83) - progress(trail, start)
}

proof fn lemma_eleven_to_positive(e: nat)
    ensures
        eleven_to(e) >= 1,
    decreases e,
{
    if e > 0 {
        lemma_eleven_to_positive((e - 1) as nat);
    }
}

proof fn lemma_eleven_to_adds(a: nat, b: nat)
    ensures
        eleven_to(a + b) == eleven_to(a) * eleven_to(b),
    decreases a,
{
    if a > 0 {
        lemma_eleven_to_adds((a - 1) as nat, b);
        let (x, y) = (eleven_to((a - 1) as nat), eleven_to(b));
        assert(eleven_to(a + b) == 11 * eleven_to((a - 1 + b) as nat));
        assert(11 * (x * y) == (11 * x) * y) by (nonlinear_arith);
    } else {
        assert(eleven_to(a + b) == 1 * eleven_to(b));
    }
}

proof fn lemma_trail_number_bound(trail: Seq<LogEntry>)
    requires
        forall|k: int| 0 <= k < trail.len() ==> (#[trigger] trail[k]).val <= 10,
    ensures
        0 <= trail_number(trail) < eleven_to(trail.len()),
    decreases trail.len(),
{
    if trail.len() > 0 {
        let rest = trail.drop_last();
        assert forall|k: int| 0 <= k < rest.len() implies (#[trigger] rest[k]).val <= 10 by {
            assert(rest[k] == trail[k]);
        }
        lemma_trail_number_bound(rest);
        assert(trail[trail.len() - 1].val <= 10);
    }
}

/// No log holds more entries than the grid has cells.
pub proof fn lemma_trail_fits_grid(b: State)
    requires
        b.wf(),
    ensures
        b.trail.len() <= 81,
        forall|k: int| 0 <= k < b.trail.len() ==> 1 <= (#[trigger] b.trail[k]).val <= 9,
{
    let cells = Seq::new(b.trail.len(), |k: int| b.trail[k].pos as int);
    assert(cells.no_duplicates()) by {
        assert forall|i: int, j: int|
            0 <= i < cells.len() && 0 <= j < cells.len() && i != j implies cells[i] != cells[j] by {
            if i < j {
                assert(b.trail[i].pos != b.trail[j].pos);
            } else {
                assert(b.trail[j].pos != b.trail[i].pos);
            }
        }
    }
    cells.unique_seq_to_set();
    lemma_int_range(0, 81);
    assert(cells.to_set().subset_of(set_int_range(0, 81))) by {
        assert forall|p: int| cells.to_set().contains(p) implies set_int_range(0, 81).contains(
            p,
        ) by {
            let k = choose|k: int| 0 <= k < cells.len() && cells[k] == p;
            assert(b.trail[k].pos < 81);
        }
    }
    lemma_len_subset(cells.to_set(), set_int_range(0, 81));
    assert forall|k: int| 0 <= k < b.trail.len() implies 1 <= (#[trigger] b.trail[k]).val <= 9 by {
        assert(fits(b.cells, b.trail[k].pos as int));
    }
}

/// While the digits stay below 11, the search has work left.
pub proof fn lemma_work_left_positive(trail: Seq<LogEntry>, start: u8)
    requires
        trail.len() <= 81,
        forall|k: int| 0 <= k < trail.len() ==> (#[trigger] trail[k]).val <= 10,
        start <= 10,
    ensures
        work_left(trail, start) > 0,
{
    let n = trail.len();
    let t = trail_number(trail);
    let scale = eleven_to((82 - n) as nat);
    lemma_trail_number_bound(trail);
    lemma_eleven_to_positive((82 - n) as nat);
    lemma_eleven_to_adds(n + 1, (82 - n) as nat);
    assert(eleven_to(n + 1) == 11 * eleven_to(n));
    let top = eleven_to(n + 1);
    assert(t * 11 + start < top);
    assert((t * 11 + start) * scale < top * scale) by (nonlinear_arith)
        requires
            t * 11 + start < top,
            scale >= 1,
    ;
}

/// Logging a digit that is no smaller than the one the search was about to
/// try, and going on with digit 1, leaves less work.
pub proof fn lemma_advance_works(trail: Seq<LogEntry>, start: u8, e: LogEntry)
    requires
        trail.len() <= 81,
        start <= e.val,
    ensures
        work_left(trail.push(e), 1) < work_left(trail, start),
{
    let n = trail.len();
    let t = trail_number(trail);
    let longer = trail.push(e);
    let scale = eleven_to((81 - n) as nat);
    assert(longer.drop_last() =~= trail);
    assert(trail_number(longer) == t * 11 + e.val);
    assert(eleven_to((82 - n) as nat) == 11 * scale);
    lemma_eleven_to_positive((81 - n) as nat);
    let (v, s) = (e.val as int, start as int);
    assert(((t * 11 + v) * 11 + 1) * scale > (t * 11 + s) * (11 * scale)) by (nonlinear_arith)
        requires
            s <= v,
            scale >= 1,
    ;
}

/// Taking the newest digit back and going on with the next larger one leaves
/// less work.
pub proof fn lemma_retreat_works(trail: Seq<LogEntry>, start: u8)
    requires
        0 < trail.len() <= 81,
        trail.last().val < 255,
        start <= 10,
    ensures
        work_left(trail.drop_last(), (trail.last().val + 1) as u8) < work_left(trail, start),
{
    let n = trail.len();
    let rest = trail.drop_last();
    let t = trail_number(rest);
    let scale = eleven_to((82 - n) as nat);
    assert(eleven_to((82 - rest.len()) as nat) == 11 * scale);
    lemma_eleven_to_positive((82 - n) as nat);
    let (v, s) = (trail.last().val as int, start as int);
    assert((t * 11 + (v + 1)) * (11 * scale) > ((t * 11 + v) * 11 + s) * scale) by (nonlinear_arith)
        requires
            s <= 10,
            scale >= 1,
    ;
}

} // verus!
