//! The labour rules, stated over a snapshot and a list of placements.
//!
//! A placement puts one worker on one shift instance: a shift definition on a
//! day of the range whose day of the week is the definition's.

use vstd::prelude::*;
use crate::calendar::{weekday_of, weekday_of_ordinal, LAST_DAY, MINUTES_PER_DAY};
use crate::problem::{Leave, Problem, Snapshot};

verus! {

/// The minimum rest between two shifts of one worker, in minutes: 11 hours.
pub const MIN_REST: i64 = 660;

/// One worker on one shift instance; worker and template are positions in the snapshot.
#[derive(Clone, Copy, Debug, PartialEq, Eq, Structural)]
pub struct Placement {
    pub worker: usize,
    pub template: usize,
    pub day: i64,
}

/// Template `t` has an instance on day `d`.
pub open spec fn is_instance(snap: Snapshot, t: int, d: int) -> bool {
    &&& 0 <= t < snap.templates.len()
    &&& snap.first_day <= d <= snap.last_day
    &&& weekday_of(d) == snap.templates[t].weekday
}

/// When the instance starts, in minutes from the start of day 0.
pub open spec fn shift_start(snap: Snapshot, t: int, d: int) -> int {
    d * MINUTES_PER_DAY + snap.templates[t].start
}

/// When the instance ends: on the next day where the end time is earlier than the start time.
pub open spec fn shift_end(snap: Snapshot, t: int, d: int) -> int {
    d * MINUTES_PER_DAY + snap.templates[t].end + if snap.templates[t].end < snap.templates[t].start {
        MINUTES_PER_DAY as int
    } else {
        0
    }
}

/// Between the end of whichever instance starts first and the start of the other lie
/// at least 11 hours.
pub open spec fn rested(snap: Snapshot, t1: int, d1: int, t2: int, d2: int) -> bool {
    if shift_start(snap, t1, d1) <= shift_start(snap, t2, d2) {
        shift_start(snap, t2, d2) - shift_end(snap, t1, d1) >= MIN_REST
    } else {
        shift_start(snap, t1, d1) - shift_end(snap, t2, d2) >= MIN_REST
    }
}

pub open spec fn covers(l: Leave, id: i64, d: int) -> bool {
    l.employee_id == id && l.first_day <= d <= l.last_day
}

/// Worker `w` is absent on day `d`.
pub open spec fn absent(snap: Snapshot, w: int, d: int) -> bool {
    exists|l: int| 0 <= l < snap.leaves.len() && covers(#[trigger] snap.leaves[l], snap.workers[w].id, d)
}

/// The placement names an active worker, who is not absent, and a shift instance of the range.
pub open spec fn allowed(snap: Snapshot, p: Placement) -> bool {
    &&& p.worker < snap.workers.len()
    &&& is_instance(snap, p.template as int, p.day as int)
    &&& snap.workers[p.worker as int].active
    &&& !absent(snap, p.worker as int, p.day as int)
}

/// Two placements of one worker are on different days and leave the minimum rest.
pub open spec fn compatible(snap: Snapshot, p: Placement, q: Placement) -> bool {
    p.worker == q.worker ==> p.day != q.day && rested(
        snap,
        p.template as int,
        p.day as int,
        q.template as int,
        q.day as int,
    )
}

/// Every hard rule on single placements and on pairs of them holds.
pub open spec fn feasible(snap: Snapshot, ps: Seq<Placement>) -> bool {
    &&& forall|i: int| 0 <= i < ps.len() ==> allowed(snap, #[trigger] ps[i])
    &&& forall|i: int, j: int|
        0 <= i < j < ps.len() ==> compatible(snap, #[trigger] ps[i], #[trigger] ps[j])
}

/// `p` can be added to `ps` without breaking a hard rule on placements.
pub open spec fn can_join(snap: Snapshot, ps: Seq<Placement>, p: Placement) -> bool {
    &&& allowed(snap, p)
    &&& forall|i: int| 0 <= i < ps.len() ==> compatible(snap, #[trigger] ps[i], p)
}

/// Worker `w` can be added to the instance of template `t` on day `d`.
pub open spec fn joinable(snap: Snapshot, ps: Seq<Placement>, w: int, t: int, d: int) -> bool {
    can_join(snap, ps, Placement { worker: w as usize, template: t as usize, day: d as i64 })
}

/// How many placements the instance of template `t` on day `d` has.
pub open spec fn coverage(ps: Seq<Placement>, t: int, d: int) -> nat
    decreases ps.len(),
{
    if ps.len() == 0 {
        0
    } else {
        coverage(ps.drop_last(), t, d) + if ps.last().template == t && ps.last().day == d {
            1nat
        } else {
            0nat
        }
    }
}

/// How many placements worker `w` has.
pub open spec fn load(ps: Seq<Placement>, w: int) -> nat
    decreases ps.len(),
{
    if ps.len() == 0 {
        0
    } else {
        load(ps.drop_last(), w) + if ps.last().worker == w {
            1nat
        } else {
            0nat
        }
    }
}

/// No shift instance has more placements than it requires.
pub open spec fn within_staffing(snap: Snapshot, ps: Seq<Placement>) -> bool {
    forall|t: int, d: int|
        is_instance(snap, t, d) ==> #[trigger] coverage(ps, t, d) <= snap.templates[t].required
}

/// Every shift instance has the placements that it requires.
pub open spec fn fully_staffed(snap: Snapshot, ps: Seq<Placement>) -> bool {
    forall|t: int, d: int|
        is_instance(snap, t, d) ==> #[trigger] coverage(ps, t, d) == snap.templates[t].required
}

/// No worker can be added to a shift instance that is short of staff.
pub open spec fn saturated(snap: Snapshot, ps: Seq<Placement>) -> bool {
    forall|w: int, t: int, d: int|
        is_instance(snap, t, d) && coverage(ps, t, d) < snap.templates[t].required && 0 <= w
            < snap.workers.len() ==> !#[trigger] joinable(snap, ps, w, t, d)
}

/// The placements name templates of the snapshot and days that have a date.
pub open spec fn in_bounds(snap: Snapshot, ps: Seq<Placement>) -> bool {
    forall|i: int|
        0 <= i < ps.len() ==> (#[trigger] ps[i]).template < snap.templates.len() && 0 <= ps[i].day
            <= LAST_DAY
}

pub proof fn lemma_rested_symmetric(snap: Snapshot, t1: int, d1: int, t2: int, d2: int)
    requires
        snap.wf(),
        0 <= t1 < snap.templates.len(),
        0 <= t2 < snap.templates.len(),
    ensures
        rested(snap, t1, d1, t2, d2) == rested(snap, t2, d2, t1, d1),
{
    let a = snap.templates[t1];
    let b = snap.templates[t2];
    assert(shift_end(snap, t1, d1) >= shift_start(snap, t1, d1));
    assert(shift_end(snap, t2, d2) >= shift_start(snap, t2, d2));
}

pub proof fn lemma_coverage_push(ps: Seq<Placement>, p: Placement, t: int, d: int)
    ensures
        coverage(ps.push(p), t, d) == coverage(ps, t, d) + if p.template == t && p.day == d {
            1nat
        } else {
            0nat
        },
{
    assert(ps.push(p).drop_last() =~= ps);
}

pub proof fn lemma_load_push(ps: Seq<Placement>, p: Placement, w: int)
    ensures
        load(ps.push(p), w) == load(ps, w) + if p.worker == w {
            1nat
        } else {
            0nat
        },
{
    assert(ps.push(p).drop_last() =~= ps);
}

/// An instance that no placement names has no coverage.
pub proof fn lemma_coverage_none(ps: Seq<Placement>, t: int, d: int)
    requires
        forall|i: int| 0 <= i < ps.len() ==> !((#[trigger] ps[i]).template == t && ps[i].day == d),
    ensures
        coverage(ps, t, d) == 0,
    decreases ps.len(),
{
    if ps.len() > 0 {
        lemma_coverage_none(ps.drop_last(), t, d);
    }
}

/// An instance with coverage is named by some placement.
pub proof fn lemma_coverage_some(ps: Seq<Placement>, t: int, d: int)
    requires
        coverage(ps, t, d) > 0,
    ensures
        exists|i: int| 0 <= i < ps.len() && (#[trigger] ps[i]).template == t && ps[i].day == d,
{
    if forall|i: int| 0 <= i < ps.len() ==> !((#[trigger] ps[i]).template == t && ps[i].day == d) {
        lemma_coverage_none(ps, t, d);
    }
}

/// Adding a placement that can join keeps the list feasible.
pub proof fn lemma_feasible_push(snap: Snapshot, ps: Seq<Placement>, p: Placement)
    requires
        feasible(snap, ps),
        can_join(snap, ps, p),
    ensures
        feasible(snap, ps.push(p)),
{
}

/// Removing the last placement keeps the list feasible.
pub proof fn lemma_feasible_pop(snap: Snapshot, ps: Seq<Placement>)
    requires
        feasible(snap, ps),
        ps.len() > 0,
    ensures
        feasible(snap, ps.drop_last()),
{
}

/// Who cannot join a list cannot join a longer one.
pub proof fn lemma_join_monotone(snap: Snapshot, ps: Seq<Placement>, x: Placement, p: Placement)
    requires
        can_join(snap, ps.push(x), p),
    ensures
        can_join(snap, ps, p),
{
    assert forall|i: int| 0 <= i < ps.len() implies compatible(snap, #[trigger] ps[i], p) by {
        assert(ps.push(x)[i] == ps[i]);
    }
}

/// Whether worker `w` is absent on `day`.
pub fn is_absent(p: &Problem, w: usize, day: i64) -> (r: bool)
    requires
        w < p.workers.len(),
    ensures
        r == absent(p@, w as int, day as int),
{
    let id = p.workers[w].id;
    let mut l: usize = 0;
    while l < p.leaves.len()
        invariant
            0 <= l <= p.leaves.len(),
            w < p.workers.len(),
            id == p.workers@[w as int].id,
            forall|k: int| 0 <= k < l ==> !covers(#[trigger] p.leaves@[k], id, day as int),
        decreases p.leaves.len() - l,
    {
        let leave = &p.leaves[l];
        if leave.employee_id == id && leave.first_day <= day && day <= leave.last_day {
            assert(covers(p@.leaves[l as int], p@.workers[w as int].id, day as int));
            return true;
        }
        l += 1;
    }
    false
}

/// Whether template `t` has an instance on `day`.
pub fn makes_instance(p: &Problem, t: usize, day: i64) -> (r: bool)
    requires
        p@.wf(),
    ensures
        r == is_instance(p@, t as int, day as int),
{
    t < p.templates.len() && p.first_day <= day && day <= p.last_day && weekday_of_ordinal(day)
        == p.templates[t].weekday
}

/// When an instance starts, in minutes from the start of day 0.
pub fn starts_at(p: &Problem, t: usize, day: i64) -> (r: i64)
    requires
        p@.wf(),
        t < p.templates.len(),
        0 <= day <= LAST_DAY,
    ensures
        r as int == shift_start(p@, t as int, day as int),
{
    proof {
        let x = p@.templates[t as int];
        assert(0 <= x.start < 1440 && 0 <= x.end < 1440);
        assert(MINUTES_PER_DAY == 1440);
    }
    day * MINUTES_PER_DAY + p.templates[t].start
}

/// When an instance ends, in minutes from the start of day 0.
pub fn ends_at(p: &Problem, t: usize, day: i64) -> (r: i64)
    requires
        p@.wf(),
        t < p.templates.len(),
        0 <= day <= LAST_DAY,
    ensures
        r as int == shift_end(p@, t as int, day as int),
{
    proof {
        let x = p@.templates[t as int];
        assert(0 <= x.start < 1440 && 0 <= x.end < 1440);
        assert(MINUTES_PER_DAY == 1440);
    }
    let x = &p.templates[t];
    day * MINUTES_PER_DAY + x.end + if x.end < x.start {
        MINUTES_PER_DAY
    } else {
        0
    }
}

/// Whether two shift instances leave the minimum rest between them.
pub fn is_rested(p: &Problem, t1: usize, d1: i64, t2: usize, d2: i64) -> (r: bool)
    requires
        p@.wf(),
        t1 < p.templates.len(),
        t2 < p.templates.len(),
        0 <= d1 <= LAST_DAY,
        0 <= d2 <= LAST_DAY,
    ensures
        r == rested(p@, t1 as int, d1 as int, t2 as int, d2 as int),
{
    let start1 = starts_at(p, t1, d1);
    let start2 = starts_at(p, t2, d2);
    if start1 <= start2 {
        start2 - ends_at(p, t1, d1) >= MIN_REST
    } else {
        start1 - ends_at(p, t2, d2) >= MIN_REST
    }
}

/// Whether two placements may stand together.
pub fn is_compatible(p: &Problem, a: Placement, b: Placement) -> (r: bool)
    requires
        p@.wf(),
        a.template < p.templates.len(),
        b.template < p.templates.len(),
        0 <= a.day <= LAST_DAY,
        0 <= b.day <= LAST_DAY,
    ensures
        r == compatible(p@, a, b),
{
    a.worker != b.worker || (a.day != b.day && is_rested(p, a.template, a.day, b.template, b.day))
}

/// Whether a placement is allowed by the rules on single placements.
pub fn is_allowed(p: &Problem, a: Placement) -> (r: bool)
    requires
        p@.wf(),
    ensures
        r == allowed(p@, a),
{
    a.worker < p.workers.len() && makes_instance(p, a.template, a.day) && p.workers[a.worker].active
        && !is_absent(p, a.worker, a.day)
}

/// Whether `cand` can be added to `placed`.
pub fn may_join(p: &Problem, placed: &Vec<Placement>, cand: Placement) -> (r: bool)
    requires
        p@.wf(),
        in_bounds(p@, placed@),
    ensures
        r == can_join(p@, placed@, cand),
{
    if !is_allowed(p, cand) {
        return false;
    }
    let mut i: usize = 0;
    while i < placed.len()
        invariant
            0 <= i <= placed.len(),
            p@.wf(),
            in_bounds(p@, placed@),
            allowed(p@, cand),
            forall|k: int| 0 <= k < i ==> compatible(p@, #[trigger] placed@[k], cand),
        decreases placed.len() - i,
    {
        if !is_compatible(p, placed[i], cand) {
            return false;
        }
        i += 1;
    }
    true
}

/// Counts the placements of worker `w`.
pub fn count_load(placed: &Vec<Placement>, w: usize) -> (r: usize)
    ensures
        r as nat == load(placed@, w as int),
{
    let mut n: usize = 0;
    let mut i: usize = 0;
    while i < placed.len()
        invariant
            0 <= i <= placed.len(),
            n <= i,
            n as nat == load(placed@.take(i as int), w as int),
        decreases placed.len() - i,
    {
        proof {
            assert(placed@.take(i + 1) =~= placed@.take(i as int).push(placed@[i as int]));
            lemma_load_push(placed@.take(i as int), placed@[i as int], w as int);
        }
        if placed[i].worker == w {
            n += 1;
        }
        i += 1;
    }
    assert(placed@.take(placed.len() as int) =~= placed@);
    n
}

/// Counts the placements on the instance of template `t` on `day`.
pub fn count_coverage(placed: &Vec<Placement>, t: usize, day: i64) -> (r: usize)
    ensures
        r as nat == coverage(placed@, t as int, day as int),
{
    let mut n: usize = 0;
    let mut i: usize = 0;
    while i < placed.len()
        invariant
            0 <= i <= placed.len(),
            n <= i,
            n as nat == coverage(placed@.take(i as int), t as int, day as int),
        decreases placed.len() - i,
    {
        proof {
            assert(placed@.take(i + 1) =~= placed@.take(i as int).push(placed@[i as int]));
            lemma_coverage_push(placed@.take(i as int), placed@[i as int], t as int, day as int);
        }
        if placed[i].template == t && placed[i].day == day {
            n += 1;
        }
        i += 1;
    }
    assert(placed@.take(placed.len() as int) =~= placed@);
    n
}

} // verus!
