//! The shift instances of a snapshot, in the order in which they are staffed:
//! by date, then by start time, then by the identifier of the definition.

use vstd::prelude::*;
use crate::calendar::{weekday_of, weekday_of_ordinal, LAST_DAY};
use crate::problem::{Problem, Snapshot};
use crate::ranking::{ahead, lemma_ranking_exists, listed, rank_all, ranking_of, Key3, Ranked};
use crate::rules::is_instance;

verus! {

/// A shift definition on one day; the template is a position in the snapshot.
#[derive(Clone, Copy, Debug, PartialEq, Eq, Structural)]
pub struct Instance {
    pub template: usize,
    pub day: i64,
}

/// The keys by which the instances of one day are ordered: start time, then identifier.
pub open spec fn template_keys(snap: Snapshot) -> Seq<Key3> {
    Seq::new(
        snap.templates.len(),
        |t: int| Key3 { a: snap.templates[t].start, b: snap.templates[t].id, c: 0 },
    )
}

/// Which templates have an instance on a day of the week of `d`.
pub open spec fn weekday_flags(snap: Snapshot, d: int) -> Seq<bool> {
    Seq::new(snap.templates.len(), |t: int| weekday_of(d) == snap.templates[t].weekday)
}

/// The instances of day `d`, whether or not it lies in the range.
pub open spec fn day_slate(snap: Snapshot, d: int) -> Seq<Instance> {
    ranking_of(template_keys(snap), weekday_flags(snap, d)).map_values(
        |t: usize| Instance { template: t, day: d as i64 },
    )
}

/// The instances of the days of the range up to day `d`.
pub open spec fn instances_through(snap: Snapshot, d: int) -> Seq<Instance>
    decreases d - snap.first_day + 1,
{
    if d < snap.first_day {
        Seq::empty()
    } else {
        instances_through(snap, d - 1) + day_slate(snap, d)
    }
}

/// The instances of the range.
pub open spec fn instances(snap: Snapshot) -> Seq<Instance> {
    instances_through(snap, snap.last_day)
}

/// Instance `a` is staffed before instance `b`.
pub open spec fn instance_before(snap: Snapshot, a: Instance, b: Instance) -> bool {
    a.day < b.day || (a.day == b.day && ahead(template_keys(snap), a.template as int, b.template as int))
}

/// `insts` holds the instances of days before `end`, each once, in staffing order.
pub open spec fn is_roster_until(snap: Snapshot, insts: Seq<Instance>, end: int) -> bool {
    &&& forall|k: int|
        0 <= k < insts.len() ==> is_instance(
            snap,
            (#[trigger] insts[k]).template as int,
            insts[k].day as int,
        ) && insts[k].day < end
    &&& forall|t: int, d: int| #[trigger]
        is_instance(snap, t, d) && d < end ==> exists|k: int|
            0 <= k < insts.len() && (#[trigger] insts[k]).template == t && insts[k].day == d
    &&& forall|a: int, b: int|
        0 <= a < b < insts.len() ==> instance_before(snap, #[trigger] insts[a], #[trigger] insts[b])
}

/// `insts` holds every instance of the range once, in staffing order.
pub open spec fn is_roster(snap: Snapshot, insts: Seq<Instance>) -> bool {
    is_roster_until(snap, insts, snap.last_day + 1)
}

/// Two positions of a roster hold different instances.
pub proof fn lemma_roster_distinct(snap: Snapshot, insts: Seq<Instance>, a: int, b: int)
    requires
        is_roster(snap, insts),
        0 <= a < insts.len(),
        0 <= b < insts.len(),
        a != b,
    ensures
        !(insts[a].template == insts[b].template && insts[a].day == insts[b].day),
{
    let keys = template_keys(snap);
    if a < b {
        assert(instance_before(snap, insts[a], insts[b]));
    } else {
        assert(instance_before(snap, insts[b], insts[a]));
    }
    Key3::lemma_strict_weak_order(&keys[insts[a].template as int], &keys[insts[a].template as int], &keys[insts[a].template as int]);
}

proof fn lemma_roster_through(snap: Snapshot, d: int)
    requires
        snap.wf(),
        snap.first_day - 1 <= d <= snap.last_day,
    ensures
        is_roster_until(snap, instances_through(snap, d), d + 1),
    decreases d - snap.first_day + 1,
{
    if d >= snap.first_day {
        lemma_roster_through(snap, d - 1);
        let before = instances_through(snap, d - 1);
        let keys = template_keys(snap);
        let flags = weekday_flags(snap, d);
        lemma_ranking_exists(keys, flags);
        let order = ranking_of(keys, flags);
        let f = |t: usize| Instance { template: t, day: d as i64 };
        let slate = order.map_values(f);
        let out = instances_through(snap, d);
        assert(out == before + slate);
        assert forall|i: int| 0 <= i < out.len() implies is_instance(
            snap,
            (#[trigger] out[i]).template as int,
            out[i].day as int,
        ) && out[i].day < d + 1 by {
            if i >= before.len() {
                let j = i - before.len();
                assert(out[i] == f(order[j]));
                assert(flags[order[j] as int]);
            } else {
                assert(out[i] == before[i]);
            }
        }
        assert forall|t: int, e: int| #[trigger] is_instance(snap, t, e) && e < d + 1 implies exists|i: int|
            0 <= i < out.len() && (#[trigger] out[i]).template == t && out[i].day == e by {
            if e < d {
                let i = choose|i: int|
                    0 <= i < before.len() && (#[trigger] before[i]).template == t && before[i].day == e;
                assert(out[i] == before[i]);
            } else {
                assert(flags[t]);
                assert(listed(order, t));
                let j = choose|j: int| 0 <= j < order.len() && #[trigger] order[j] as int == t;
                assert(out[before.len() + j] == f(order[j]));
            }
        }
        assert forall|a: int, b: int| 0 <= a < b < out.len() implies instance_before(
            snap,
            #[trigger] out[a],
            #[trigger] out[b],
        ) by {
            if b < before.len() {
                assert(out[a] == before[a] && out[b] == before[b]);
            } else if a < before.len() {
                assert(out[a] == before[a]);
                assert(out[b] == f(order[b - before.len()]));
            } else {
                let x = a - before.len();
                let y = b - before.len();
                assert(out[a] == f(order[x]));
                assert(out[b] == f(order[y]));
                assert(ahead(keys, order[x] as int, order[y] as int));
            }
        }
    }
}

/// The instances of a snapshot are the shift instances of its range, each
/// once, by date, then start time, then identifier.
pub proof fn lemma_instances_are_roster(snap: Snapshot)
    requires
        snap.wf(),
    ensures
        is_roster(snap, instances(snap)),
{
    if snap.last_day >= snap.first_day {
        lemma_roster_through(snap, snap.last_day);
    }
}

fn template_key_table(p: &Problem) -> (r: Vec<Key3>)
    ensures
        r@ == template_keys(p@),
{
    let mut keys: Vec<Key3> = Vec::new();
    let mut t: usize = 0;
    while t < p.templates.len()
        invariant
            0 <= t <= p.templates.len(),
            keys.len() == t,
            forall|k: int| 0 <= k < t ==> #[trigger] keys@[k] == template_keys(p@)[k],
        decreases p.templates.len() - t,
    {
        keys.push(Key3 { a: p.templates[t].start, b: p.templates[t].id, c: 0 });
        t += 1;
    }
    assert(keys@ =~= template_keys(p@));
    keys
}

fn weekday_flag_table(p: &Problem, day: i64) -> (r: Vec<bool>)
    requires
        0 <= day <= LAST_DAY,
    ensures
        r@ == weekday_flags(p@, day as int),
{
    let weekday = weekday_of_ordinal(day);
    let mut flags: Vec<bool> = Vec::new();
    let mut t: usize = 0;
    while t < p.templates.len()
        invariant
            0 <= t <= p.templates.len(),
            flags.len() == t,
            weekday as int == weekday_of(day as int),
            forall|k: int| 0 <= k < t ==> #[trigger] flags@[k] == weekday_flags(p@, day as int)[k],
        decreases p.templates.len() - t,
    {
        flags.push(p.templates[t].weekday == weekday);
        t += 1;
    }
    assert(flags@ =~= weekday_flags(p@, day as int));
    flags
}

/// Lists the shift instances of the range in staffing order.
pub fn expand(p: &Problem) -> (r: Vec<Instance>)
    requires
        p@.wf(),
    ensures
        r@ == instances(p@),
        is_roster(p@, r@),
{
    let keys = template_key_table(p);
    let mut out: Vec<Instance> = Vec::new();
    proof {
        lemma_instances_are_roster(p@);
    }
    if p.first_day > p.last_day {
        return out;
    }
    let mut day: i64 = p.first_day;
    while day <= p.last_day
        invariant
            p@.wf(),
            keys@ == template_keys(p@),
            p.first_day <= day <= p.last_day + 1,
            out@ == instances_through(p@, day - 1),
        decreases p.last_day - day + 1,
    {
        let flags = weekday_flag_table(p, day);
        let order = rank_all(&keys, &flags);
        let ghost before = out@;
        let mut k: usize = 0;
        while k < order.len()
            invariant
                0 <= k <= order.len(),
                out@ == before + order@.take(k as int).map_values(
                    |t: usize| Instance { template: t, day: day },
                ),
            decreases order.len() - k,
        {
            out.push(Instance { template: order[k], day });
            proof {
                let f = |t: usize| Instance { template: t, day: day };
                assert(order@.take(k + 1).map_values(f) =~= order@.take(k as int).map_values(f).push(
                    f(order@[k as int]),
                ));
            }
            k += 1;
        }
        proof {
            assert(order@.take(order.len() as int) =~= order@);
            assert(order@.map_values(|t: usize| Instance { template: t, day: day }) == day_slate(
                p@,
                day as int,
            ));
        }
        day += 1;
    }
    out
}

} // verus!
