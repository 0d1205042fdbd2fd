//! The constraint solver: a backtracking search for a schedule that staffs
//! every shift instance, bounded in the number of its backtracks, and a
//! fallback that takes for each instance in turn the workers that can be had.
//!
//! Both run as one machine. Its state is a stack of placements and a cursor
//! into the roster; one step fills a slot of the instance at the cursor,
//! moves the cursor on, or takes back the last placement.

use vstd::prelude::*;
use crate::problem::{Problem, Snapshot};
use crate::ranking::{eligible_at, index_view, least_beyond, least_beyond_of, lemma_least_beyond_exists, Ranked};
use crate::roster::{expand, instances, is_roster, lemma_instances_are_roster, lemma_roster_distinct, Instance};
use crate::rules::{
    can_join,
    count_load,
    coverage,
    feasible,
    in_bounds,
    is_instance,
    joinable,
    lemma_coverage_none,
    lemma_coverage_push,
    lemma_feasible_pop,
    lemma_feasible_push,
    lemma_join_monotone,
    load,
    may_join,
    saturated,
    within_staffing,
    fully_staffed,
    Placement,
};

verus! {

/// By what the workers that can take a slot are preferred: the fewest
/// placements so far, then the lowest identifier.
#[derive(Clone, Copy, Debug)]
pub struct Preference {
    pub load: usize,
    pub id: i64,
}

impl Ranked for Preference {
    open spec fn precedes(&self, other: &Self) -> bool {
        self.load < other.load || (self.load == other.load && self.id < other.id)
    }

    fn comes_before(&self, other: &Self) -> (r: bool) {
        self.load < other.load || (self.load == other.load && self.id < other.id)
    }

    proof fn lemma_strict_weak_order(a: &Self, b: &Self, c: &Self) {
    }
}

/// The preference key of every worker, given the placements so far.
pub open spec fn preference_keys(snap: Snapshot, ps: Seq<Placement>) -> Seq<Preference> {
    Seq::new(
        snap.workers.len(),
        |w: int| Preference { load: load(ps, w) as usize, id: snap.workers[w].id },
    )
}

/// Which workers can join the instance of template `t` on day `d`.
pub open spec fn join_flags(snap: Snapshot, ps: Seq<Placement>, t: int, d: int) -> Seq<bool> {
    Seq::new(snap.workers.len(), |w: int| joinable(snap, ps, w, t, d))
}

/// Whether the machine still searches, or takes what can be had.
#[derive(Clone, Copy, Debug, PartialEq, Eq, Structural)]
pub enum Phase {
    Search,
    Greedy,
}

/// Where a placement was made: the position of its instance in the roster, and
/// how many placements the instance had before.
#[derive(Clone, Copy, Debug, PartialEq, Eq, Structural)]
pub struct Mark {
    pub instance: usize,
    pub slot: usize,
}

/// The state of the machine.
pub struct State {
    pub placed: Seq<Placement>,
    pub marks: Seq<Mark>,
    /// The position in the roster of the instance that is being staffed.
    pub cursor: nat,
    /// How many placements that instance has.
    pub filled: nat,
    /// The worker that was last taken back from the slot at hand: only less preferred ones are tried.
    pub floor: Option<int>,
    /// How many backtracks are left.
    pub budget: nat,
    pub phase: Phase,
}

pub open spec fn required_at(snap: Snapshot, insts: Seq<Instance>, k: int) -> int {
    snap.templates[insts[k].template as int].required as int
}

pub open spec fn covered(ps: Seq<Placement>, insts: Seq<Instance>, k: int) -> nat {
    coverage(ps, insts[k].template as int, insts[k].day as int)
}

/// The state in which a run with `limit` backtracks starts.
pub open spec fn start(limit: nat) -> State {
    State {
        placed: Seq::empty(),
        marks: Seq::empty(),
        cursor: 0,
        filled: 0,
        floor: None,
        budget: limit,
        phase: Phase::Search,
    }
}

/// The state in which the fallback starts.
pub open spec fn fallback() -> State {
    State {
        placed: Seq::empty(),
        marks: Seq::empty(),
        cursor: 0,
        filled: 0,
        floor: None,
        budget: 0,
        phase: Phase::Greedy,
    }
}

/// The cursor moves to the next instance.
pub open spec fn move_on(s: State) -> State {
    State { cursor: s.cursor + 1, filled: 0, floor: None, ..s }
}

/// Worker `w` takes a slot of the instance at the cursor.
pub open spec fn place(insts: Seq<Instance>, s: State, w: int) -> State {
    let inst = insts[s.cursor as int];
    State {
        placed: s.placed.push(Placement { worker: w as usize, template: inst.template, day: inst.day }),
        marks: s.marks.push(Mark { instance: s.cursor as usize, slot: s.filled as usize }),
        filled: s.filled + 1,
        floor: None,
        ..s
    }
}

/// The last placement is taken back; its slot is tried again with the workers after it.
pub open spec fn take_back(s: State) -> State {
    State {
        placed: s.placed.drop_last(),
        marks: s.marks.drop_last(),
        cursor: s.marks.last().instance as nat,
        filled: s.marks.last().slot as nat,
        floor: Some(s.placed.last().worker as int),
        budget: (s.budget - 1) as nat,
        ..s
    }
}

/// One step of the machine, where `pick` is the most preferred worker that can
/// take a slot of the instance at the cursor.
pub open spec fn step_with(snap: Snapshot, insts: Seq<Instance>, s: State, pick: Option<int>) -> State {
    if s.filled >= required_at(snap, insts, s.cursor as int) {
        move_on(s)
    } else {
        match pick {
            Some(w) => place(insts, s, w),
            None => match s.phase {
                Phase::Greedy => move_on(s),
                Phase::Search => if s.budget == 0 || s.placed.len() == 0 {
                    fallback()
                } else {
                    take_back(s)
                },
            },
        }
    }
}

/// The most preferred worker that can take a slot of the instance at the cursor.
pub open spec fn pick_of(snap: Snapshot, insts: Seq<Instance>, s: State) -> Option<int> {
    let inst = insts[s.cursor as int];
    least_beyond_of(
        preference_keys(snap, s.placed),
        join_flags(snap, s.placed, inst.template as int, inst.day as int),
        s.floor,
    )
}

pub open spec fn step(snap: Snapshot, insts: Seq<Instance>, s: State) -> State {
    step_with(snap, insts, s, pick_of(snap, insts, s))
}

pub open spec fn phase_rank(phase: Phase) -> nat {
    match phase {
        Phase::Search => 1,
        Phase::Greedy => 0,
    }
}

/// The state in which the machine halts: the cursor has passed the roster.
pub open spec fn run(snap: Snapshot, insts: Seq<Instance>, s: State) -> State
    decreases phase_rank(s.phase), s.budget, insts.len() - s.cursor, required_at(
        snap,
        insts,
        s.cursor as int,
    ) - s.filled,
{
    if s.cursor >= insts.len() {
        s
    } else {
        run(snap, insts, step(snap, insts, s))
    }
}

/// The schedule that the solver makes of a snapshot with at most `limit` backtracks.
pub open spec fn plan_of(snap: Snapshot, limit: nat) -> Seq<Placement> {
    run(snap, instances(snap), start(limit)).placed
}

/// Placement `k` was made where its mark says.
pub open spec fn mark_ok(snap: Snapshot, insts: Seq<Instance>, s: State, k: int) -> bool {
    let m = s.marks[k];
    let p = s.placed[k];
    &&& m.instance <= s.cursor
    &&& m.instance < insts.len()
    &&& p.template == insts[m.instance as int].template
    &&& p.day == insts[m.instance as int].day
    &&& m.slot == covered(s.placed.take(k), insts, m.instance as int)
    &&& m.slot < required_at(snap, insts, m.instance as int)
}

/// Nobody can join instance `k`.
pub open spec fn closed(snap: Snapshot, insts: Seq<Instance>, ps: Seq<Placement>, k: int) -> bool {
    forall|w: int|
        0 <= w < snap.workers.len() ==> !#[trigger] joinable(
            snap,
            ps,
            w,
            insts[k].template as int,
            insts[k].day as int,
        )
}

/// Instance `k` is staffed as far as it can be; while searching, it is fully staffed.
pub open spec fn settled(snap: Snapshot, insts: Seq<Instance>, s: State, k: int) -> bool {
    &&& covered(s.placed, insts, k) <= required_at(snap, insts, k)
    &&& covered(s.placed, insts, k) < required_at(snap, insts, k) ==> s.phase is Greedy && closed(
        snap,
        insts,
        s.placed,
        k,
    )
}

/// What holds of every state that the machine reaches.
pub open spec fn inv(snap: Snapshot, insts: Seq<Instance>, s: State) -> bool {
    &&& s.cursor <= insts.len()
    &&& s.marks.len() == s.placed.len()
    &&& feasible(snap, s.placed)
    &&& (s.phase is Greedy ==> s.floor is None)
    &&& (s.floor matches Some(f) ==> 0 <= f < snap.workers.len())
    &&& forall|k: int| 0 <= k < s.placed.len() ==> #[trigger] mark_ok(snap, insts, s, k)
    &&& forall|a: int, b: int|
        0 <= a < b < s.marks.len() ==> (#[trigger] s.marks[a]).instance <= (#[trigger] s.marks[b]).instance
    &&& (s.cursor < insts.len() ==> s.filled == covered(s.placed, insts, s.cursor as int) && s.filled
        <= required_at(snap, insts, s.cursor as int))
    &&& forall|k: int| 0 <= k < s.cursor ==> #[trigger] settled(snap, insts, s, k)
}

proof fn lemma_no_coverage_ahead(snap: Snapshot, insts: Seq<Instance>, s: State, k: int)
    requires
        is_roster(snap, insts),
        inv(snap, insts, s),
        s.placed.len() > 0 ==> s.marks.last().instance < k,
        0 <= k < insts.len(),
    ensures
        covered(s.placed, insts, k) == 0,
{
    assert forall|i: int| 0 <= i < s.placed.len() implies !((#[trigger] s.placed[i]).template
        == insts[k].template as int && s.placed[i].day == insts[k].day as int) by {
        assert(mark_ok(snap, insts, s, i));
        let j = s.marks[i].instance as int;
        if i < s.marks.len() - 1 {
            assert(s.marks[i].instance <= s.marks[s.marks.len() - 1].instance);
        }
        lemma_roster_distinct(snap, insts, j, k);
    }
    lemma_coverage_none(s.placed, insts[k].template as int, insts[k].day as int);
}

proof fn lemma_move_on(snap: Snapshot, insts: Seq<Instance>, s: State)
    requires
        snap.wf(),
        is_roster(snap, insts),
        inv(snap, insts, s),
        s.cursor < insts.len(),
        s.filled >= required_at(snap, insts, s.cursor as int) || (s.phase is Greedy && closed(
            snap,
            insts,
            s.placed,
            s.cursor as int,
        )),
    ensures
        inv(snap, insts, move_on(s)),
{
    let n = move_on(s);
    assert forall|k: int| 0 <= k < n.placed.len() implies #[trigger] mark_ok(snap, insts, n, k) by {
        assert(mark_ok(snap, insts, s, k));
    }
    if n.cursor < insts.len() {
        if s.placed.len() > 0 {
            assert(mark_ok(snap, insts, s, s.placed.len() - 1));
        }
        lemma_no_coverage_ahead(snap, insts, s, n.cursor as int);
    }
    assert forall|k: int| 0 <= k < n.cursor implies #[trigger] settled(snap, insts, n, k) by {
        if k < s.cursor {
            assert(settled(snap, insts, s, k));
        }
    }
}

proof fn lemma_place(snap: Snapshot, insts: Seq<Instance>, s: State, w: int)
    requires
        snap.wf(),
        is_roster(snap, insts),
        inv(snap, insts, s),
        s.cursor < insts.len(),
        s.cursor <= usize::MAX,
        s.filled < required_at(snap, insts, s.cursor as int),
        0 <= w < snap.workers.len(),
        joinable(
            snap,
            s.placed,
            w,
            insts[s.cursor as int].template as int,
            insts[s.cursor as int].day as int,
        ),
    ensures
        inv(snap, insts, place(insts, s, w)),
{
    let n = place(insts, s, w);
    let inst = insts[s.cursor as int];
    let p = Placement { worker: w as usize, template: inst.template, day: inst.day };
    let c = s.cursor as int;
    lemma_feasible_push(snap, s.placed, p);
    assert forall|k: int| 0 <= k < n.placed.len() implies #[trigger] mark_ok(snap, insts, n, k) by {
        if k < s.placed.len() {
            assert(mark_ok(snap, insts, s, k));
            assert(n.placed.take(k) =~= s.placed.take(k));
        } else {
            assert(n.placed.take(k) =~= s.placed);
        }
    }
    assert forall|a: int, b: int| 0 <= a < b < n.marks.len() implies (#[trigger] n.marks[a]).instance <= (
    #[trigger] n.marks[b]).instance by {
        assert(mark_ok(snap, insts, s, a));
        if b < s.marks.len() {
            assert(s.marks[a].instance <= s.marks[b].instance);
        }
    }
    lemma_coverage_push(s.placed, p, inst.template as int, inst.day as int);
    assert forall|k: int| 0 <= k < n.cursor implies #[trigger] settled(snap, insts, n, k) by {
        assert(settled(snap, insts, s, k));
        lemma_roster_distinct(snap, insts, k, c);
        lemma_coverage_push(s.placed, p, insts[k].template as int, insts[k].day as int);
        if covered(n.placed, insts, k) < required_at(snap, insts, k) {
            assert forall|v: int| 0 <= v < snap.workers.len() implies !#[trigger] joinable(
                snap,
                n.placed,
                v,
                insts[k].template as int,
                insts[k].day as int,
            ) by {
                let q = Placement {
                    worker: v as usize,
                    template: insts[k].template as int as usize,
                    day: insts[k].day as int as i64,
                };
                assert(!joinable(snap, s.placed, v, insts[k].template as int, insts[k].day as int));
                if can_join(snap, n.placed, q) {
                    lemma_join_monotone(snap, s.placed, p, q);
                }
            }
        }
    }
}

proof fn lemma_take_back(snap: Snapshot, insts: Seq<Instance>, s: State)
    requires
        snap.wf(),
        is_roster(snap, insts),
        inv(snap, insts, s),
        s.cursor < insts.len(),
        s.phase is Search,
        s.budget > 0,
        s.placed.len() > 0,
    ensures
        inv(snap, insts, take_back(s)),
{
    let n = take_back(s);
    let last = s.placed.len() - 1;
    let p = s.placed[last];
    let m = s.marks[last];
    let c = m.instance as int;
    assert(mark_ok(snap, insts, s, last));
    lemma_feasible_pop(snap, s.placed);
    assert(s.placed.take(last) =~= n.placed);
    assert(s.placed =~= n.placed.push(p));
    assert forall|k: int| 0 <= k < n.placed.len() implies #[trigger] mark_ok(snap, insts, n, k) by {
        assert(mark_ok(snap, insts, s, k));
        assert(s.marks[k].instance <= s.marks[last].instance);
        assert(n.placed.take(k) =~= s.placed.take(k));
    }
    assert forall|a: int, b: int| 0 <= a < b < n.marks.len() implies (#[trigger] n.marks[a]).instance <= (
    #[trigger] n.marks[b]).instance by {
        assert(s.marks[a].instance <= s.marks[b].instance);
    }
    assert forall|k: int| 0 <= k < n.cursor implies #[trigger] settled(snap, insts, n, k) by {
        assert(settled(snap, insts, s, k));
        lemma_roster_distinct(snap, insts, k, c);
        lemma_coverage_push(n.placed, p, insts[k].template as int, insts[k].day as int);
    }
}

/// A state in which the machine has halted holds a feasible schedule that
/// staffs no instance beyond its need and leaves no instance short that a
/// worker could join.
pub proof fn lemma_halted(snap: Snapshot, insts: Seq<Instance>, s: State)
    requires
        snap.wf(),
        is_roster(snap, insts),
        inv(snap, insts, s),
        s.cursor >= insts.len(),
    ensures
        feasible(snap, s.placed),
        within_staffing(snap, s.placed),
        saturated(snap, s.placed),
        s.phase is Search ==> fully_staffed(snap, s.placed),
{
    assert forall|t: int, d: int| is_instance(snap, t, d) implies #[trigger] coverage(s.placed, t, d)
        <= snap.templates[t].required && (s.phase is Search ==> coverage(s.placed, t, d)
        == snap.templates[t].required) by {
        let k = choose|k: int|
            0 <= k < insts.len() && (#[trigger] insts[k]).template == t && insts[k].day == d;
        assert(settled(snap, insts, s, k));
    }
    assert forall|w: int, t: int, d: int|
        is_instance(snap, t, d) && coverage(s.placed, t, d) < snap.templates[t].required && 0 <= w
            < snap.workers.len() implies !#[trigger] joinable(snap, s.placed, w, t, d) by {
        let k = choose|k: int|
            0 <= k < insts.len() && (#[trigger] insts[k]).template == t && insts[k].day == d;
        assert(settled(snap, insts, s, k));
    }
}

/// One step of the machine keeps what holds of every state.
proof fn lemma_step(snap: Snapshot, insts: Seq<Instance>, s: State)
    requires
        snap.wf(),
        is_roster(snap, insts),
        insts.len() <= usize::MAX,
        inv(snap, insts, s),
        s.cursor < insts.len(),
    ensures
        inv(snap, insts, step(snap, insts, s)),
{
    let inst = insts[s.cursor as int];
    let keys = preference_keys(snap, s.placed);
    let flags = join_flags(snap, s.placed, inst.template as int, inst.day as int);
    if s.filled >= required_at(snap, insts, s.cursor as int) {
        lemma_move_on(snap, insts, s);
    } else {
        lemma_least_beyond_exists(keys, flags, s.floor);
        match pick_of(snap, insts, s) {
            Some(w) => {
                assert(eligible_at(keys, flags, s.floor, w));
                lemma_place(snap, insts, s, w);
            },
            None => {
                match s.phase {
                    Phase::Greedy => {
                        assert forall|w: int| 0 <= w < snap.workers.len() implies !#[trigger] joinable(
                            snap,
                            s.placed,
                            w,
                            inst.template as int,
                            inst.day as int,
                        ) by {
                            assert(!eligible_at(keys, flags, s.floor, w));
                        }
                        lemma_move_on(snap, insts, s);
                    },
                    Phase::Search => {
                        if s.budget == 0 || s.placed.len() == 0 {
                            assert(covered(fallback().placed, insts, 0) == 0);
                        } else {
                            lemma_take_back(snap, insts, s);
                        }
                    },
                }
            },
        }
    }
}

/// The machine halts in a state in which what holds of every state holds.
proof fn lemma_run(snap: Snapshot, insts: Seq<Instance>, s: State)
    requires
        snap.wf(),
        is_roster(snap, insts),
        insts.len() <= usize::MAX,
        inv(snap, insts, s),
    ensures
        inv(snap, insts, run(snap, insts, s)),
        run(snap, insts, s).cursor >= insts.len(),
    decreases phase_rank(s.phase), s.budget, insts.len() - s.cursor, required_at(
        snap,
        insts,
        s.cursor as int,
    ) - s.filled,
{
    if s.cursor < insts.len() {
        lemma_step(snap, insts, s);
        lemma_run(snap, insts, step(snap, insts, s));
    }
}

/// The schedule that the solver makes of a snapshot is feasible, staffs no
/// shift instance beyond its need, and leaves none short that a worker could join.
pub proof fn lemma_plan_is_sound(snap: Snapshot, limit: nat)
    requires
        snap.wf(),
        instances(snap).len() <= usize::MAX,
    ensures
        feasible(snap, plan_of(snap, limit)),
        within_staffing(snap, plan_of(snap, limit)),
        saturated(snap, plan_of(snap, limit)),
{
    let insts = instances(snap);
    lemma_instances_are_roster(snap);
    let s = start(limit);
    if insts.len() > 0 {
        assert(covered(s.placed, insts, 0) == 0);
    }
    lemma_run(snap, insts, s);
    lemma_halted(snap, insts, run(snap, insts, s));
}

/// A feasible list names templates of the snapshot and days that have a date.
pub proof fn lemma_feasible_in_bounds(snap: Snapshot, ps: Seq<Placement>)
    requires
        snap.wf(),
        feasible(snap, ps),
    ensures
        in_bounds(snap, ps),
{
    assert forall|i: int| 0 <= i < ps.len() implies (#[trigger] ps[i]).template < snap.templates.len()
        && 0 <= ps[i].day <= crate::calendar::LAST_DAY by {
        assert(crate::rules::allowed(snap, ps[i]));
    }
}

/// The preference key of every worker, and whether the worker can join the instance.
fn candidate_table(p: &Problem, placed: &Vec<Placement>, inst: Instance) -> (r: (
    Vec<Preference>,
    Vec<bool>,
))
    requires
        p@.wf(),
        in_bounds(p@, placed@),
    ensures
        r.0@ == preference_keys(p@, placed@),
        r.1@ == join_flags(p@, placed@, inst.template as int, inst.day as int),
{
    let mut keys: Vec<Preference> = Vec::new();
    let mut flags: Vec<bool> = Vec::new();
    let mut w: usize = 0;
    while w < p.workers.len()
        invariant
            0 <= w <= p.workers.len(),
            p@.wf(),
            in_bounds(p@, placed@),
            keys.len() == w,
            flags.len() == w,
            forall|k: int| 0 <= k < w ==> #[trigger] keys@[k] == preference_keys(p@, placed@)[k],
            forall|k: int|
                0 <= k < w ==> #[trigger] flags@[k] == join_flags(
                    p@,
                    placed@,
                    inst.template as int,
                    inst.day as int,
                )[k],
        decreases p.workers.len() - w,
    {
        keys.push(Preference { load: count_load(placed, w), id: p.workers[w].id });
        flags.push(may_join(p, placed, Placement { worker: w, template: inst.template, day: inst.day }));
        w += 1;
    }
    assert(keys@ =~= preference_keys(p@, placed@));
    assert(flags@ =~= join_flags(p@, placed@, inst.template as int, inst.day as int));
    (keys, flags)
}

pub open spec fn state_view(
    placed: Seq<Placement>,
    marks: Seq<Mark>,
    cursor: usize,
    filled: usize,
    floor: Option<usize>,
    budget: u64,
    phase: Phase,
) -> State {
    State {
        placed,
        marks,
        cursor: cursor as nat,
        filled: filled as nat,
        floor: index_view(floor),
        budget: budget as nat,
        phase,
    }
}

/// Makes a schedule for the snapshot, with at most `max_backtracks` backtracks.
///
/// The search staffs the instances in roster order and gives each slot to the
/// most preferred worker that can take it; at a slot that nobody can take it
/// takes back the last placement and tries the next worker there. Where it
/// runs out of backtracks, or of placements to take back, the schedule is made
/// anew without backtracking: every instance gets the workers that can be had.
pub fn plan(p: &Problem, max_backtracks: u64) -> (r: Vec<Placement>)
    requires
        p@.wf(),
    ensures
        r@ == plan_of(p@, max_backtracks as nat),
        feasible(p@, r@),
        within_staffing(p@, r@),
        saturated(p@, r@),
        instances(p@).len() <= usize::MAX,
{
    let insts = expand(p);
    let mut placed: Vec<Placement> = Vec::new();
    let mut marks: Vec<Mark> = Vec::new();
    let mut cursor: usize = 0;
    let mut filled: usize = 0;
    let mut floor: Option<usize> = None;
    let mut budget: u64 = max_backtracks;
    let mut phase = Phase::Search;
    proof {
        assert(state_view(placed@, marks@, cursor, filled, floor, budget, phase) == start(
            max_backtracks as nat,
        ));
        if insts.len() > 0 {
            assert(covered(placed@, insts@, 0) == 0);
        }
    }
    while cursor < insts.len()
        invariant
            p@.wf(),
            insts@ == instances(p@),
            is_roster(p@, insts@),
            inv(p@, insts@, state_view(placed@, marks@, cursor, filled, floor, budget, phase)),
            run(p@, insts@, state_view(placed@, marks@, cursor, filled, floor, budget, phase)) == run(
                p@,
                insts@,
                start(max_backtracks as nat),
            ),
        decreases
                phase_rank(phase),
                budget,
                insts.len() - cursor,
                required_at(p@, insts@, cursor as int) - filled,
    {
        let ghost s = state_view(placed@, marks@, cursor, filled, floor, budget, phase);
        proof {
            assert(run(p@, insts@, s) == run(p@, insts@, step(p@, insts@, s)));
            lemma_feasible_in_bounds(p@, placed@);
        }
        let inst = insts[cursor];
        assert(is_instance(p@, insts@[cursor as int].template as int, insts@[cursor as int].day as int));
        let required = p.templates[inst.template].required;
        if filled >= required {
            proof {
                lemma_move_on(p@, insts@, s);
            }
            cursor += 1;
            filled = 0;
            floor = None;
        } else {
            let (keys, flags) = candidate_table(p, &placed, inst);
            let pick = least_beyond(&keys, &flags, floor);
            assert(index_view(pick) == pick_of(p@, insts@, s));
            match pick {
                Some(w) => {
                    proof {
                        assert(eligible_at(keys@, flags@, index_view(floor), w as int));
                        lemma_place(p@, insts@, s, w as int);
                    }
                    placed.push(Placement { worker: w, template: inst.template, day: inst.day });
                    marks.push(Mark { instance: cursor, slot: filled });
                    filled += 1;
                    floor = None;
                },
                None => {
                    match phase {
                        Phase::Greedy => {
                            proof {
                                assert forall|w: int| 0 <= w < p@.workers.len() implies !#[trigger] joinable(
                                    p@,
                                    placed@,
                                    w,
                                    inst.template as int,
                                    inst.day as int,
                                ) by {
                                    assert(!eligible_at(keys@, flags@, index_view(floor), w));
                                }
                                lemma_move_on(p@, insts@, s);
                            }
                            cursor += 1;
                            filled = 0;
                            floor = None;
                        },
                        Phase::Search => {
                            if budget == 0 || placed.len() == 0 {
                                placed = Vec::new();
                                marks = Vec::new();
                                cursor = 0;
                                filled = 0;
                                floor = None;
                                budget = 0;
                                phase = Phase::Greedy;
                                proof {
                                    assert(state_view(placed@, marks@, cursor, filled, floor, budget, phase)
                                        == fallback());
                                    assert(covered(placed@, insts@, 0) == 0);
                                }
                            } else {
                                proof {
                                    lemma_take_back(p@, insts@, s);
                                }
                                let last = placed.pop().unwrap();
                                let mark = marks.pop().unwrap();
                                cursor = mark.instance;
                                filled = mark.slot;
                                floor = Some(last.worker);
                                budget -= 1;
                            }
                        },
                    }
                },
            }
        }
        assert(state_view(placed@, marks@, cursor, filled, floor, budget, phase) == step(p@, insts@, s));
    }
    proof {
        let s = state_view(placed@, marks@, cursor, filled, floor, budget, phase);
        lemma_halted(p@, insts@, s);
    }
    placed
}

} // verus!
