//! The constraint evaluator: reports every rule that a candidate schedule
//! breaks, in a fixed order.
//!
//! A candidate schedule is a list of entries with identifiers of employees and
//! shift definitions that may or may not exist. Each entry is first resolved
//! into a claim: the identifiers, the day number, and the positions in the
//! snapshot of the worker and the template that the identifiers name, if any.

use vstd::prelude::*;
use crate::calendar::{lemma_parse_day_bounds, parse_day, read_day, LAST_DAY};
use crate::commands::SolverInput;
use crate::models::{Defect, ScheduleEntry};
use crate::problem::{acceptable, compile, is_first_error, snapshot_of, Problem, Record, Snapshot, ValidationError};
use crate::ranking::{ahead, is_ranking, listed, rank_all, Key3, Ranked};
use crate::roster::{expand, instances, is_roster, Instance};
use crate::rules::{
    absent,
    ends_at,
    is_absent,
    is_instance,
    makes_instance,
    shift_end,
    shift_start,
    starts_at,
    MIN_REST,
};

verus! {

/// The rules, in the order in which their violations are reported.
#[derive(Clone, Copy, Debug, PartialEq, Eq, Structural)]
pub enum ConstraintKind {
    /// Every shift instance has the staff that it requires, and no more.
    Staffing,
    /// Nobody works during an absence.
    Absence,
    /// Nobody works two shifts on one day.
    OneShiftPerDay,
    /// Between two shifts of one employee lie at least 11 hours.
    MinimumRest,
    /// Only active employees work.
    ActiveStatus,
}

/// Whether a violation makes a schedule invalid, or is tolerated with a warning.
#[derive(Clone, Copy, Debug, PartialEq, Eq, Structural)]
pub enum Severity {
    Hard,
    Soft,
}

/// One broken rule: which rule, how severe, and where.
#[derive(Clone, Copy, Debug, PartialEq, Eq, Structural)]
pub struct Violation {
    pub kind: ConstraintKind,
    pub severity: Severity,
    /// The employee of the entry that breaks the rule; none for a staffing violation.
    pub employee_id: Option<i64>,
    /// The day number of the date.
    pub day: i64,
    pub shift_id: i64,
}

impl ConstraintKind {
    pub open spec fn rank(self) -> int {
        match self {
            ConstraintKind::Staffing => 0,
            ConstraintKind::Absence => 1,
            ConstraintKind::OneShiftPerDay => 2,
            ConstraintKind::MinimumRest => 3,
            ConstraintKind::ActiveStatus => 4,
        }
    }

    pub fn rank_of(&self) -> (r: i64)
        ensures
            r as int == self.rank(),
    {
        match self {
            ConstraintKind::Staffing => 0,
            ConstraintKind::Absence => 1,
            ConstraintKind::OneShiftPerDay => 2,
            ConstraintKind::MinimumRest => 3,
            ConstraintKind::ActiveStatus => 4,
        }
    }
}

impl Violation {
    /// The first half of the sorting key: the rule, then the employee, none first.
    pub open spec fn major(self) -> Key3 {
        Key3 {
            a: self.kind.rank() as i64,
            b: if self.employee_id is Some {
                1
            } else {
                0
            },
            c: match self.employee_id {
                Some(id) => id,
                None => 0,
            },
        }
    }

    /// The second half of the sorting key: the date, the shift, hard before soft.
    pub open spec fn minor(self) -> Key3 {
        Key3 {
            a: self.day,
            b: self.shift_id,
            c: match self.severity {
                Severity::Hard => 0,
                Severity::Soft => 1,
            },
        }
    }

    fn major_key(&self) -> (r: Key3)
        ensures
            r == self.major(),
    {
        Key3 {
            a: self.kind.rank_of(),
            b: if self.employee_id.is_some() {
                1
            } else {
                0
            },
            c: match self.employee_id {
                Some(id) => id,
                None => 0,
            },
        }
    }

    fn minor_key(&self) -> (r: Key3)
        ensures
            r == self.minor(),
    {
        Key3 {
            a: self.day,
            b: self.shift_id,
            c: match self.severity {
                Severity::Hard => 0,
                Severity::Soft => 1,
            },
        }
    }
}

impl Ranked for Violation {
    /// By rule, then employee, then date, then shift.
    open spec fn precedes(&self, other: &Self) -> bool {
        self.major().precedes(&other.major()) || (self.major() == other.major() && self.minor().precedes(
            &other.minor(),
        ))
    }

    fn comes_before(&self, other: &Self) -> (r: bool) {
        let a = self.major_key();
        let b = other.major_key();
        if a.comes_before(&b) {
            true
        } else if b.comes_before(&a) {
            false
        } else {
            self.minor_key().comes_before(&other.minor_key())
        }
    }

    proof fn lemma_strict_weak_order(a: &Self, b: &Self, c: &Self) {
    }
}

/// Two different violations are ordered one way or the other.
pub proof fn lemma_violations_total(a: Violation, b: Violation)
    ensures
        a != b ==> a.precedes(&b) || b.precedes(&a),
{
}

/// The violations are in ascending order, and none occurs twice.
pub open spec fn strictly_sorted(vs: Seq<Violation>) -> bool {
    forall|i: int, j: int| #![trigger vs[i], vs[j]] 0 <= i < j < vs.len() ==> vs[i].precedes(&vs[j])
}

/// An entry of a candidate schedule, resolved against the snapshot.
#[derive(Clone, Copy, Debug, PartialEq, Eq, Structural)]
pub struct Claim {
    pub employee_id: i64,
    pub shift_id: i64,
    pub day: i64,
    /// The position of the worker with that identifier, if there is one.
    pub worker: Option<usize>,
    /// The position of the template with that identifier, if there is one.
    pub template: Option<usize>,
}

/// The position of the worker with identifier `id`.
pub open spec fn worker_named(snap: Snapshot, id: i64) -> Option<usize> {
    if exists|w: int| 0 <= w < snap.workers.len() && (#[trigger] snap.workers[w]).id == id {
        Some((choose|w: int| 0 <= w < snap.workers.len() && (#[trigger] snap.workers[w]).id == id) as usize)
    } else {
        None
    }
}

/// The position of the template with identifier `id`.
pub open spec fn template_named(snap: Snapshot, id: i64) -> Option<usize> {
    if exists|t: int| 0 <= t < snap.templates.len() && (#[trigger] snap.templates[t]).id == id {
        Some(
            (choose|t: int| 0 <= t < snap.templates.len() && (#[trigger] snap.templates[t]).id == id) as usize,
        )
    } else {
        None
    }
}

/// The claim that an entry makes.
pub open spec fn claim_of(snap: Snapshot, e: ScheduleEntry) -> Claim {
    Claim {
        employee_id: e.employee_id,
        shift_id: e.shift_id,
        day: parse_day(e.date@)->0 as i64,
        worker: worker_named(snap, e.employee_id),
        template: template_named(snap, e.shift_id),
    }
}

/// The claims that the entries make.
pub open spec fn claims_of(snap: Snapshot, entries: Seq<ScheduleEntry>) -> Seq<Claim> {
    Seq::new(entries.len(), |i: int| claim_of(snap, entries[i]))
}

/// The claims name positions of the snapshot and days that have a date.
pub open spec fn claims_wf(snap: Snapshot, cs: Seq<Claim>) -> bool {
    forall|i: int|
        0 <= i < cs.len() ==> {
            let c = #[trigger] cs[i];
            &&& 0 <= c.day <= LAST_DAY
            &&& c.worker == worker_named(snap, c.employee_id)
            &&& c.template == template_named(snap, c.shift_id)
            &&& (c.worker matches Some(w) ==> w < snap.workers.len() && snap.workers[w as int].id
                == c.employee_id)
            &&& (c.template matches Some(t) ==> t < snap.templates.len() && snap.templates[t as int].id
                == c.shift_id)
        }
}

/// How many claims name the shift on the day.
pub open spec fn headcount(cs: Seq<Claim>, shift_id: i64, day: int) -> nat
    decreases cs.len(),
{
    if cs.len() == 0 {
        0
    } else {
        headcount(cs.drop_last(), shift_id, day) + if cs.last().shift_id == shift_id && cs.last().day
            == day {
            1nat
        } else {
            0nat
        }
    }
}

/// How many people the shift instance that a claim names requires: none where
/// there is no such instance in the range.
pub open spec fn need(snap: Snapshot, c: Claim) -> nat {
    match c.template {
        Some(t) => if is_instance(snap, t as int, c.day as int) {
            snap.templates[t as int].required as nat
        } else {
            0
        },
        None => 0,
    }
}

/// The employee of claim `i` is absent on its day.
pub open spec fn breaks_absence(snap: Snapshot, cs: Seq<Claim>, i: int) -> bool {
    cs[i].worker matches Some(w) && absent(snap, w as int, cs[i].day as int)
}

/// The employee of claim `i` has another claim on its day.
pub open spec fn breaks_daily(cs: Seq<Claim>, i: int) -> bool {
    exists|j: int|
        0 <= j < cs.len() && j != i && (#[trigger] cs[j]).employee_id == cs[i].employee_id && cs[j].day
            == cs[i].day
}

/// The shift of `later` starts no earlier than that of `earlier`, and less
/// than 11 hours after its end; both are shifts of one employee.
pub open spec fn too_close(snap: Snapshot, earlier: Claim, later: Claim) -> bool {
    &&& earlier.employee_id == later.employee_id
    &&& earlier.template matches Some(a)
    &&& later.template matches Some(b)
    &&& shift_start(snap, a as int, earlier.day as int) <= shift_start(snap, b as int, later.day as int)
    &&& shift_start(snap, b as int, later.day as int) - shift_end(snap, a as int, earlier.day as int)
        < MIN_REST
}

/// Claim `i` follows another claim of its employee too closely.
pub open spec fn breaks_rest(snap: Snapshot, cs: Seq<Claim>, i: int) -> bool {
    exists|j: int| 0 <= j < cs.len() && j != i && too_close(snap, #[trigger] cs[j], cs[i])
}

/// The employee of claim `i` is unknown or not active.
pub open spec fn breaks_status(snap: Snapshot, cs: Seq<Claim>, i: int) -> bool {
    match cs[i].worker {
        Some(w) => !snap.workers[w as int].active,
        None => true,
    }
}

/// The shift instance that claim `i` names has more claims than it requires;
/// where there is no such instance, it requires none.
pub open spec fn overstaffs(snap: Snapshot, cs: Seq<Claim>, i: int) -> bool {
    headcount(cs, cs[i].shift_id, cs[i].day as int) > need(snap, cs[i])
}

/// Instance `k` of the roster has fewer claims than it requires.
pub open spec fn understaffed(snap: Snapshot, insts: Seq<Instance>, cs: Seq<Claim>, k: int) -> bool {
    headcount(cs, snap.templates[insts[k].template as int].id, insts[k].day as int)
        < snap.templates[insts[k].template as int].required
}

pub open spec fn entry_violation(c: Claim, kind: ConstraintKind) -> Violation {
    Violation {
        kind,
        severity: Severity::Hard,
        employee_id: Some(c.employee_id),
        day: c.day,
        shift_id: c.shift_id,
    }
}

pub open spec fn staffing_violation(severity: Severity, shift_id: i64, day: i64) -> Violation {
    Violation { kind: ConstraintKind::Staffing, severity, employee_id: None, day, shift_id }
}

/// Claim `i` gives rise to violation `v`.
pub open spec fn claim_raises(snap: Snapshot, cs: Seq<Claim>, i: int, v: Violation) -> bool {
    ||| overstaffs(snap, cs, i) && v == staffing_violation(Severity::Hard, cs[i].shift_id, cs[i].day)
    ||| breaks_absence(snap, cs, i) && v == entry_violation(cs[i], ConstraintKind::Absence)
    ||| breaks_daily(cs, i) && v == entry_violation(cs[i], ConstraintKind::OneShiftPerDay)
    ||| breaks_rest(snap, cs, i) && v == entry_violation(cs[i], ConstraintKind::MinimumRest)
    ||| breaks_status(snap, cs, i) && v == entry_violation(cs[i], ConstraintKind::ActiveStatus)
}

/// Instance `k` of the roster gives rise to violation `v`.
pub open spec fn instance_raises(
    snap: Snapshot,
    insts: Seq<Instance>,
    cs: Seq<Claim>,
    k: int,
    v: Violation,
) -> bool {
    understaffed(snap, insts, cs, k) && v == staffing_violation(
        Severity::Soft,
        snap.templates[insts[k].template as int].id,
        insts[k].day,
    )
}

pub open spec fn raised_by_claims(snap: Snapshot, cs: Seq<Claim>, upto: int, v: Violation) -> bool {
    exists|i: int| 0 <= i < upto && #[trigger] claim_raises(snap, cs, i, v)
}

pub open spec fn raised_by_instances(
    snap: Snapshot,
    insts: Seq<Instance>,
    cs: Seq<Claim>,
    upto: int,
    v: Violation,
) -> bool {
    exists|k: int| 0 <= k < upto && #[trigger] instance_raises(snap, insts, cs, k, v)
}

/// The claims break a rule as `v` says.
pub open spec fn violates(snap: Snapshot, cs: Seq<Claim>, v: Violation) -> bool {
    raised_by_claims(snap, cs, cs.len() as int, v) || raised_by_instances(
        snap,
        instances(snap),
        cs,
        instances(snap).len() as int,
        v,
    )
}

/// `vs` lists exactly the violations of the claims, each once, in order.
pub open spec fn is_evaluation(snap: Snapshot, cs: Seq<Claim>, vs: Seq<Violation>) -> bool {
    &&& strictly_sorted(vs)
    &&& forall|v: Violation| #[trigger] vs.contains(v) <==> violates(snap, cs, v)
}

/// Every violation is on a day that has a date.
pub open spec fn days_in_range(vs: Seq<Violation>) -> bool {
    forall|i: int| 0 <= i < vs.len() ==> 0 <= (#[trigger] vs[i]).day <= LAST_DAY
}

/// No hard rule is broken.
pub open spec fn no_hard(vs: Seq<Violation>) -> bool {
    forall|i: int| 0 <= i < vs.len() ==> (#[trigger] vs[i]).severity is Soft
}

fn find_worker(p: &Problem, id: i64) -> (r: Option<usize>)
    requires
        p@.wf(),
    ensures
        r == worker_named(p@, id),
        r matches Some(w) ==> w < p.workers.len() && p@.workers[w as int].id == id,
{
    let mut w: usize = 0;
    while w < p.workers.len()
        invariant
            0 <= w <= p.workers.len(),
            p@.wf(),
            forall|k: int| 0 <= k < w ==> (#[trigger] p@.workers[k]).id != id,
        decreases p.workers.len() - w,
    {
        if p.workers[w].id == id {
            proof {
                let c = choose|k: int| 0 <= k < p@.workers.len() && (#[trigger] p@.workers[k]).id == id;
                assert(p@.workers[w as int].id == id);
                if c < w {
                    assert(p@.workers[c].id != p@.workers[w as int].id);
                } else if w < c {
                    assert(p@.workers[w as int].id != p@.workers[c].id);
                }
            }
            return Some(w);
        }
        w += 1;
    }
    None
}

fn find_template(p: &Problem, id: i64) -> (r: Option<usize>)
    requires
        p@.wf(),
    ensures
        r == template_named(p@, id),
        r matches Some(t) ==> t < p.templates.len() && p@.templates[t as int].id == id,
{
    let mut t: usize = 0;
    while t < p.templates.len()
        invariant
            0 <= t <= p.templates.len(),
            p@.wf(),
            forall|k: int| 0 <= k < t ==> (#[trigger] p@.templates[k]).id != id,
        decreases p.templates.len() - t,
    {
        if p.templates[t].id == id {
            proof {
                let c = choose|k: int|
                    0 <= k < p@.templates.len() && (#[trigger] p@.templates[k]).id == id;
                assert(p@.templates[t as int].id == id);
                if c < t {
                    assert(p@.templates[c].id != p@.templates[t as int].id);
                } else if t < c {
                    assert(p@.templates[t as int].id != p@.templates[c].id);
                }
            }
            return Some(t);
        }
        t += 1;
    }
    None
}

/// Resolves the entries into claims, or names the first entry whose date is malformed.
pub fn resolve(p: &Problem, entries: &Vec<ScheduleEntry>) -> (r: Result<Vec<Claim>, ValidationError>)
    requires
        p@.wf(),
    ensures
        match r {
            Ok(cs) => cs@ == claims_of(p@, entries@) && claims_wf(p@, cs@) && forall|i: int|
                0 <= i < entries.len() ==> (#[trigger] entries@[i]).defect() is None,
            Err(e) => is_first_bad_entry(entries@, e),
        },
{
    let mut cs: Vec<Claim> = Vec::new();
    let mut i: usize = 0;
    while i < entries.len()
        invariant
            0 <= i <= entries.len(),
            p@.wf(),
            cs.len() == i,
            claims_wf(p@, cs@),
            forall|k: int| 0 <= k < i ==> (#[trigger] entries@[k]).defect() is None,
            forall|k: int| 0 <= k < i ==> #[trigger] cs@[k] == claim_of(p@, entries@[k]),
        decreases entries.len() - i,
    {
        let e = &entries[i];
        match read_day(e.date.as_str()) {
            None => {
                return Err(
                    ValidationError { record: Record::Entry, index: i, defect: Defect::MalformedDate },
                );
            },
            Some(day) => {
                let c = Claim {
                    employee_id: e.employee_id,
                    shift_id: e.shift_id,
                    day,
                    worker: find_worker(p, e.employee_id),
                    template: find_template(p, e.shift_id),
                };
                cs.push(c);
            },
        }
        i += 1;
    }
    assert(cs@ =~= claims_of(p@, entries@));
    Ok(cs)
}

/// The claims of entries with well-formed dates are well formed.
pub proof fn lemma_claims_wf(snap: Snapshot, entries: Seq<ScheduleEntry>)
    requires
        snap.wf(),
        forall|i: int| 0 <= i < entries.len() ==> (#[trigger] entries[i]).defect() is None,
    ensures
        claims_wf(snap, claims_of(snap, entries)),
{
    let cs = claims_of(snap, entries);
    assert forall|i: int| 0 <= i < cs.len() implies {
        let c = #[trigger] cs[i];
        &&& 0 <= c.day <= LAST_DAY
        &&& c.worker == worker_named(snap, c.employee_id)
        &&& c.template == template_named(snap, c.shift_id)
        &&& (c.worker matches Some(w) ==> w < snap.workers.len() && snap.workers[w as int].id
            == c.employee_id)
        &&& (c.template matches Some(t) ==> t < snap.templates.len() && snap.templates[t as int].id
            == c.shift_id)
    } by {
        assert(entries[i].defect() is None);
        lemma_parse_day_bounds(entries[i].date@);
        let c = cs[i];
        if c.worker is Some {
            let w = choose|w: int|
                0 <= w < snap.workers.len() && (#[trigger] snap.workers[w]).id == c.employee_id;
            assert(c.worker->0 == w);
        }
        if c.template is Some {
            let t = choose|t: int|
                0 <= t < snap.templates.len() && (#[trigger] snap.templates[t]).id == c.shift_id;
            assert(c.template->0 == t);
        }
    }
}

/// `e` names the first entry whose date is malformed.
pub open spec fn is_first_bad_entry(entries: Seq<ScheduleEntry>, e: ValidationError) -> bool {
    &&& e.record == Record::Entry
    &&& e.index < entries.len()
    &&& entries[e.index as int].defect() == Some(e.defect)
    &&& forall|i: int| 0 <= i < e.index ==> (#[trigger] entries[i]).defect() is None
}

pub proof fn lemma_headcount_push(cs: Seq<Claim>, c: Claim, shift_id: i64, day: int)
    ensures
        headcount(cs.push(c), shift_id, day) == headcount(cs, shift_id, day) + if c.shift_id == shift_id
            && c.day == day {
            1nat
        } else {
            0nat
        },
{
    assert(cs.push(c).drop_last() =~= cs);
}

fn count_heads(cs: &Vec<Claim>, shift_id: i64, day: i64) -> (r: usize)
    ensures
        r as nat == headcount(cs@, shift_id, day as int),
{
    let mut n: usize = 0;
    let mut i: usize = 0;
    while i < cs.len()
        invariant
            0 <= i <= cs.len(),
            n <= i,
            n as nat == headcount(cs@.take(i as int), shift_id, day as int),
        decreases cs.len() - i,
    {
        proof {
            assert(cs@.take(i + 1) =~= cs@.take(i as int).push(cs@[i as int]));
            lemma_headcount_push(cs@.take(i as int), cs@[i as int], shift_id, day as int);
        }
        if cs[i].shift_id == shift_id && cs[i].day == day {
            n += 1;
        }
        i += 1;
    }
    assert(cs@.take(cs.len() as int) =~= cs@);
    n
}

fn is_too_close(p: &Problem, earlier: Claim, later: Claim) -> (r: bool)
    requires
        p@.wf(),
        0 <= earlier.day <= LAST_DAY,
        0 <= later.day <= LAST_DAY,
        earlier.template matches Some(a) ==> a < p.templates.len(),
        later.template matches Some(b) ==> b < p.templates.len(),
    ensures
        r == too_close(p@, earlier, later),
{
    if earlier.employee_id != later.employee_id {
        return false;
    }
    match (earlier.template, later.template) {
        (Some(a), Some(b)) => {
            let first = starts_at(p, a, earlier.day);
            let second = starts_at(p, b, later.day);
            first <= second && second - ends_at(p, a, earlier.day) < MIN_REST
        },
        _ => false,
    }
}

fn has_daily_clash(cs: &Vec<Claim>, i: usize) -> (r: bool)
    requires
        i < cs.len(),
    ensures
        r == breaks_daily(cs@, i as int),
{
    let mut j: usize = 0;
    while j < cs.len()
        invariant
            0 <= j <= cs.len(),
            i < cs.len(),
            forall|k: int|
                0 <= k < j ==> !(k != i && (#[trigger] cs@[k]).employee_id == cs@[i as int].employee_id
                    && cs@[k].day == cs@[i as int].day),
        decreases cs.len() - j,
    {
        if j != i && cs[j].employee_id == cs[i].employee_id && cs[j].day == cs[i].day {
            return true;
        }
        j += 1;
    }
    false
}

fn has_short_rest(p: &Problem, cs: &Vec<Claim>, i: usize) -> (r: bool)
    requires
        p@.wf(),
        claims_wf(p@, cs@),
        i < cs.len(),
    ensures
        r == breaks_rest(p@, cs@, i as int),
{
    let mut j: usize = 0;
    while j < cs.len()
        invariant
            0 <= j <= cs.len(),
            i < cs.len(),
            p@.wf(),
            claims_wf(p@, cs@),
            forall|k: int| 0 <= k < j ==> !(k != i && too_close(p@, #[trigger] cs@[k], cs@[i as int])),
        decreases cs.len() - j,
    {
        if j != i && is_too_close(p, cs[j], cs[i]) {
            return true;
        }
        j += 1;
    }
    false
}

fn needed(p: &Problem, c: Claim) -> (r: usize)
    requires
        p@.wf(),
        c.template matches Some(t) ==> t < p.templates.len(),
    ensures
        r as nat == need(p@, c),
{
    match c.template {
        Some(t) => if makes_instance(p, t, c.day) {
            p.templates[t].required
        } else {
            0
        },
        None => 0,
    }
}

fn push_if(out: &mut Vec<Violation>, cond: bool, v: Violation)
    ensures
        forall|x: Violation| #[trigger] final(out)@.contains(x) <==> old(out)@.contains(x) || (cond && x == v),
        days_in_range(old(out)@) && 0 <= v.day <= LAST_DAY ==> days_in_range(final(out)@),
{
    if cond {
        let ghost before = out@;
        out.push(v);
        proof {
            if days_in_range(before) && 0 <= v.day <= LAST_DAY {
                assert forall|i: int| 0 <= i < out.len() implies 0 <= (#[trigger] out@[i]).day <= LAST_DAY by {
                    if i < before.len() {
                        assert(out@[i] == before[i]);
                    }
                }
            }
            assert forall|x: Violation| #[trigger] out@.contains(x) <==> before.contains(x) || x == v by {
                if before.contains(x) {
                    let i = choose|i: int| 0 <= i < before.len() && before[i] == x;
                    assert(out@[i] == x);
                }
                if x == v {
                    assert(out@[out.len() - 1] == x);
                }
                if out@.contains(x) {
                    let i = choose|i: int| 0 <= i < out@.len() && out@[i] == x;
                    if i < before.len() {
                        assert(before[i] == x);
                    }
                }
            }
        }
    }
}

/// Collects the violations of the claims, in no particular order.
fn collect(p: &Problem, insts: &Vec<Instance>, cs: &Vec<Claim>) -> (r: Vec<Violation>)
    requires
        p@.wf(),
        claims_wf(p@, cs@),
        insts@ == instances(p@),
        is_roster(p@, insts@),
    ensures
        forall|v: Violation| #[trigger] r@.contains(v) <==> violates(p@, cs@, v),
        days_in_range(r@),
{
    let mut out: Vec<Violation> = Vec::new();
    let mut i: usize = 0;
    while i < cs.len()
        invariant
            0 <= i <= cs.len(),
            p@.wf(),
            claims_wf(p@, cs@),
            days_in_range(out@),
            forall|v: Violation| #[trigger] out@.contains(v) <==> raised_by_claims(p@, cs@, i as int, v),
        decreases cs.len() - i,
    {
        let c = cs[i];
        let ghost before = out@;
        assert(cs@[i as int] == c);
        let over = count_heads(cs, c.shift_id, c.day) > needed(p, c);
        push_if(
            &mut out,
            over,
            Violation {
                kind: ConstraintKind::Staffing,
                severity: Severity::Hard,
                employee_id: None,
                day: c.day,
                shift_id: c.shift_id,
            },
        );
        let away = match c.worker {
            Some(w) => is_absent(p, w, c.day),
            None => false,
        };
        push_if(
            &mut out,
            away,
            Violation {
                kind: ConstraintKind::Absence,
                severity: Severity::Hard,
                employee_id: Some(c.employee_id),
                day: c.day,
                shift_id: c.shift_id,
            },
        );
        let twice = has_daily_clash(cs, i);
        push_if(
            &mut out,
            twice,
            Violation {
                kind: ConstraintKind::OneShiftPerDay,
                severity: Severity::Hard,
                employee_id: Some(c.employee_id),
                day: c.day,
                shift_id: c.shift_id,
            },
        );
        let tired = has_short_rest(p, cs, i);
        push_if(
            &mut out,
            tired,
            Violation {
                kind: ConstraintKind::MinimumRest,
                severity: Severity::Hard,
                employee_id: Some(c.employee_id),
                day: c.day,
                shift_id: c.shift_id,
            },
        );
        let idle = match c.worker {
            Some(w) => !p.workers[w].active,
            None => true,
        };
        push_if(
            &mut out,
            idle,
            Violation {
                kind: ConstraintKind::ActiveStatus,
                severity: Severity::Hard,
                employee_id: Some(c.employee_id),
                day: c.day,
                shift_id: c.shift_id,
            },
        );
        proof {
            assert forall|v: Violation| #[trigger] out@.contains(v) <==> raised_by_claims(
                p@,
                cs@,
                i + 1,
                v,
            ) by {
                assert(out@.contains(v) <==> before.contains(v) || claim_raises(p@, cs@, i as int, v));
                if raised_by_claims(p@, cs@, i + 1, v) {
                    let k = choose|k: int| 0 <= k < i + 1 && #[trigger] claim_raises(p@, cs@, k, v);
                    if k < i {
                        assert(raised_by_claims(p@, cs@, i as int, v));
                    }
                }
                if raised_by_claims(p@, cs@, i as int, v) {
                    let k = choose|k: int| 0 <= k < i && #[trigger] claim_raises(p@, cs@, k, v);
                    assert(claim_raises(p@, cs@, k, v));
                }
            }
        }
        i += 1;
    }
    let mut k: usize = 0;
    while k < insts.len()
        invariant
            0 <= k <= insts.len(),
            p@.wf(),
            insts@ == instances(p@),
            is_roster(p@, insts@),
            days_in_range(out@),
            forall|v: Violation| #[trigger]
                out@.contains(v) <==> raised_by_claims(p@, cs@, cs.len() as int, v) || raised_by_instances(
                    p@,
                    insts@,
                    cs@,
                    k as int,
                    v,
                ),
        decreases insts.len() - k,
    {
        let inst = insts[k];
        let ghost before = out@;
        assert(is_instance(p@, insts@[k as int].template as int, insts@[k as int].day as int));
        let id = p.templates[inst.template].id;
        let short = count_heads(cs, id, inst.day) < p.templates[inst.template].required;
        push_if(
            &mut out,
            short,
            Violation {
                kind: ConstraintKind::Staffing,
                severity: Severity::Soft,
                employee_id: None,
                day: inst.day,
                shift_id: id,
            },
        );
        proof {
            assert forall|v: Violation| #[trigger]
                out@.contains(v) <==> raised_by_claims(p@, cs@, cs.len() as int, v) || raised_by_instances(
                    p@,
                    insts@,
                    cs@,
                    k + 1,
                    v,
                ) by {
                assert(out@.contains(v) <==> before.contains(v) || instance_raises(
                    p@,
                    insts@,
                    cs@,
                    k as int,
                    v,
                ));
                if raised_by_instances(p@, insts@, cs@, k + 1, v) {
                    let j = choose|j: int|
                        0 <= j < k + 1 && #[trigger] instance_raises(p@, insts@, cs@, j, v);
                    if j < k {
                        assert(raised_by_instances(p@, insts@, cs@, k as int, v));
                    }
                }
                if raised_by_instances(p@, insts@, cs@, k as int, v) {
                    let j = choose|j: int| 0 <= j < k && #[trigger] instance_raises(p@, insts@, cs@, j, v);
                    assert(instance_raises(p@, insts@, cs@, j, v));
                }
            }
        }
        k += 1;
    }
    out
}

/// Puts violations in order and drops repetitions.
fn sort_distinct(raw: &Vec<Violation>) -> (r: Vec<Violation>)
    ensures
        strictly_sorted(r@),
        forall|v: Violation| #[trigger] r@.contains(v) <==> raw@.contains(v),
        days_in_range(raw@) ==> days_in_range(r@),
{
    let mut flags: Vec<bool> = Vec::new();
    let mut n: usize = 0;
    while n < raw.len()
        invariant
            0 <= n <= raw.len(),
            flags.len() == n,
            forall|i: int| 0 <= i < n ==> #[trigger] flags@[i],
        decreases raw.len() - n,
    {
        flags.push(true);
        n += 1;
    }
    let order = rank_all(raw, &flags);
    let mut out: Vec<Violation> = Vec::new();
    let mut k: usize = 0;
    while k < order.len()
        invariant
            0 <= k <= order.len(),
            is_ranking(raw@, flags@, order@),
            strictly_sorted(out@),
            forall|x: int| 0 <= x < out.len() ==> raw@.contains(#[trigger] out@[x]),
            forall|j: int| 0 <= j < k ==> out@.contains(#[trigger] raw@[order@[j] as int]),
            out.len() <= k,
            k > 0 ==> out.len() > 0 && out@.last() == raw@[order@[k - 1] as int],
        decreases order.len() - k,
    {
        let v = raw[order[k]];
        let ghost before = out@;
        let fresh = if k == 0 {
            true
        } else {
            raw[order[k - 1]].comes_before(&v)
        };
        if fresh {
            out.push(v);
            proof {
                assert forall|i: int, j: int|
                    #![trigger out@[i], out@[j]]
                    0 <= i < j < out.len() implies out@[i].precedes(&out@[j]) by {
                    if j == out.len() - 1 {
                        assert(k > 0);
                        let last = before[before.len() - 1];
                        assert(last == raw@[order@[k - 1] as int]);
                        assert(last.precedes(&v));
                        assert(out@[j] == v);
                        assert(out@[i] == before[i]);
                        if i < before.len() - 1 {
                            assert(before[i].precedes(&before[before.len() - 1]));
                            Violation::lemma_strict_weak_order(&before[i], &last, &v);
                        }
                    } else {
                        assert(out@[i] == before[i] && out@[j] == before[j]);
                    }
                }
                assert forall|j: int| 0 <= j < k + 1 implies out@.contains(
                    #[trigger] raw@[order@[j] as int],
                ) by {
                    if j < k {
                        let x = choose|x: int| 0 <= x < before.len() && before[x] == raw@[order@[j] as int];
                        assert(out@[x] == raw@[order@[j] as int]);
                    } else {
                        assert(out@[out.len() - 1] == v);
                    }
                }
                assert forall|x: int| 0 <= x < out.len() implies raw@.contains(#[trigger] out@[x]) by {
                    if x < before.len() {
                        assert(out@[x] == before[x]);
                    } else {
                        assert(raw@[order@[k as int] as int] == v);
                    }
                }
            }
        } else {
            proof {
                let a = order@[k - 1] as int;
                let b = order@[k as int] as int;
                assert(ahead(raw@, a, b));
                lemma_violations_total(raw@[a], raw@[b]);
                assert(raw@[a] == raw@[b]);
            }
        }
        k += 1;
    }
    proof {
        if days_in_range(raw@) {
            assert forall|i: int| 0 <= i < out.len() implies 0 <= (#[trigger] out@[i]).day <= LAST_DAY by {
                assert(raw@.contains(out@[i]));
                let j = choose|j: int| 0 <= j < raw@.len() && raw@[j] == out@[i];
                assert(0 <= raw@[j].day <= LAST_DAY);
            }
        }
        assert forall|v: Violation| raw@.contains(v) implies #[trigger] out@.contains(v) by {
            let i = choose|i: int| 0 <= i < raw@.len() && raw@[i] == v;
            assert(flags@[i]);
            assert(listed(order@, i));
            let j = choose|j: int| 0 <= j < order@.len() && #[trigger] order@[j] as int == i;
            assert(out@.contains(raw@[order@[j] as int]));
        }
    }
    out
}

/// Reports every rule that the claims break, in order: by rule, then by
/// employee, then by date, then by shift.
pub fn evaluate_claims(p: &Problem, cs: &Vec<Claim>) -> (r: Vec<Violation>)
    requires
        p@.wf(),
        claims_wf(p@, cs@),
    ensures
        is_evaluation(p@, cs@, r@),
        days_in_range(r@),
{
    let insts = expand(p);
    let raw = collect(p, &insts, cs);
    sort_distinct(&raw)
}

/// What the evaluator returns for a candidate schedule and a snapshot: the
/// violations of the schedule, or the first malformed record, those of the
/// snapshot first.
pub open spec fn is_verdict(
    entries: Seq<ScheduleEntry>,
    input: SolverInput,
    r: Result<Vec<Violation>, ValidationError>,
) -> bool {
    match r {
        Ok(vs) => {
            &&& acceptable(input)
            &&& forall|i: int| 0 <= i < entries.len() ==> (#[trigger] entries[i]).defect() is None
            &&& is_evaluation(snapshot_of(input), claims_of(snapshot_of(input), entries), vs@)
            &&& days_in_range(vs@)
        },
        Err(e) => is_first_error(input, e) || (acceptable(input) && is_first_bad_entry(entries, e)),
    }
}

/// Evaluates a candidate schedule against a snapshot.
pub fn evaluate(entries: &Vec<ScheduleEntry>, input: &SolverInput) -> (r: Result<
    Vec<Violation>,
    ValidationError,
>)
    ensures
        is_verdict(entries@, *input, r),
{
    match compile(input) {
        Err(e) => Err(e),
        Ok(p) => match resolve(&p, entries) {
            Err(e) => Err(e),
            Ok(cs) => Ok(evaluate_claims(&p, &cs)),
        },
    }
}

} // verus!
