//! What holds between the solver, the evaluator and the rules.

use vstd::prelude::*;
use crate::calendar::{lemma_parse_day_bounds, parse_day, LAST_DAY};
use crate::delegated::{
    details_text,
    hard_lines,
    is_checked_answer,
    is_delegated_result,
    known_status,
    missing_key_lines,
    lemma_hard_lines_empty,
    no_reason_text,
    refused_text,
    unknown_status_text,
    unreachable_text,
    unreadable_text,
    DelegatedReply,
    Delegation,
};
use crate::evaluator::{
    breaks_daily,
    breaks_rest,
    claim_raises,
    claims_of,
    claims_wf,
    entry_violation,
    headcount,
    is_evaluation,
    is_first_bad_entry,
    lemma_claims_wf,
    need,
    no_hard,
    overstaffs,
    raised_by_claims,
    staffing_violation,
    template_named,
    too_close,
    violates,
    worker_named,
    Claim,
    ConstraintKind,
    Severity,
    Violation,
};
use crate::commands::{
    clear_of_absences,
    is_gemini_step,
    is_local_result,
    is_solve_step,
    usable_key,
    Strategy,
    one_shift_per_day,
    only_active,
    SolverInput,
    SolverResult,
};
use crate::engine::{lemma_plan_is_sound, plan_of};
use crate::models::ScheduleEntry;
use crate::problem::{
    acceptable,
    employee_defect,
    is_first_error,
    lemma_first_error_unique,
    lemma_snapshot_wf,
    range_error,
    snapshot_of,
    Snapshot,
    ValidationError,
};
use crate::roster::instances;
use crate::ranking::Ranked;
use crate::report::{entry_matches, is_failure, lemma_status_texts_differ, texts, validation_text};
use crate::rules::{
    absent,
    allowed,
    compatible,
    coverage,
    covers,
    feasible,
    is_instance,
    lemma_coverage_some,
    lemma_rested_symmetric,
    shift_end,
    shift_start,
    within_staffing,
    Placement,
    MIN_REST,
};

verus! {

/// The placement that a claim with a known worker and a known template makes.
pub open spec fn placement_of(c: Claim) -> Placement {
    Placement { worker: c.worker->0, template: c.template->0, day: c.day }
}

pub open spec fn placements_of(cs: Seq<Claim>) -> Seq<Placement> {
    Seq::new(cs.len(), |i: int| placement_of(cs[i]))
}

/// Every claim names a worker and a template of the snapshot, and the
/// placements that the claims make obey every hard rule.
pub open spec fn sound(snap: Snapshot, cs: Seq<Claim>) -> bool {
    &&& forall|i: int| 0 <= i < cs.len() ==> (#[trigger] cs[i]).worker is Some && cs[i].template is Some
    &&& feasible(snap, placements_of(cs))
    &&& within_staffing(snap, placements_of(cs))
}

/// No violation of the claims is hard.
pub open spec fn hard_free(snap: Snapshot, cs: Seq<Claim>) -> bool {
    forall|v: Violation| #[trigger] violates(snap, cs, v) ==> v.severity is Soft
}

/// The worker at a position is the one that its identifier names.
pub proof fn lemma_worker_named(snap: Snapshot, w: int)
    requires
        snap.wf(),
        0 <= w < snap.workers.len(),
    ensures
        worker_named(snap, snap.workers[w].id) == Some(w as usize),
{
    let id = snap.workers[w].id;
    let c = choose|k: int| 0 <= k < snap.workers.len() && (#[trigger] snap.workers[k]).id == id;
    if c < w {
        assert(snap.workers[c].id != snap.workers[w].id);
    } else if w < c {
        assert(snap.workers[w].id != snap.workers[c].id);
    }
}

/// The template at a position is the one that its identifier names.
pub proof fn lemma_template_named(snap: Snapshot, t: int)
    requires
        snap.wf(),
        0 <= t < snap.templates.len(),
    ensures
        template_named(snap, snap.templates[t].id) == Some(t as usize),
{
    let id = snap.templates[t].id;
    let c = choose|k: int| 0 <= k < snap.templates.len() && (#[trigger] snap.templates[k]).id == id;
    if c < t {
        assert(snap.templates[c].id != snap.templates[t].id);
    } else if t < c {
        assert(snap.templates[t].id != snap.templates[c].id);
    }
}

/// Where every claim names a template, the claims on a shift instance are
/// the placements on it.
pub proof fn lemma_headcount_is_coverage(snap: Snapshot, cs: Seq<Claim>, t: int, d: int)
    requires
        snap.wf(),
        claims_wf(snap, cs),
        forall|i: int| 0 <= i < cs.len() ==> (#[trigger] cs[i]).template is Some,
        0 <= t < snap.templates.len(),
    ensures
        headcount(cs, snap.templates[t].id, d) == coverage(placements_of(cs), t, d),
    decreases cs.len(),
{
    if cs.len() > 0 {
        let front = cs.drop_last();
        assert forall|i: int| 0 <= i < front.len() implies (#[trigger] front[i]).template is Some by {
            assert(front[i] == cs[i]);
        }
        assert(claims_wf(snap, front)) by {
            assert forall|i: int| 0 <= i < front.len() implies {
                let c = #[trigger] front[i];
                &&& 0 <= c.day <= LAST_DAY
                &&& c.worker == worker_named(snap, c.employee_id)
                &&& c.template == template_named(snap, c.shift_id)
                &&& (c.worker matches Some(w) ==> w < snap.workers.len() && snap.workers[w as int].id
                    == c.employee_id)
                &&& (c.template matches Some(t) ==> t < snap.templates.len() && snap.templates[t as int].id
                    == c.shift_id)
            } by {
                assert(front[i] == cs[i]);
            }
        }
        lemma_headcount_is_coverage(snap, front, t, d);
        assert(placements_of(cs).drop_last() =~= placements_of(front));
        let c = cs.last();
        assert(c == cs[cs.len() - 1]);
        let u = c.template->0 as int;
        assert(placements_of(cs).last() == placement_of(c));
        if u < t {
            assert(snap.templates[u].id != snap.templates[t].id);
        } else if t < u {
            assert(snap.templates[t].id != snap.templates[u].id);
        }
    }
}

/// Claims whose placements obey the hard rules raise no hard violation.
pub proof fn lemma_sound_is_hard_free(snap: Snapshot, cs: Seq<Claim>)
    requires
        snap.wf(),
        claims_wf(snap, cs),
        sound(snap, cs),
    ensures
        hard_free(snap, cs),
{
    let ps = placements_of(cs);
    assert forall|v: Violation| #[trigger] violates(snap, cs, v) implies v.severity is Soft by {
        if raised_by_claims(snap, cs, cs.len() as int, v) {
            let i = choose|i: int| 0 <= i < cs.len() && #[trigger] claim_raises(snap, cs, i, v);
            let c = cs[i];
            assert(c.worker is Some && c.template is Some);
            assert(ps[i] == placement_of(c));
            assert(allowed(snap, ps[i]));
            let t = c.template->0 as int;
            if overstaffs(snap, cs, i) {
                lemma_headcount_is_coverage(snap, cs, t, c.day as int);
                assert(coverage(ps, t, c.day as int) <= snap.templates[t].required);
            }
            if breaks_daily(cs, i) {
                let j = choose|j: int|
                    0 <= j < cs.len() && j != i && (#[trigger] cs[j]).employee_id == cs[i].employee_id
                        && cs[j].day == cs[i].day;
                lemma_same_worker(snap, cs, i, j);
                assert(ps[j] == placement_of(cs[j]));
                if i < j {
                    assert(compatible(snap, ps[i], ps[j]));
                } else {
                    assert(compatible(snap, ps[j], ps[i]));
                }
            }
            if breaks_rest(snap, cs, i) {
                let j = choose|j: int| 0 <= j < cs.len() && j != i && too_close(snap, #[trigger] cs[j], cs[i]);
                lemma_same_worker(snap, cs, i, j);
                assert(ps[j] == placement_of(cs[j]));
                assert(allowed(snap, ps[j]));
                lemma_rested_symmetric(
                    snap,
                    ps[i].template as int,
                    ps[i].day as int,
                    ps[j].template as int,
                    ps[j].day as int,
                );
                if i < j {
                    assert(compatible(snap, ps[i], ps[j]));
                } else {
                    assert(compatible(snap, ps[j], ps[i]));
                }
            }
        }
    }
}

/// Two claims of one employee name the same worker.
proof fn lemma_same_worker(snap: Snapshot, cs: Seq<Claim>, i: int, j: int)
    requires
        claims_wf(snap, cs),
        0 <= i < cs.len(),
        0 <= j < cs.len(),
        cs[i].employee_id == cs[j].employee_id,
    ensures
        cs[i].worker == cs[j].worker,
{
}

/// Claims that raise no hard violation name workers and templates of the
/// snapshot, and their placements obey every hard rule.
pub proof fn lemma_hard_free_is_sound(snap: Snapshot, cs: Seq<Claim>)
    requires
        snap.wf(),
        claims_wf(snap, cs),
        hard_free(snap, cs),
    ensures
        sound(snap, cs),
{
    let ps = placements_of(cs);
    assert forall|i: int| 0 <= i < cs.len() implies (#[trigger] cs[i]).worker is Some && cs[i].template is Some
        && allowed(snap, ps[i]) by {
        let c = cs[i];
        lemma_not_raised(snap, cs, i, entry_violation(c, ConstraintKind::ActiveStatus));
        lemma_not_raised(snap, cs, i, entry_violation(c, ConstraintKind::Absence));
        lemma_not_raised(snap, cs, i, staffing_violation(Severity::Hard, c.shift_id, c.day));
        lemma_headcount_positive(cs, i);
        assert(!overstaffs(snap, cs, i));
        assert(need(snap, c) > 0);
    }
    assert forall|i: int, j: int| 0 <= i < j < ps.len() implies compatible(
        snap,
        #[trigger] ps[i],
        #[trigger] ps[j],
    ) by {
        if ps[i].worker == ps[j].worker {
            assert(cs[i].employee_id == cs[j].employee_id);
            lemma_not_raised(snap, cs, i, entry_violation(cs[i], ConstraintKind::OneShiftPerDay));
            lemma_not_raised(snap, cs, i, entry_violation(cs[i], ConstraintKind::MinimumRest));
            lemma_not_raised(snap, cs, j, entry_violation(cs[j], ConstraintKind::MinimumRest));
            assert(!breaks_daily(cs, i));
            assert(!breaks_rest(snap, cs, i));
            assert(!breaks_rest(snap, cs, j));
            assert(!too_close(snap, cs[j], cs[i]));
            assert(!too_close(snap, cs[i], cs[j]));
        }
    }
    assert forall|t: int, d: int| is_instance(snap, t, d) implies #[trigger] coverage(ps, t, d)
        <= snap.templates[t].required by {
        if coverage(ps, t, d) > snap.templates[t].required {
            lemma_coverage_some(ps, t, d);
            let i = choose|i: int| 0 <= i < ps.len() && (#[trigger] ps[i]).template == t && ps[i].day == d;
            assert(ps[i] == placement_of(cs[i]));
            lemma_headcount_is_coverage(snap, cs, t, d);
            lemma_not_raised(snap, cs, i, staffing_violation(Severity::Hard, cs[i].shift_id, cs[i].day));
            assert(overstaffs(snap, cs, i));
        }
    }
}

/// A claim counts on the shift and day that it names.
proof fn lemma_headcount_positive(cs: Seq<Claim>, i: int)
    requires
        0 <= i < cs.len(),
    ensures
        headcount(cs, cs[i].shift_id, cs[i].day as int) > 0,
    decreases cs.len(),
{
    if i < cs.len() - 1 {
        assert(cs.drop_last()[i] == cs[i]);
        lemma_headcount_positive(cs.drop_last(), i);
    }
}

/// Where no violation is hard, a claim raises no hard violation.
proof fn lemma_not_raised(snap: Snapshot, cs: Seq<Claim>, i: int, v: Violation)
    requires
        hard_free(snap, cs),
        0 <= i < cs.len(),
        v.severity is Hard,
    ensures
        !claim_raises(snap, cs, i, v),
{
    if claim_raises(snap, cs, i, v) {
        assert(raised_by_claims(snap, cs, cs.len() as int, v));
        assert(violates(snap, cs, v));
    }
}

/// An evaluation holds no hard violation exactly where the claims are sound.
pub proof fn lemma_evaluation_decides(snap: Snapshot, cs: Seq<Claim>, vs: Seq<Violation>)
    requires
        snap.wf(),
        claims_wf(snap, cs),
        is_evaluation(snap, cs, vs),
    ensures
        no_hard(vs) <==> sound(snap, cs),
{
    if no_hard(vs) {
        assert forall|v: Violation| #[trigger] violates(snap, cs, v) implies v.severity is Soft by {
            assert(vs.contains(v));
            let i = choose|i: int| 0 <= i < vs.len() && vs[i] == v;
        }
        lemma_hard_free_is_sound(snap, cs);
    }
    if sound(snap, cs) {
        lemma_sound_is_hard_free(snap, cs);
        assert forall|i: int| 0 <= i < vs.len() implies (#[trigger] vs[i]).severity is Soft by {
            assert(vs.contains(vs[i]));
        }
    }
}

proof fn lemma_evaluation_prefix(snap: Snapshot, cs: Seq<Claim>, a: Seq<Violation>, b: Seq<Violation>, m: nat)
    requires
        is_evaluation(snap, cs, a),
        is_evaluation(snap, cs, b),
        m <= a.len(),
        m <= b.len(),
    ensures
        forall|k: int| 0 <= k < m ==> a[k] == b[k],
    decreases m,
{
    if m > 0 {
        lemma_evaluation_prefix(snap, cs, a, b, (m - 1) as nat);
        let i = m - 1;
        let x = a[i];
        let y = b[i];
        assert(a.contains(x));
        assert(b.contains(x));
        let j = choose|j: int| 0 <= j < b.len() && b[j] == x;
        assert(b.contains(y));
        assert(a.contains(y));
        let j2 = choose|j: int| 0 <= j < a.len() && a[j] == y;
        Violation::lemma_strict_weak_order(&x, &y, &x);
        Violation::lemma_strict_weak_order(&y, &x, &y);
        if j < i {
            assert(a[j] == b[j]);
            assert(a[j].precedes(&a[i]));
        }
        if j2 < i {
            assert(a[j2] == b[j2]);
            assert(b[j2].precedes(&b[i]));
        }
        if x != y {
            assert(b[i].precedes(&b[j]));
            assert(a[i].precedes(&a[j2]));
        }
    }
}

/// A list of claims has one evaluation only.
pub proof fn lemma_evaluation_unique(snap: Snapshot, cs: Seq<Claim>, a: Seq<Violation>, b: Seq<Violation>)
    requires
        is_evaluation(snap, cs, a),
        is_evaluation(snap, cs, b),
    ensures
        a == b,
{
    let m = if a.len() <= b.len() {
        a.len()
    } else {
        b.len()
    };
    lemma_evaluation_prefix(snap, cs, a, b, m);
    if a.len() < b.len() {
        let y = b[m as int];
        assert(b.contains(y));
        assert(a.contains(y));
        let j = choose|j: int| 0 <= j < a.len() && a[j] == y;
        assert(a[j] == b[j]);
        assert(b[j].precedes(&b[m as int]));
        Violation::lemma_strict_weak_order(&y, &y, &y);
    }
    if b.len() < a.len() {
        let x = a[m as int];
        assert(a.contains(x));
        assert(b.contains(x));
        let j = choose|j: int| 0 <= j < b.len() && b[j] == x;
        assert(a[j] == b[j]);
        assert(a[j].precedes(&a[m as int]));
        Violation::lemma_strict_weak_order(&x, &x, &x);
    }
    assert(a =~= b);
}

/// The entries of a report of a schedule that obeys the hard rules make
/// sound claims: the schedule that the solver returns passes the evaluator.
pub proof fn lemma_report_is_sound(
    snap: Snapshot,
    ps: Seq<Placement>,
    entries: Seq<ScheduleEntry>,
)
    requires
        snap.wf(),
        feasible(snap, ps),
        within_staffing(snap, ps),
        entries.len() == ps.len(),
        forall|k: int| 0 <= k < ps.len() ==> entry_matches(snap, #[trigger] entries[k], ps[k]),
    ensures
        claims_wf(snap, claims_of(snap, entries)),
        placements_of(claims_of(snap, entries)) == ps,
        sound(snap, claims_of(snap, entries)),
{
    let cs = claims_of(snap, entries);
    assert forall|i: int| 0 <= i < cs.len() implies {
        let c = #[trigger] cs[i];
        &&& 0 <= c.day <= LAST_DAY
        &&& c.worker == worker_named(snap, c.employee_id)
        &&& c.template == template_named(snap, c.shift_id)
        &&& (c.worker matches Some(w) ==> w < snap.workers.len() && snap.workers[w as int].id
            == c.employee_id)
        &&& (c.template matches Some(t) ==> t < snap.templates.len() && snap.templates[t as int].id
            == c.shift_id)
        &&& placement_of(c) == ps[i]
        &&& c.worker is Some
        &&& c.template is Some
    } by {
        assert(entry_matches(snap, entries[i], ps[i]));
        assert(allowed(snap, ps[i]));
        lemma_worker_named(snap, ps[i].worker as int);
        lemma_template_named(snap, ps[i].template as int);
        lemma_parse_day_bounds(entries[i].date@);
    }
    assert(placements_of(cs) =~= ps);
}

/// Between two shifts of one worker in a feasible schedule, from the end of
/// the one that starts first to the start of the other, lie at least 11
/// hours; a shift that runs past midnight ends on the next day.
pub proof fn lemma_rest_between_shifts(snap: Snapshot, ps: Seq<Placement>, i: int, j: int)
    requires
        snap.wf(),
        feasible(snap, ps),
        0 <= i < ps.len(),
        0 <= j < ps.len(),
        i != j,
        ps[i].worker == ps[j].worker,
        shift_start(snap, ps[i].template as int, ps[i].day as int) <= shift_start(
            snap,
            ps[j].template as int,
            ps[j].day as int,
        ),
    ensures
        ps[i].day != ps[j].day,
        shift_start(snap, ps[j].template as int, ps[j].day as int) - shift_end(
            snap,
            ps[i].template as int,
            ps[i].day as int,
        ) >= MIN_REST,
{
    assert(allowed(snap, ps[i]) && allowed(snap, ps[j]));
    lemma_rested_symmetric(
        snap,
        ps[i].template as int,
        ps[i].day as int,
        ps[j].template as int,
        ps[j].day as int,
    );
    if i < j {
        assert(compatible(snap, ps[i], ps[j]));
    } else {
        assert(compatible(snap, ps[j], ps[i]));
    }
}

/// Of every result of the local solver for an acceptable input: no employee
/// has two entries on one date, no entry falls within an absence of its
/// employee, every entry names an active employee, and the entries make the
/// placements of the schedule, which obey every hard rule; so the evaluator
/// finds no hard violation in them.
pub proof fn lemma_solved_obeys_rules(input: SolverInput, limit: nat, r: SolverResult)
    requires
        acceptable(input),
        is_local_result(input, limit, r),
        instances(snapshot_of(input)).len() <= usize::MAX,
    ensures
        one_shift_per_day(r.assignments@),
        clear_of_absences(r.assignments@, input.absences@),
        only_active(r.assignments@, input.employees@),
        placements_of(claims_of(snapshot_of(input), r.assignments@)) == plan_of(snapshot_of(input), limit),
        feasible(snapshot_of(input), plan_of(snapshot_of(input), limit)),
        within_staffing(snapshot_of(input), plan_of(snapshot_of(input), limit)),
        hard_free(snapshot_of(input), claims_of(snapshot_of(input), r.assignments@)),
{
    let snap = snapshot_of(input);
    let ps = plan_of(snap, limit);
    lemma_snapshot_wf(input);
    lemma_plan_is_sound(snap, limit);
    assert forall|k: int| 0 <= k < r.assignments@.len() implies (#[trigger] r.assignments@[k]).defect() is None by {
        assert(entry_matches(snap, r.assignments@[k], ps[k]));
    }
    lemma_report_is_sound(snap, ps, r.assignments@);
    lemma_sound_entries_obey(input, r.assignments@);
    lemma_sound_is_hard_free(snap, claims_of(snap, r.assignments@));
}

/// Entries with well-formed dates whose claims are sound obey the rules as
/// the input states them: no employee has two entries on one date, no entry
/// falls within an absence of its employee, and every entry names an active
/// employee.
pub proof fn lemma_sound_entries_obey(input: SolverInput, entries: Seq<ScheduleEntry>)
    requires
        acceptable(input),
        forall|i: int| 0 <= i < entries.len() ==> (#[trigger] entries[i]).defect() is None,
        sound(snapshot_of(input), claims_of(snapshot_of(input), entries)),
    ensures
        one_shift_per_day(entries),
        clear_of_absences(entries, input.absences@),
        only_active(entries, input.employees@),
{
    let snap = snapshot_of(input);
    let cs = claims_of(snap, entries);
    let ps = placements_of(cs);
    lemma_snapshot_wf(input);
    lemma_claims_wf(snap, entries);
    assert forall|i: int, j: int| 0 <= i < j < entries.len() implies !((#[trigger] entries[i]).employee_id
        == (#[trigger] entries[j]).employee_id && entries[i].date@ == entries[j].date@) by {
        assert(cs[i].worker is Some && cs[j].worker is Some);
        assert(ps[i] == placement_of(cs[i]) && ps[j] == placement_of(cs[j]));
        assert(compatible(snap, ps[i], ps[j]));
    }
    assert forall|i: int, a: int|
        0 <= i < entries.len() && 0 <= a < input.absences@.len() && (#[trigger] input.absences@[a]).employee_id
            == (#[trigger] entries[i]).employee_id implies !(parse_day(input.absences@[a].start_date@)->0
        <= parse_day(entries[i].date@)->0 <= parse_day(input.absences@[a].end_date@)->0) by {
        assert(cs[i].worker is Some && cs[i].template is Some);
        assert(ps[i] == placement_of(cs[i]));
        assert(allowed(snap, ps[i]));
        assert(input.absences@[a].defect() is None);
        assert(entries[i].defect() is None);
        lemma_parse_day_bounds(input.absences@[a].start_date@);
        lemma_parse_day_bounds(input.absences@[a].end_date@);
        lemma_parse_day_bounds(entries[i].date@);
        let l = snap.leaves[a];
        if parse_day(input.absences@[a].start_date@)->0 <= parse_day(entries[i].date@)->0 <= parse_day(
            input.absences@[a].end_date@,
        )->0 {
            assert(covers(l, snap.workers[ps[i].worker as int].id, ps[i].day as int));
            assert(absent(snap, ps[i].worker as int, ps[i].day as int));
        }
    }
    assert forall|i: int| 0 <= i < entries.len() implies exists|k: int|
        0 <= k < input.employees@.len() && (#[trigger] input.employees@[k]).id == Some(
            (#[trigger] entries[i]).employee_id,
        ) && input.employees@[k].active() by {
        assert(cs[i].worker is Some && cs[i].template is Some);
        assert(ps[i] == placement_of(cs[i]));
        assert(allowed(snap, ps[i]));
        let k = ps[i].worker as int;
        assert(employee_defect(input.employees@, k) is None);
        assert(input.employees@[k].id == Some(entries[i].employee_id));
    }
}

/// An answer of the external service that has been checked either holds no
/// entries, or is the answer as it came and obeys every hard rule.
pub proof fn lemma_checked_answer_is_sound(input: SolverInput, answer: SolverResult, r: SolverResult)
    requires
        is_checked_answer(input, answer, r),
    ensures
        r.assignments@.len() == 0 || (r == answer && acceptable(input) && sound(
            snapshot_of(input),
            claims_of(snapshot_of(input), r.assignments@),
        ) && one_shift_per_day(r.assignments@) && clear_of_absences(r.assignments@, input.absences@)
            && only_active(r.assignments@, input.employees@)),
{
    let snap = snapshot_of(input);
    let entries = answer.assignments@;
    if known_status(answer.status@) && acceptable(input) && !(exists|i: int|
        0 <= i < entries.len() && (#[trigger] entries[i]).defect() is Some) && sound(
        snap,
        claims_of(snap, entries),
    ) {
        assert forall|i: int| 0 <= i < entries.len() implies (#[trigger] entries[i]).defect() is None by {}
        lemma_sound_entries_obey(input, entries);
    }
}

/// A failure with at least one line has the status `ERROR` and says why.
proof fn lemma_failure_has_reason(r: SolverResult, lines: Seq<Seq<char>>)
    requires
        is_failure(r, lines),
        lines.len() > 0,
    ensures
        r.status@ == "ERROR"@,
        r.errors@.len() > 0,
{
    assert(texts(r.errors@).len() == r.errors@.len());
}

/// What is made of a reply of the external service has one of the three
/// statuses, and with the status `ERROR` it says why.
pub proof fn lemma_delegated_error_has_reason(input: SolverInput, reply: DelegatedReply, r: SolverResult)
    requires
        is_delegated_result(input, reply, r),
    ensures
        known_status(r.status@),
        r.status@ == "ERROR"@ ==> r.errors@.len() > 0,
{
    match reply {
        DelegatedReply::Unreachable { reason } => {
            lemma_failure_has_reason(r, seq![unreachable_text(reason@)]);
        },
        DelegatedReply::Refused { status, details } => {
            lemma_failure_has_reason(r, seq![refused_text(status@), details_text(details@)]);
        },
        DelegatedReply::Unreadable { reason } => {
            lemma_failure_has_reason(r, seq![unreadable_text(reason@)]);
        },
        DelegatedReply::Answer { result } => {
            let snap = snapshot_of(input);
            let entries = result.assignments@;
            if !known_status(result.status@) {
                lemma_failure_has_reason(r, seq![unknown_status_text(result.status@)]);
            } else if result.status@ == "ERROR"@ && result.errors@.len() == 0 {
                lemma_failure_has_reason(r, seq![no_reason_text()]);
            } else if !acceptable(input) {
                let e = choose|e: ValidationError| #[trigger]
                    is_first_error(input, e) && is_failure(r, seq![validation_text(e)]);
                lemma_failure_has_reason(r, seq![validation_text(e)]);
            } else if exists|i: int| 0 <= i < entries.len() && (#[trigger] entries[i]).defect() is Some {
                let e = choose|e: ValidationError| #[trigger]
                    is_first_bad_entry(entries, e) && is_failure(r, seq![validation_text(e)]);
                lemma_failure_has_reason(r, seq![validation_text(e)]);
            } else if sound(snap, claims_of(snap, entries)) {
            } else {
                let vs = choose|vs: Seq<Violation>| #[trigger]
                    is_evaluation(snap, claims_of(snap, entries), vs) && !no_hard(vs) && is_failure(
                        r,
                        hard_lines(vs),
                    );
                lemma_hard_lines_empty(vs);
                lemma_failure_has_reason(r, hard_lines(vs));
            }
        },
    }
}

/// A result of the local solver has one of the three statuses, and with the
/// status `ERROR` it says why.
pub proof fn lemma_local_error_has_reason(input: SolverInput, limit: nat, r: SolverResult)
    requires
        is_local_result(input, limit, r),
    ensures
        known_status(r.status@),
        r.status@ == "ERROR"@ ==> r.errors@.len() > 0,
{
    lemma_status_texts_differ();
    if !acceptable(input) {
        let e = choose|e: ValidationError| #[trigger]
            is_first_error(input, e) && is_failure(r, seq![validation_text(e)]);
        lemma_failure_has_reason(r, seq![validation_text(e)]);
    }
}

/// A solving run that finishes at its first step has one of the three
/// statuses, and with the status `ERROR` it says why.
pub proof fn lemma_step_error_has_reason(input: SolverInput, strategy: Strategy, r: Delegation)
    requires
        is_solve_step(input, strategy, r),
    ensures
        r matches Delegation::Finished(result) ==> known_status(result.status@) && (result.status@
            == "ERROR"@ ==> result.errors@.len() > 0),
{
    if let Delegation::Finished(result) = r {
        match strategy {
            Strategy::Local { max_backtracks } => {
                lemma_local_error_has_reason(input, max_backtracks as nat, result);
            },
            Strategy::Delegated { api_key, snapshot } => {
                if !usable_key(api_key) {
                    lemma_failure_has_reason(result, missing_key_lines());
                } else if !acceptable(input) {
                    let e = choose|e: ValidationError| #[trigger]
                        is_first_error(input, e) && is_failure(result, seq![validation_text(e)]);
                    lemma_failure_has_reason(result, seq![validation_text(e)]);
                }
            },
        }
    }
}

/// A delegated run that finishes at its first step has the status `ERROR` and says why.
pub proof fn lemma_gemini_step_has_reason(
    start_date: Seq<char>,
    end_date: Seq<char>,
    snapshot: Seq<char>,
    api_key: Option<String>,
    r: Delegation,
)
    requires
        is_gemini_step(start_date, end_date, snapshot, api_key, r),
    ensures
        r matches Delegation::Finished(result) ==> result.status@ == "ERROR"@ && result.errors@.len() > 0,
{
    if let Delegation::Finished(result) = r {
        if !usable_key(api_key) {
            lemma_failure_has_reason(result, missing_key_lines());
        } else {
            lemma_failure_has_reason(result, seq![validation_text(range_error(start_date, end_date)->0)]);
        }
    }
}

/// How many entries name the shift on the date.
pub open spec fn entry_coverage(entries: Seq<ScheduleEntry>, shift_id: i64, date: Seq<char>) -> nat
    decreases entries.len(),
{
    if entries.len() == 0 {
        0
    } else {
        entry_coverage(entries.drop_last(), shift_id, date) + if entries.last().shift_id == shift_id
            && entries.last().date@ == date {
            1nat
        } else {
            0nat
        }
    }
}

/// How many entries name the employee.
pub open spec fn entry_load(entries: Seq<ScheduleEntry>, employee_id: i64) -> nat
    decreases entries.len(),
{
    if entries.len() == 0 {
        0
    } else {
        entry_load(entries.drop_last(), employee_id) + if entries.last().employee_id == employee_id {
            1nat
        } else {
            0nat
        }
    }
}

/// Two lists of entries say the same, entry by entry.
pub open spec fn same_entries(a: Seq<ScheduleEntry>, b: Seq<ScheduleEntry>) -> bool {
    &&& a.len() == b.len()
    &&& forall|k: int|
        0 <= k < a.len() ==> (#[trigger] a[k]).employee_id == b[k].employee_id && a[k].shift_id
            == b[k].shift_id && a[k].date@ == b[k].date@ && a[k].id == b[k].id
}

proof fn lemma_same_entries_count(
    a: Seq<ScheduleEntry>,
    b: Seq<ScheduleEntry>,
    shift_id: i64,
    date: Seq<char>,
    employee_id: i64,
)
    requires
        same_entries(a, b),
    ensures
        entry_coverage(a, shift_id, date) == entry_coverage(b, shift_id, date),
        entry_load(a, employee_id) == entry_load(b, employee_id),
    decreases a.len(),
{
    if a.len() > 0 {
        assert(a[a.len() - 1].employee_id == b[a.len() - 1].employee_id);
        assert forall|k: int| 0 <= k < a.drop_last().len() implies (#[trigger] a.drop_last()[k]).employee_id
            == b.drop_last()[k].employee_id && a.drop_last()[k].shift_id == b.drop_last()[k].shift_id
            && a.drop_last()[k].date@ == b.drop_last()[k].date@ && a.drop_last()[k].id
            == b.drop_last()[k].id by {
            assert(a.drop_last()[k] == a[k]);
            assert(b.drop_last()[k] == b[k]);
        }
        lemma_same_entries_count(a.drop_last(), b.drop_last(), shift_id, date, employee_id);
    }
}

/// Solving one input twice with one limit gives the same result: the same
/// status, warnings and errors, the same entries, and so the same number of
/// people on every shift instance and the same number of shifts for every
/// employee.
pub proof fn lemma_rerun_is_the_same(
    input: SolverInput,
    limit: nat,
    r1: SolverResult,
    r2: SolverResult,
    shift_id: i64,
    date: Seq<char>,
    employee_id: i64,
)
    requires
        is_local_result(input, limit, r1),
        is_local_result(input, limit, r2),
    ensures
        r1.status@ == r2.status@,
        texts(r1.warnings@) == texts(r2.warnings@),
        texts(r1.errors@) == texts(r2.errors@),
        same_entries(r1.assignments@, r2.assignments@),
        entry_coverage(r1.assignments@, shift_id, date) == entry_coverage(r2.assignments@, shift_id, date),
        entry_load(r1.assignments@, employee_id) == entry_load(r2.assignments@, employee_id),
{
    if acceptable(input) {
        let snap = snapshot_of(input);
        let ps = plan_of(snap, limit);
        assert forall|k: int| 0 <= k < r1.assignments@.len() implies (#[trigger] r1.assignments@[k]).employee_id
            == r2.assignments@[k].employee_id && r1.assignments@[k].shift_id == r2.assignments@[k].shift_id
            && r1.assignments@[k].date@ == r2.assignments@[k].date@ && r1.assignments@[k].id
            == r2.assignments@[k].id by {
            assert(entry_matches(snap, r1.assignments@[k], ps[k]));
            assert(entry_matches(snap, r2.assignments@[k], ps[k]));
        }
        assert(texts(r1.warnings@).len() == r1.warnings@.len());
        assert(texts(r2.warnings@).len() == r2.warnings@.len());
        assert(texts(r1.errors@).len() == r1.errors@.len());
        assert(texts(r2.errors@).len() == r2.errors@.len());
    } else {
        let e1 = choose|e: ValidationError| #[trigger]
            is_first_error(input, e) && is_failure(r1, seq![validation_text(e)]);
        let e2 = choose|e: ValidationError| #[trigger]
            is_first_error(input, e) && is_failure(r2, seq![validation_text(e)]);
        lemma_first_error_unique(input, e1, e2);
    }
    lemma_same_entries_count(r1.assignments@, r2.assignments@, shift_id, date, employee_id);
}

} // verus!
