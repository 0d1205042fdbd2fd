//! The result reporter: turns a schedule of placements, or a failure, into
//! the result envelope with its warnings and errors.

use vstd::prelude::*;
use vstd::string::*;
use crate::calendar::{day_text, parse_day, write_day, LAST_DAY};
use crate::commands::SolverResult;
use crate::models::{Defect, ScheduleEntry};
use crate::problem::{Problem, Record, Snapshot, ValidationError};
use crate::roster::{expand, instances, is_roster, Instance};
use crate::rules::{count_coverage, coverage, feasible, fully_staffed, is_instance, within_staffing, Placement};
use crate::text::{decimal, push_decimal, push_signed, signed_decimal};

verus! {

/// The texts of a list of strings.
pub open spec fn texts(v: Seq<String>) -> Seq<Seq<char>> {
    v.map_values(|s: String| s@)
}

pub proof fn lemma_texts_push(v: Seq<String>, s: String)
    ensures
        texts(v.push(s)) == texts(v).push(s@),
{
    assert(texts(v.push(s)) =~= texts(v).push(s@));
}

/// The status of a run: `ERROR` where there are errors, `PARTIAL` where there
/// are only warnings, `SUCCESS` where there are neither.
pub open spec fn status_text(errors: nat, warnings: nat) -> Seq<char> {
    if errors > 0 {
        "ERROR"@
    } else if warnings > 0 {
        "PARTIAL"@
    } else {
        "SUCCESS"@
    }
}

/// The three status texts differ.
pub proof fn lemma_status_texts_differ()
    ensures
        "ERROR"@ != "PARTIAL"@,
        "ERROR"@ != "SUCCESS"@,
        "PARTIAL"@ != "SUCCESS"@,
{
    reveal_strlit("ERROR");
    reveal_strlit("PARTIAL");
    reveal_strlit("SUCCESS");
    assert("ERROR"@.len() == 5);
    assert("PARTIAL"@.len() == 7);
    assert("SUCCESS"@.len() == 7);
    assert("PARTIAL"@[0] == 'P');
    assert("SUCCESS"@[0] == 'S');
}

pub fn status_for(errors: usize, warnings: usize) -> (r: String)
    ensures
        r@ == status_text(errors as nat, warnings as nat),
{
    if errors > 0 {
        String::from_str("ERROR")
    } else if warnings > 0 {
        String::from_str("PARTIAL")
    } else {
        String::from_str("SUCCESS")
    }
}

/// The error that names a shift instance that nobody could be assigned to.
pub open spec fn unfilled_text(shift_id: i64, day: int) -> Seq<char> {
    "Brak dostępnych pracowników: zmiana "@ + signed_decimal(shift_id as int) + " w dniu "@ + day_text(
        day,
    ) + "."@
}

/// The warning that names a shift instance that is short of staff, and by how much.
pub open spec fn shortfall_text(shift_id: i64, day: int, assigned: nat, required: nat) -> Seq<char> {
    "Niedobór obsady: zmiana "@ + signed_decimal(shift_id as int) + " w dniu "@ + day_text(day)
        + ": przydzielono "@ + decimal(assigned) + " z "@ + decimal(required) + "."@
}

pub fn unfilled_message(shift_id: i64, day: i64) -> (r: String)
    requires
        0 <= day <= LAST_DAY,
    ensures
        r@ == unfilled_text(shift_id, day as int),
{
    let mut out = String::from_str("Brak dostępnych pracowników: zmiana ");
    push_signed(&mut out, shift_id);
    out.append(" w dniu ");
    let date = write_day(day);
    out.append(date.as_str());
    out.append(".");
    out
}

pub fn shortfall_message(shift_id: i64, day: i64, assigned: usize, required: usize) -> (r: String)
    requires
        0 <= day <= LAST_DAY,
    ensures
        r@ == shortfall_text(shift_id, day as int, assigned as nat, required as nat),
{
    let mut out = String::from_str("Niedobór obsady: zmiana ");
    push_signed(&mut out, shift_id);
    out.append(" w dniu ");
    let date = write_day(day);
    out.append(date.as_str());
    out.append(": przydzielono ");
    push_decimal(&mut out, assigned as u64);
    out.append(" z ");
    push_decimal(&mut out, required as u64);
    out.append(".");
    out
}

pub open spec fn record_text(record: Record) -> Seq<char> {
    match record {
        Record::Range => "zakres dat"@,
        Record::Employee => "pracownik"@,
        Record::Shift => "zmiana"@,
        Record::Absence => "nieobecność"@,
        Record::Entry => "wpis grafiku"@,
    }
}

pub open spec fn defect_text(defect: Defect) -> Seq<char> {
    match defect {
        Defect::MalformedDate => "nieprawidłowa data (oczekiwano RRRR-MM-DD)"@,
        Defect::MalformedTime => "nieprawidłowa godzina (oczekiwano GG:MM)"@,
        Defect::WeekdayOutOfRange => "dzień tygodnia spoza zakresu 0-6"@,
        Defect::NegativeStaff => "ujemna liczba wymaganych pracowników"@,
        Defect::EndsBeforeStart => "koniec przed początkiem"@,
        Defect::MissingId => "brak identyfikatora"@,
        Defect::DuplicateId => "powtórzony identyfikator"@,
    }
}

/// The error that names a malformed record: its kind, its position and its defect.
pub open spec fn validation_text(e: ValidationError) -> Seq<char> {
    "Nieprawidłowe dane wejściowe: "@ + record_text(e.record) + " nr "@ + decimal(e.index as nat)
        + ": "@ + defect_text(e.defect) + "."@
}

impl ValidationError {
    /// The error as a line for the result envelope.
    pub fn message(&self) -> (r: String)
        ensures
            r@ == validation_text(*self),
    {
        let mut out = String::from_str("Nieprawidłowe dane wejściowe: ");
        out.append(
            match self.record {
                Record::Range => "zakres dat",
                Record::Employee => "pracownik",
                Record::Shift => "zmiana",
                Record::Absence => "nieobecność",
                Record::Entry => "wpis grafiku",
            },
        );
        out.append(" nr ");
        push_decimal(&mut out, self.index as u64);
        out.append(": ");
        out.append(
            match self.defect {
                Defect::MalformedDate => "nieprawidłowa data (oczekiwano RRRR-MM-DD)",
                Defect::MalformedTime => "nieprawidłowa godzina (oczekiwano GG:MM)",
                Defect::WeekdayOutOfRange => "dzień tygodnia spoza zakresu 0-6",
                Defect::NegativeStaff => "ujemna liczba wymaganych pracowników",
                Defect::EndsBeforeStart => "koniec przed początkiem",
                Defect::MissingId => "brak identyfikatora",
                Defect::DuplicateId => "powtórzony identyfikator",
            },
        );
        out.append(".");
        out
    }
}

/// The result holds nothing but the given error lines, under the status `ERROR`.
pub open spec fn is_failure(r: SolverResult, lines: Seq<Seq<char>>) -> bool {
    &&& r.status@ == "ERROR"@
    &&& r.assignments@.len() == 0
    &&& r.warnings@.len() == 0
    &&& texts(r.errors@) == lines
}

/// A result that reports a failure of the whole run.
pub fn failure(errors: Vec<String>) -> (r: SolverResult)
    ensures
        is_failure(r, texts(errors@)),
        r.errors == errors,
{
    SolverResult {
        status: String::from_str("ERROR"),
        assignments: Vec::new(),
        warnings: Vec::new(),
        errors,
    }
}

/// A result that reports a failure of the whole run in one line.
pub fn one_failure(prefix: &str, rest: &str) -> (r: SolverResult)
    ensures
        is_failure(r, seq![prefix@ + rest@]),
{
    let mut line = String::from_str(prefix);
    line.append(rest);
    let mut lines: Vec<String> = Vec::new();
    proof {
        lemma_texts_push(lines@, line);
        assert(texts(lines@) =~= Seq::<Seq<char>>::empty());
    }
    lines.push(line);
    assert(texts(lines@) =~= seq![prefix@ + rest@]);
    failure(lines)
}

/// A result that reports a failure of the whole run in the given line.
pub fn line_failure(line: &str) -> (r: SolverResult)
    ensures
        is_failure(r, seq![line@]),
{
    let text = String::from_str(line);
    let mut lines: Vec<String> = Vec::new();
    proof {
        lemma_texts_push(lines@, text);
        assert(texts(lines@) =~= Seq::<Seq<char>>::empty());
    }
    lines.push(text);
    assert(texts(lines@) =~= seq![line@]);
    failure(lines)
}

/// A result that rejects a malformed input: one error line, and nothing else.
pub fn rejection(e: ValidationError) -> (r: SolverResult)
    ensures
        is_failure(r, seq![validation_text(e)]),
{
    let mut errors: Vec<String> = Vec::new();
    let line = e.message();
    proof {
        lemma_texts_push(errors@, line);
        assert(texts(errors@) =~= Seq::<Seq<char>>::empty());
    }
    errors.push(line);
    assert(texts(errors@) =~= seq![validation_text(e)]);
    failure(errors)
}

/// The entry says what the placement says: the identifiers of its worker and
/// its shift definition, and the date of its day.
pub open spec fn entry_matches(snap: Snapshot, e: ScheduleEntry, p: Placement) -> bool {
    &&& e.id is None
    &&& e.employee_id == snap.workers[p.worker as int].id
    &&& e.shift_id == snap.templates[p.template as int].id
    &&& e.date@ == day_text(p.day as int)
    &&& parse_day(e.date@) == Some(p.day as int)
}

/// The warnings of a schedule: one for each instance, in staffing order, that has
/// some of the staff that it requires and not all.
pub open spec fn shortfalls(snap: Snapshot, insts: Seq<Instance>, ps: Seq<Placement>) -> Seq<Seq<char>>
    decreases insts.len(),
{
    if insts.len() == 0 {
        Seq::empty()
    } else {
        let rest = shortfalls(snap, insts.drop_last(), ps);
        let i = insts.last();
        let have = coverage(ps, i.template as int, i.day as int);
        let need = snap.templates[i.template as int].required as nat;
        if 0 < have < need {
            rest.push(shortfall_text(snap.templates[i.template as int].id, i.day as int, have, need))
        } else {
            rest
        }
    }
}

/// The errors of a schedule: one for each instance, in staffing order, that
/// requires staff and has none.
pub open spec fn unfilled(snap: Snapshot, insts: Seq<Instance>, ps: Seq<Placement>) -> Seq<Seq<char>>
    decreases insts.len(),
{
    if insts.len() == 0 {
        Seq::empty()
    } else {
        let rest = unfilled(snap, insts.drop_last(), ps);
        let i = insts.last();
        let have = coverage(ps, i.template as int, i.day as int);
        let need = snap.templates[i.template as int].required as nat;
        if have == 0 && need > 0 {
            rest.push(unfilled_text(snap.templates[i.template as int].id, i.day as int))
        } else {
            rest
        }
    }
}

/// The result reports the schedule `ps` of the snapshot.
pub open spec fn is_report(snap: Snapshot, ps: Seq<Placement>, r: SolverResult) -> bool {
    &&& r.assignments@.len() == ps.len()
    &&& forall|k: int| 0 <= k < ps.len() ==> entry_matches(snap, #[trigger] r.assignments@[k], ps[k])
    &&& texts(r.warnings@) == shortfalls(snap, instances(snap), ps)
    &&& texts(r.errors@) == unfilled(snap, instances(snap), ps)
    &&& r.status@ == status_text(r.errors@.len(), r.warnings@.len())
}

/// Some instance requires staff and has none.
pub open spec fn some_unfilled(snap: Snapshot, ps: Seq<Placement>) -> bool {
    exists|t: int, d: int|
        is_instance(snap, t, d) && #[trigger] coverage(ps, t, d) == 0 && snap.templates[t].required > 0
}

/// There is an error exactly where an instance requires staff and has none.
pub proof fn lemma_unfilled_empty(snap: Snapshot, insts: Seq<Instance>, ps: Seq<Placement>)
    ensures
        unfilled(snap, insts, ps).len() == 0 <==> forall|k: int|
            0 <= k < insts.len() ==> !(coverage(
                ps,
                (#[trigger] insts[k]).template as int,
                insts[k].day as int,
            ) == 0 && snap.templates[insts[k].template as int].required > 0),
    decreases insts.len(),
{
    if insts.len() > 0 {
        let front = insts.drop_last();
        lemma_unfilled_empty(snap, front, ps);
        assert forall|k: int| 0 <= k < front.len() implies front[k] == insts[k] by {}
        if unfilled(snap, insts, ps).len() == 0 {
            assert forall|k: int| 0 <= k < insts.len() implies !(coverage(
                ps,
                (#[trigger] insts[k]).template as int,
                insts[k].day as int,
            ) == 0 && snap.templates[insts[k].template as int].required > 0) by {
                if k < front.len() {
                    assert(front[k] == insts[k]);
                }
            }
        } else {
            if unfilled(snap, front, ps).len() != 0 {
                let k = choose|k: int|
                    0 <= k < front.len() && (coverage(
                        ps,
                        (#[trigger] front[k]).template as int,
                        front[k].day as int,
                    ) == 0 && snap.templates[front[k].template as int].required > 0);
                assert(insts[k] == front[k]);
            } else {
                let k = insts.len() - 1;
                assert(insts[k] == insts.last());
            }
        }
    }
}

/// There is a warning exactly where an instance has some of its staff and not all.
pub proof fn lemma_shortfalls_empty(snap: Snapshot, insts: Seq<Instance>, ps: Seq<Placement>)
    ensures
        shortfalls(snap, insts, ps).len() == 0 <==> forall|k: int|
            0 <= k < insts.len() ==> !(0 < coverage(
                ps,
                (#[trigger] insts[k]).template as int,
                insts[k].day as int,
            ) < snap.templates[insts[k].template as int].required),
    decreases insts.len(),
{
    if insts.len() > 0 {
        let front = insts.drop_last();
        lemma_shortfalls_empty(snap, front, ps);
        assert forall|k: int| 0 <= k < front.len() implies front[k] == insts[k] by {}
        if shortfalls(snap, insts, ps).len() == 0 {
            assert forall|k: int| 0 <= k < insts.len() implies !(0 < coverage(
                ps,
                (#[trigger] insts[k]).template as int,
                insts[k].day as int,
            ) < snap.templates[insts[k].template as int].required) by {
                if k < front.len() {
                    assert(front[k] == insts[k]);
                }
            }
        } else {
            if shortfalls(snap, front, ps).len() != 0 {
                let k = choose|k: int|
                    0 <= k < front.len() && (0 < coverage(
                        ps,
                        (#[trigger] front[k]).template as int,
                        front[k].day as int,
                    ) < snap.templates[front[k].template as int].required);
                assert(insts[k] == front[k]);
            } else {
                let k = insts.len() - 1;
                assert(insts[k] == insts.last());
            }
        }
    }
}

/// What the status of a report says of its schedule: `SUCCESS` exactly where
/// every instance is fully staffed, `ERROR` exactly where some instance that
/// requires staff has none, `PARTIAL` otherwise.
pub proof fn lemma_status_meaning(snap: Snapshot, insts: Seq<Instance>, ps: Seq<Placement>)
    requires
        is_roster(snap, insts),
        within_staffing(snap, ps),
    ensures
        status_text(unfilled(snap, insts, ps).len(), shortfalls(snap, insts, ps).len()) == "SUCCESS"@
            <==> fully_staffed(snap, ps),
        status_text(unfilled(snap, insts, ps).len(), shortfalls(snap, insts, ps).len()) == "ERROR"@
            <==> some_unfilled(snap, ps),
{
    lemma_status_texts_differ();
    lemma_unfilled_empty(snap, insts, ps);
    lemma_shortfalls_empty(snap, insts, ps);
    if some_unfilled(snap, ps) {
        let (t, d) = choose|t: int, d: int|
            is_instance(snap, t, d) && #[trigger] coverage(ps, t, d) == 0 && snap.templates[t].required
                > 0;
        let k = choose|k: int|
            0 <= k < insts.len() && (#[trigger] insts[k]).template == t && insts[k].day == d;
        assert(unfilled(snap, insts, ps).len() != 0);
    }
    if unfilled(snap, insts, ps).len() != 0 {
        let k = choose|k: int|
            0 <= k < insts.len() && (coverage(
                ps,
                (#[trigger] insts[k]).template as int,
                insts[k].day as int,
            ) == 0 && snap.templates[insts[k].template as int].required > 0);
        assert(is_instance(snap, insts[k].template as int, insts[k].day as int));
        assert(some_unfilled(snap, ps));
    }
    if fully_staffed(snap, ps) {
        assert forall|k: int| 0 <= k < insts.len() implies !(coverage(
            ps,
            (#[trigger] insts[k]).template as int,
            insts[k].day as int,
        ) == 0 && snap.templates[insts[k].template as int].required > 0) by {
            assert(is_instance(snap, insts[k].template as int, insts[k].day as int));
        }
        assert forall|k: int| 0 <= k < insts.len() implies !(0 < coverage(
            ps,
            (#[trigger] insts[k]).template as int,
            insts[k].day as int,
        ) < snap.templates[insts[k].template as int].required) by {
            assert(is_instance(snap, insts[k].template as int, insts[k].day as int));
        }
    }
    if unfilled(snap, insts, ps).len() == 0 && shortfalls(snap, insts, ps).len() == 0 {
        assert forall|t: int, d: int| is_instance(snap, t, d) implies #[trigger] coverage(ps, t, d)
            == snap.templates[t].required by {
            let k = choose|k: int|
                0 <= k < insts.len() && (#[trigger] insts[k]).template == t && insts[k].day == d;
            assert(coverage(ps, insts[k].template as int, insts[k].day as int) <= snap.templates[t].required);
        }
    }
}

/// Reports a feasible schedule of the snapshot.
pub fn report(p: &Problem, placed: &Vec<Placement>) -> (r: SolverResult)
    requires
        p@.wf(),
        feasible(p@, placed@),
    ensures
        is_report(p@, placed@, r),
{
    let insts = expand(p);
    let mut assignments: Vec<ScheduleEntry> = Vec::new();
    let mut k: usize = 0;
    while k < placed.len()
        invariant
            0 <= k <= placed.len(),
            p@.wf(),
            feasible(p@, placed@),
            assignments.len() == k,
            forall|i: int| 0 <= i < k ==> entry_matches(p@, #[trigger] assignments@[i], placed@[i]),
        decreases placed.len() - k,
    {
        let pl = placed[k];
        assert(crate::rules::allowed(p@, placed@[k as int]));
        assignments.push(
            ScheduleEntry {
                id: None,
                employee_id: p.workers[pl.worker].id,
                date: write_day(pl.day),
                shift_id: p.templates[pl.template].id,
            },
        );
        k += 1;
    }
    let mut warnings: Vec<String> = Vec::new();
    let mut errors: Vec<String> = Vec::new();
    let mut i: usize = 0;
    assert(insts@.take(0) =~= Seq::<Instance>::empty());
    assert(texts(warnings@) =~= Seq::<Seq<char>>::empty());
    assert(texts(errors@) =~= Seq::<Seq<char>>::empty());
    while i < insts.len()
        invariant
            0 <= i <= insts.len(),
            p@.wf(),
            is_roster(p@, insts@),
            texts(warnings@) == shortfalls(p@, insts@.take(i as int), placed@),
            texts(errors@) == unfilled(p@, insts@.take(i as int), placed@),
        decreases insts.len() - i,
    {
        let inst = insts[i];
        assert(is_instance(p@, insts@[i as int].template as int, insts@[i as int].day as int));
        let have = count_coverage(placed, inst.template, inst.day);
        let need = p.templates[inst.template].required;
        let shift_id = p.templates[inst.template].id;
        proof {
            assert(insts@.take(i + 1).drop_last() =~= insts@.take(i as int));
            assert(insts@.take(i + 1).last() == insts@[i as int]);
        }
        if have == 0 && need > 0 {
            let line = unfilled_message(shift_id, inst.day);
            proof {
                lemma_texts_push(errors@, line);
            }
            errors.push(line);
        } else if 0 < have && have < need {
            let line = shortfall_message(shift_id, inst.day, have, need);
            proof {
                lemma_texts_push(warnings@, line);
            }
            warnings.push(line);
        }
        i += 1;
    }
    assert(insts@.take(insts.len() as int) =~= insts@);
    let status = status_for(errors.len(), warnings.len());
    SolverResult { status, assignments, warnings, errors }
}

} // verus!
