//! The operations of the scheduling assistant and their envelopes.

use vstd::prelude::*;
use vstd::string::*;
pub use crate::export::{export_schedule_csv, export_schedule_pdf_html};
use crate::calendar::{parse_day, read_day};
use crate::engine::{plan, plan_of};
use crate::models::{Absence, Defect, Employee, ScheduleEntry, Shift};
use crate::delegated::{
    check_answer,
    details_text,
    gemini_prompt,
    gemini_url,
    is_delegated_result,
    known_status,
    missing_key,
    missing_key_lines,
    prompt_text,
    refused_text,
    url_text,
    DelegatedCall,
    DelegatedReply,
    Delegation,
};
use crate::laws::{
    lemma_delegated_error_has_reason,
    lemma_gemini_step_has_reason,
    lemma_local_error_has_reason,
    lemma_report_is_sound,
    lemma_sound_entries_obey,
    lemma_step_error_has_reason,
};
use crate::problem::{acceptable, compile, is_first_error, range_error, snapshot_of, Record, ValidationError};
use crate::report::{
    entry_matches,
    failure,
    is_failure,
    is_report,
    lemma_status_meaning,
    lemma_texts_push,
    one_failure,
    rejection,
    report,
    some_unfilled,
    texts,
    validation_text,
};
use crate::roster::{instances, lemma_instances_are_roster};
use crate::rules::{
    allowed,
    feasible,
    fully_staffed,
    saturated,
    within_staffing,
};

verus! {

/// What one solving run is given.
#[derive(Debug)]
pub struct SolverInput {
    pub employees: Vec<Employee>,
    pub shifts: Vec<Shift>,
    pub absences: Vec<Absence>,
    pub date_range: DateRange,
}

/// A range of dates, both ends included, each written `YYYY-MM-DD`.
#[derive(Debug)]
pub struct DateRange {
    pub start_date: String,
    pub end_date: String,
}

/// What one solving run gives back.
#[derive(Debug)]
pub struct SolverResult {
    /// `SUCCESS`, `PARTIAL` or `ERROR`.
    pub status: String,
    pub assignments: Vec<ScheduleEntry>,
    pub warnings: Vec<String>,
    pub errors: Vec<String>,
}

impl DateRange {
    /// The first thing wrong with the range, if any. A range that ends before
    /// it starts is well formed, and empty.
    pub open spec fn defect(self) -> Option<Defect> {
        if parse_day(self.start_date@) is None || parse_day(self.end_date@) is None {
            Some(Defect::MalformedDate)
        } else {
            None
        }
    }

    pub fn check(&self) -> (r: Option<Defect>)
        ensures
            r == self.defect(),
    {
        if read_day(self.start_date.as_str()).is_none() || read_day(self.end_date.as_str()).is_none() {
            Some(Defect::MalformedDate)
        } else {
            None
        }
    }

    /// Makes a range of dates, or says what is wrong with it.
    pub fn new(start_date: String, end_date: String) -> (r: Result<DateRange, Defect>)
        ensures
            match (DateRange { start_date, end_date }).defect() {
                Some(d) => r == Err::<DateRange, Defect>(d),
                None => r == Ok::<DateRange, Defect>(DateRange { start_date, end_date }),
            },
    {
        let range = DateRange { start_date, end_date };
        match range.check() {
            Some(d) => Err(d),
            None => Ok(range),
        }
    }
}

/// How many backtracks a run of the local solver is allowed where the caller sets no limit.
pub const DEFAULT_BACKTRACK_LIMIT: u64 = 1000;

/// No employee has two entries on one date.
pub open spec fn one_shift_per_day(entries: Seq<ScheduleEntry>) -> bool {
    forall|i: int, j: int|
        0 <= i < j < entries.len() ==> !((#[trigger] entries[i]).employee_id == (
        #[trigger] entries[j]).employee_id && entries[i].date@ == entries[j].date@)
}

/// No entry falls within an absence of its employee.
pub open spec fn clear_of_absences(entries: Seq<ScheduleEntry>, absences: Seq<Absence>) -> bool {
    forall|i: int, a: int|
        0 <= i < entries.len() && 0 <= a < absences.len() && (#[trigger] absences[a]).employee_id == (
        #[trigger] entries[i]).employee_id ==> !(parse_day(absences[a].start_date@)->0 <= parse_day(
            entries[i].date@,
        )->0 <= parse_day(absences[a].end_date@)->0)
}

/// Every entry names an employee of the list, and an active one.
pub open spec fn only_active(entries: Seq<ScheduleEntry>, employees: Seq<Employee>) -> bool {
    forall|i: int|
        0 <= i < entries.len() ==> exists|k: int|
            0 <= k < employees.len() && (#[trigger] employees[k]).id == Some(
                (#[trigger] entries[i]).employee_id,
            ) && employees[k].active()
}

/// What the local solver returns for an input and a limit on its backtracks:
/// the report of the schedule that the engine makes of the snapshot, or, for
/// an input with a malformed record, the rejection that names the first one.
pub open spec fn is_local_result(input: SolverInput, limit: nat, r: SolverResult) -> bool {
    if acceptable(input) {
        is_report(snapshot_of(input), plan_of(snapshot_of(input), limit), r)
    } else {
        exists|e: ValidationError| #[trigger] is_first_error(input, e) && is_failure(r, seq![validation_text(e)])
    }
}

/// What the rules say of a result of the local solver for an acceptable
/// input: its schedule obeys every hard rule, staffs no shift instance beyond
/// its need and leaves none short that a worker could join; no employee has
/// two entries on one date, no entry falls within an absence of its employee,
/// and every entry names an active employee; the status is `SUCCESS` exactly
/// where every instance is fully staffed, and `ERROR` exactly where some
/// instance that requires staff has none.
pub open spec fn obeys_rules(input: SolverInput, limit: nat, r: SolverResult) -> bool {
    acceptable(input) ==> {
        let snap = snapshot_of(input);
        let ps = plan_of(snap, limit);
        &&& instances(snap).len() <= usize::MAX
        &&& feasible(snap, ps)
        &&& within_staffing(snap, ps)
        &&& saturated(snap, ps)
        &&& one_shift_per_day(r.assignments@)
        &&& clear_of_absences(r.assignments@, input.absences@)
        &&& only_active(r.assignments@, input.employees@)
        &&& (r.status@ == "SUCCESS"@ <==> fully_staffed(snap, ps))
        &&& (r.status@ == "ERROR"@ <==> some_unfilled(snap, ps))
    }
}

/// The result has one of the three statuses, and with the status `ERROR` it says why.
pub open spec fn says_why(r: SolverResult) -> bool {
    known_status(r.status@) && (r.status@ == "ERROR"@ ==> r.errors@.len() > 0)
}

/// Solves the snapshot within the process: validates the input, searches for a
/// schedule with at most `max_backtracks` backtracks, and reports it.
pub fn solve_local(input: &SolverInput, max_backtracks: u64) -> (r: SolverResult)
    ensures
        is_local_result(*input, max_backtracks as nat, r),
        obeys_rules(*input, max_backtracks as nat, r),
        says_why(r),
{
    match compile(input) {
        Err(e) => {
            let r = rejection(e);
            proof {
                lemma_error_excludes(*input, e);
                lemma_local_error_has_reason(*input, max_backtracks as nat, r);
            }
            r
        },
        Ok(p) => {
            let placed = plan(&p, max_backtracks);
            let r = report(&p, &placed);
            proof {
                assert forall|k: int| 0 <= k < r.assignments@.len() implies (
                #[trigger] r.assignments@[k]).defect() is None by {
                    assert(entry_matches(p@, r.assignments@[k], placed@[k]));
                }
                lemma_report_is_sound(p@, placed@, r.assignments@);
                lemma_sound_entries_obey(*input, r.assignments@);
                lemma_instances_are_roster(p@);
                lemma_status_meaning(p@, instances(p@), placed@);
                assert(texts(r.warnings@).len() == r.warnings@.len());
                assert(texts(r.errors@).len() == r.errors@.len());
                lemma_local_error_has_reason(*input, max_backtracks as nat, r);
            }
            r
        },
    }
}

/// An input that has a first malformed record is not acceptable.
pub proof fn lemma_error_excludes(input: SolverInput, e: ValidationError)
    requires
        is_first_error(input, e),
    ensures
        !acceptable(input),
{
    match e.record {
        crate::problem::Record::Absence => {
            assert(input.absences@[e.index as int].defect() is Some);
        },
        _ => {},
    }
}

/// Runs the local solver on a snapshot with the default limit on backtracks.
pub fn run_local_solver(input: &SolverInput) -> (r: Result<SolverResult, String>)
    ensures
        r matches Ok(result) && is_local_result(*input, DEFAULT_BACKTRACK_LIMIT as nat, result)
            && obeys_rules(*input, DEFAULT_BACKTRACK_LIMIT as nat, result) && says_why(result),
{
    Ok(solve_local(input, DEFAULT_BACKTRACK_LIMIT))
}

/// How a snapshot is to be solved.
#[derive(Debug)]
pub enum Strategy {
    /// By the engine of this library, with a limit on its backtracks.
    Local { max_backtracks: u64 },
    /// By the external service, which is sent the serialized snapshot and
    /// reached with the credential.
    Delegated { api_key: Option<String>, snapshot: String },
}

/// The credential is there and not empty.
pub open spec fn usable_key(api_key: Option<String>) -> bool {
    api_key matches Some(key) && key@.len() > 0
}

/// Whether the credential is there and not empty.
pub fn has_usable_key(api_key: &Option<String>) -> (r: bool)
    ensures
        r == usable_key(*api_key),
{
    match api_key {
        Some(key) => !key.as_str().is_empty(),
        None => false,
    }
}

/// What the caller is told to send: the address with the credential, and the
/// task description for the range with the serialized snapshot.
pub open spec fn is_call(
    start_date: Seq<char>,
    end_date: Seq<char>,
    snapshot: Seq<char>,
    api_key: Option<String>,
    r: Delegation,
) -> bool {
    r matches Delegation::Call(call) && call.url@ == url_text(api_key->0@) && call.prompt@ == prompt_text(
        start_date,
        end_date,
        snapshot,
    )
}

/// The first step of a delegated run. Without a usable credential it ends in
/// a failure. With one, a range with a malformed date is rejected, with its
/// one error and without a call; for any other range the caller is told
/// what to send.
pub open spec fn is_gemini_step(
    start_date: Seq<char>,
    end_date: Seq<char>,
    snapshot: Seq<char>,
    api_key: Option<String>,
    r: Delegation,
) -> bool {
    if !usable_key(api_key) {
        r matches Delegation::Finished(result) && is_failure(result, missing_key_lines())
    } else {
        match range_error(start_date, end_date) {
            Some(e) => r matches Delegation::Finished(result) && is_failure(
                result,
                seq![validation_text(e)],
            ),
            None => is_call(start_date, end_date, snapshot, api_key, r),
        }
    }
}

/// Starts a run of the delegated solver for a range of dates.
pub fn run_gemini_solver(
    start_date: String,
    end_date: String,
    snapshot: String,
    api_key: Option<String>,
) -> (r: Delegation)
    ensures
        is_gemini_step(start_date@, end_date@, snapshot@, api_key, r),
        r matches Delegation::Finished(result) ==> says_why(result),
{
    let r = if !has_usable_key(&api_key) {
        Delegation::Finished(missing_key())
    } else if read_day(start_date.as_str()).is_none() {
        Delegation::Finished(
            rejection(ValidationError { record: Record::Range, index: 0, defect: Defect::MalformedDate }),
        )
    } else if read_day(end_date.as_str()).is_none() {
        Delegation::Finished(
            rejection(ValidationError { record: Record::Range, index: 1, defect: Defect::MalformedDate }),
        )
    } else {
        match &api_key {
            Some(key) => Delegation::Call(
                DelegatedCall {
                    url: gemini_url(key.as_str()),
                    prompt: gemini_prompt(start_date.as_str(), end_date.as_str(), snapshot.as_str()),
                },
            ),
            None => Delegation::Finished(missing_key()),
        }
    };
    proof {
        lemma_gemini_step_has_reason(start_date@, end_date@, snapshot@, api_key, r);
    }
    r
}

/// Ends a run of the delegated solver: a failed call becomes a failure with
/// its reason, and an answer is checked against the snapshot before it is
/// trusted.
pub fn finish_gemini_solver(input: &SolverInput, reply: DelegatedReply) -> (r: SolverResult)
    ensures
        is_delegated_result(*input, reply, r),
        says_why(r),
{
    let ghost asked = reply;
    let r = match reply {
        DelegatedReply::Unreachable { reason } => one_failure(
            "Błąd połączenia z Gemini API: ",
            reason.as_str(),
        ),
        DelegatedReply::Refused { status, details } => {
            let mut first = String::from_str("Błąd API Gemini (kod: ");
            first.append(status.as_str());
            first.append(")");
            let mut second = String::from_str("Szczegóły: ");
            second.append(details.as_str());
            let mut lines: Vec<String> = Vec::new();
            proof {
                assert(texts(lines@) =~= Seq::<Seq<char>>::empty());
                lemma_texts_push(lines@, first);
                lemma_texts_push(lines@.push(first), second);
            }
            lines.push(first);
            lines.push(second);
            assert(texts(lines@) =~= seq![refused_text(status@), details_text(details@)]);
            failure(lines)
        },
        DelegatedReply::Unreadable { reason } => one_failure(
            "Błąd parsowania odpowiedzi Gemini: ",
            reason.as_str(),
        ),
        DelegatedReply::Answer { result } => check_answer(input, result),
    };
    proof {
        lemma_delegated_error_has_reason(*input, asked, r);
    }
    r
}

/// What the first step of a solving run gives, by strategy. The local
/// strategy gives its result. The delegated one ends in a failure without a
/// usable credential; with one, an input with a malformed record is rejected
/// as its first malformed record is, without a call; for any other input the
/// caller is told what to send.
pub open spec fn is_solve_step(input: SolverInput, strategy: Strategy, r: Delegation) -> bool {
    match strategy {
        Strategy::Local { max_backtracks } => r matches Delegation::Finished(result) && is_local_result(
            input,
            max_backtracks as nat,
            result,
        ) && obeys_rules(input, max_backtracks as nat, result),
        Strategy::Delegated { api_key, snapshot } => if !usable_key(api_key) {
            r matches Delegation::Finished(result) && is_failure(result, missing_key_lines())
        } else if !acceptable(input) {
            r matches Delegation::Finished(result) && exists|e: ValidationError| #[trigger]
                is_first_error(input, e) && is_failure(result, seq![validation_text(e)])
        } else {
            is_call(input.date_range.start_date@, input.date_range.end_date@, snapshot@, api_key, r)
        },
    }
}

/// Solves a snapshot by the strategy chosen. The local strategy finishes at
/// once; the delegated one tells the caller what to send, and ends with
/// `finish_gemini_solver`.
pub fn solve(input: &SolverInput, strategy: Strategy) -> (r: Delegation)
    ensures
        is_solve_step(*input, strategy, r),
        r matches Delegation::Finished(result) ==> says_why(result),
{
    let ghost chosen = strategy;
    let r = match strategy {
        Strategy::Local { max_backtracks } => Delegation::Finished(solve_local(input, max_backtracks)),
        Strategy::Delegated { api_key, snapshot } => {
            if !has_usable_key(&api_key) {
                Delegation::Finished(missing_key())
            } else {
                match compile(input) {
                    Err(e) => {
                        proof {
                            lemma_error_excludes(*input, e);
                        }
                        Delegation::Finished(rejection(e))
                    },
                    Ok(_) => run_gemini_solver(
                        input.date_range.start_date.clone(),
                        input.date_range.end_date.clone(),
                        snapshot,
                        api_key,
                    ),
                }
            }
        },
    };
    proof {
        lemma_step_error_has_reason(*input, chosen, r);
    }
    r
}

} // verus!
