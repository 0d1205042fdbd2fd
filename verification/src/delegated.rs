//! The delegated strategy: what is sent to the external text-generation
//! service, and what is made of its reply.
//!
//! The library makes no call itself. It says what to send; the caller sends
//! it and hands back what came of it.

use vstd::prelude::*;
use vstd::string::*;
use crate::calendar::{day_text, write_day, LAST_DAY};
use crate::commands::{SolverInput, SolverResult};
use crate::evaluator::{
    claims_of,
    days_in_range,
    evaluate,
    is_evaluation,
    is_first_bad_entry,
    no_hard,
    ConstraintKind,
    Severity,
    Violation,
};
use crate::laws::sound;
use crate::problem::{acceptable, is_first_error, snapshot_of, ValidationError};
use crate::report::{
    failure,
    is_failure,
    lemma_texts_push,
    line_failure,
    one_failure,
    rejection,
    texts,
    validation_text,
};
use crate::text::{push_signed, same_text, signed_decimal};

verus! {

/// A request that the caller is to send to the service.
#[derive(Debug)]
pub struct DelegatedCall {
    /// The address, with the credential in it.
    pub url: String,
    /// The task description and the serialized snapshot.
    pub prompt: String,
}

/// What came of the request.
#[derive(Debug)]
pub enum DelegatedReply {
    /// The service could not be reached, or the call was cut short.
    Unreachable { reason: String },
    /// The service answered with a status other than success.
    Refused { status: String, details: String },
    /// The answer does not have the shape of a result.
    Unreadable { reason: String },
    /// The answer has the shape of a result.
    Answer { result: SolverResult },
}

/// What the caller is to do after a step of a solving run.
#[derive(Debug)]
pub enum Delegation {
    /// Nothing: this is the result.
    Finished(SolverResult),
    /// Send the request, and hand the reply to `finish_gemini_solver`.
    Call(DelegatedCall),
}

/// The task description for the range of dates, followed by the serialized snapshot.
pub open spec fn prompt_text(start_date: Seq<char>, end_date: Seq<char>, snapshot: Seq<char>) -> Seq<char> {
    "Jesteś asystentem do planowania grafików pracowniczych. Wygeneruj optymalny grafik dla okresu od "@
        + start_date + " do "@ + end_date
        + ". Zasady:\n- Każda zmiana musi mieć wymaganą liczbę pracowników\n- Pracownik nie może pracować podczas nieobecności\n- Zachowaj 11-godzinny odpoczynek między zmianami\n- Jeden pracownik może mieć maksymalnie jedną zmianę dziennie\n\nZwróć odpowiedź w formacie JSON zgodnym z SolverResult.\n\nDane wejściowe:\n"@
        + snapshot
}

/// The address of the service for a credential.
pub open spec fn url_text(api_key: Seq<char>) -> Seq<char> {
    "https://generativelanguage.googleapis.com/v1beta/models/gemini-pro:generateContent?key="@ + api_key
}

/// The errors of a run that has no credential.
pub open spec fn missing_key_lines() -> Seq<Seq<char>> {
    seq![
        "Brak klucza API Gemini."@,
        "Ustaw zmienną środowiskową GEMINI_API_KEY lub dodaj klucz w pliku .env"@,
        "Klucz można wygenerować na: https://makersuite.google.com/app/apikey"@,
    ]
}

pub open spec fn unreachable_text(reason: Seq<char>) -> Seq<char> {
    "Błąd połączenia z Gemini API: "@ + reason
}

pub open spec fn refused_text(status: Seq<char>) -> Seq<char> {
    "Błąd API Gemini (kod: "@ + status + ")"@
}

pub open spec fn details_text(details: Seq<char>) -> Seq<char> {
    "Szczegóły: "@ + details
}

pub open spec fn unreadable_text(reason: Seq<char>) -> Seq<char> {
    "Błąd parsowania odpowiedzi Gemini: "@ + reason
}

pub open spec fn unknown_status_text(status: Seq<char>) -> Seq<char> {
    "Odpowiedź Gemini ma nieznany status: "@ + status
}

pub open spec fn no_reason_text() -> Seq<char> {
    "Odpowiedź Gemini ma status ERROR, ale nie podaje przyczyny."@
}

/// The status is one of the three that a result can have.
pub open spec fn known_status(status: Seq<char>) -> bool {
    status == "SUCCESS"@ || status == "PARTIAL"@ || status == "ERROR"@
}

pub open spec fn kind_text(kind: ConstraintKind) -> Seq<char> {
    match kind {
        ConstraintKind::Staffing => "obsada zmiany"@,
        ConstraintKind::Absence => "nieobecność"@,
        ConstraintKind::OneShiftPerDay => "jedna zmiana dziennie"@,
        ConstraintKind::MinimumRest => "odpoczynek 11 godzin"@,
        ConstraintKind::ActiveStatus => "status pracownika"@,
    }
}

/// The line that describes a violation: the rule, the employee if there is
/// one, the shift and the date.
pub open spec fn violation_text(v: Violation) -> Seq<char> {
    let head = "Naruszenie ograniczenia ("@ + kind_text(v.kind) + ")"@;
    let who = match v.employee_id {
        Some(id) => head + ": pracownik "@ + signed_decimal(id as int) + ", zmiana "@,
        None => head + ": zmiana "@,
    };
    who + signed_decimal(v.shift_id as int) + " w dniu "@ + day_text(v.day as int) + "."@
}

impl Violation {
    /// The violation as a line for the result envelope.
    pub fn describe(&self) -> (r: String)
        requires
            0 <= self.day <= LAST_DAY,
        ensures
            r@ == violation_text(*self),
    {
        let mut out = String::from_str("Naruszenie ograniczenia (");
        out.append(
            match self.kind {
                ConstraintKind::Staffing => "obsada zmiany",
                ConstraintKind::Absence => "nieobecność",
                ConstraintKind::OneShiftPerDay => "jedna zmiana dziennie",
                ConstraintKind::MinimumRest => "odpoczynek 11 godzin",
                ConstraintKind::ActiveStatus => "status pracownika",
            },
        );
        out.append(")");
        match self.employee_id {
            Some(id) => {
                out.append(": pracownik ");
                push_signed(&mut out, id);
                out.append(", zmiana ");
            },
            None => {
                out.append(": zmiana ");
            },
        }
        push_signed(&mut out, self.shift_id);
        out.append(" w dniu ");
        let date = write_day(self.day);
        out.append(date.as_str());
        out.append(".");
        out
    }
}

/// The lines of the hard violations of a list, in its order.
pub open spec fn hard_lines(vs: Seq<Violation>) -> Seq<Seq<char>>
    decreases vs.len(),
{
    if vs.len() == 0 {
        Seq::empty()
    } else if vs.last().severity is Hard {
        hard_lines(vs.drop_last()).push(violation_text(vs.last()))
    } else {
        hard_lines(vs.drop_last())
    }
}

/// A list without hard violations has no lines, and the other way round.
pub proof fn lemma_hard_lines_empty(vs: Seq<Violation>)
    ensures
        hard_lines(vs).len() == 0 <==> no_hard(vs),
    decreases vs.len(),
{
    if vs.len() > 0 {
        let front = vs.drop_last();
        lemma_hard_lines_empty(front);
        if no_hard(vs) {
            assert forall|i: int| 0 <= i < front.len() implies (#[trigger] front[i]).severity is Soft by {
                assert(front[i] == vs[i]);
            }
            assert(vs[vs.len() - 1].severity is Soft);
        }
        if hard_lines(vs).len() == 0 {
            assert forall|i: int| 0 <= i < vs.len() implies (#[trigger] vs[i]).severity is Soft by {
                if i < front.len() {
                    assert(front[i] == vs[i]);
                }
            }
        }
    }
}

fn describe_hard(vs: &Vec<Violation>) -> (r: Vec<String>)
    requires
        days_in_range(vs@),
    ensures
        texts(r@) == hard_lines(vs@),
{
    let mut lines: Vec<String> = Vec::new();
    let mut i: usize = 0;
    assert(vs@.take(0) =~= Seq::<Violation>::empty());
    assert(texts(lines@) =~= Seq::<Seq<char>>::empty());
    while i < vs.len()
        invariant
            0 <= i <= vs.len(),
            days_in_range(vs@),
            texts(lines@) == hard_lines(vs@.take(i as int)),
        decreases vs.len() - i,
    {
        proof {
            assert(vs@.take(i + 1).drop_last() =~= vs@.take(i as int));
            assert(vs@.take(i + 1).last() == vs@[i as int]);
        }
        match vs[i].severity {
            Severity::Hard => {
                let line = vs[i].describe();
                proof {
                    lemma_texts_push(lines@, line);
                }
                lines.push(line);
            },
            Severity::Soft => {},
        }
        i += 1;
    }
    assert(vs@.take(vs.len() as int) =~= vs@);
    lines
}

/// Writes the task description and the snapshot that the service is to be sent.
pub fn gemini_prompt(start_date: &str, end_date: &str, snapshot: &str) -> (r: String)
    ensures
        r@ == prompt_text(start_date@, end_date@, snapshot@),
{
    let mut out = String::from_str(
        "Jesteś asystentem do planowania grafików pracowniczych. Wygeneruj optymalny grafik dla okresu od ",
    );
    out.append(start_date);
    out.append(" do ");
    out.append(end_date);
    out.append(
        ". Zasady:\n- Każda zmiana musi mieć wymaganą liczbę pracowników\n- Pracownik nie może pracować podczas nieobecności\n- Zachowaj 11-godzinny odpoczynek między zmianami\n- Jeden pracownik może mieć maksymalnie jedną zmianę dziennie\n\nZwróć odpowiedź w formacie JSON zgodnym z SolverResult.\n\nDane wejściowe:\n",
    );
    out.append(snapshot);
    out
}

/// Writes the address of the service for a credential.
pub fn gemini_url(api_key: &str) -> (r: String)
    ensures
        r@ == url_text(api_key@),
{
    let mut out = String::from_str(
        "https://generativelanguage.googleapis.com/v1beta/models/gemini-pro:generateContent?key=",
    );
    out.append(api_key);
    out
}

/// The result of a run that has no credential.
pub fn missing_key() -> (r: SolverResult)
    ensures
        is_failure(r, missing_key_lines()),
{
    let mut lines: Vec<String> = Vec::new();
    let a = String::from_str("Brak klucza API Gemini.");
    let b = String::from_str("Ustaw zmienną środowiskową GEMINI_API_KEY lub dodaj klucz w pliku .env");
    let c = String::from_str("Klucz można wygenerować na: https://makersuite.google.com/app/apikey");
    proof {
        assert(texts(lines@) =~= Seq::<Seq<char>>::empty());
        lemma_texts_push(lines@, a);
        lemma_texts_push(lines@.push(a), b);
        lemma_texts_push(lines@.push(a).push(b), c);
    }
    lines.push(a);
    lines.push(b);
    lines.push(c);
    assert(texts(lines@) =~= missing_key_lines());
    failure(lines)
}

/// What is made of an answer that has the shape of a result: with an unknown
/// status it is refused, and so is one with the status `ERROR` that gives no
/// reason; with a malformed record in the snapshot or among its
/// entries it is rejected as that record is; with a hard violation among its
/// entries the violations are listed; else it is the result.
pub open spec fn is_checked_answer(input: SolverInput, answer: SolverResult, r: SolverResult) -> bool {
    let entries = answer.assignments@;
    let snap = snapshot_of(input);
    if !known_status(answer.status@) {
        is_failure(r, seq![unknown_status_text(answer.status@)])
    } else if answer.status@ == "ERROR"@ && answer.errors@.len() == 0 {
        is_failure(r, seq![no_reason_text()])
    } else if !acceptable(input) {
        exists|e: ValidationError| #[trigger] is_first_error(input, e) && is_failure(r, seq![validation_text(e)])
    } else if exists|i: int| 0 <= i < entries.len() && (#[trigger] entries[i]).defect() is Some {
        exists|e: ValidationError| #[trigger]
            is_first_bad_entry(entries, e) && is_failure(r, seq![validation_text(e)])
    } else if sound(snap, claims_of(snap, entries)) {
        r == answer
    } else {
        exists|vs: Seq<Violation>| #[trigger]
            is_evaluation(snap, claims_of(snap, entries), vs) && !no_hard(vs) && is_failure(
                r,
                hard_lines(vs),
            )
    }
}

/// What is made of a reply.
pub open spec fn is_delegated_result(input: SolverInput, reply: DelegatedReply, r: SolverResult) -> bool {
    match reply {
        DelegatedReply::Unreachable { reason } => is_failure(r, seq![unreachable_text(reason@)]),
        DelegatedReply::Refused { status, details } => is_failure(
            r,
            seq![refused_text(status@), details_text(details@)],
        ),
        DelegatedReply::Unreadable { reason } => is_failure(r, seq![unreadable_text(reason@)]),
        DelegatedReply::Answer { result } => is_checked_answer(input, result, r),
    }
}

/// Checks an answer of the service against the snapshot before it is trusted.
pub fn check_answer(input: &SolverInput, answer: SolverResult) -> (r: SolverResult)
    ensures
        is_checked_answer(*input, answer, r),
{
    let known = same_text(&answer.status, "SUCCESS") || same_text(&answer.status, "PARTIAL") || same_text(
        &answer.status,
        "ERROR",
    );
    if !known {
        return one_failure("Odpowiedź Gemini ma nieznany status: ", answer.status.as_str());
    }
    if same_text(&answer.status, "ERROR") && answer.errors.len() == 0 {
        return line_failure("Odpowiedź Gemini ma status ERROR, ale nie podaje przyczyny.");
    }
    match evaluate(&answer.assignments, input) {
        Err(e) => {
            proof {
                if is_first_error(*input, e) {
                    crate::commands::lemma_error_excludes(*input, e);
                } else {
                    assert(answer.assignments@[e.index as int].defect() is Some);
                }
            }
            rejection(e)
        },
        Ok(vs) => {
            let lines = describe_hard(&vs);
            proof {
                let snap = snapshot_of(*input);
                crate::problem::lemma_snapshot_wf(*input);
                lemma_hard_lines_empty(vs@);
                crate::evaluator::lemma_claims_wf(snap, answer.assignments@);
                crate::laws::lemma_evaluation_decides(snap, claims_of(snap, answer.assignments@), vs@);
            }
            if lines.len() == 0 {
                answer
            } else {
                failure(lines)
            }
        },
    }
}

} // verus!
