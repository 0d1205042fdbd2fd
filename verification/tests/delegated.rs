use grafik::commands::{finish_gemini_solver, run_gemini_solver, solve, DateRange, SolverInput, SolverResult, Strategy};
use grafik::delegated::{DelegatedReply, Delegation};
use grafik::models::{Employee, ScheduleEntry, Shift};

fn small_input() -> SolverInput {
    SolverInput {
        employees: vec![Employee {
            id: Some(1),
            first_name: "Anna".to_string(),
            last_name: "Nowak".to_string(),
            role: None,
            employment_type: "full-time".to_string(),
            status: "active".to_string(),
        }],
        shifts: vec![
            Shift { id: Some(1), day_of_week: 1, start_time: "15:00".to_string(), end_time: "23:00".to_string(), required_staff: 1 },
            Shift { id: Some(2), day_of_week: 2, start_time: "06:00".to_string(), end_time: "14:00".to_string(), required_staff: 1 },
        ],
        absences: vec![],
        date_range: DateRange { start_date: "2024-01-01".to_string(), end_date: "2024-01-02".to_string() },
    }
}

fn answer(status: &str, entries: Vec<(i64, &str, i64)>) -> SolverResult {
    SolverResult {
        status: status.to_string(),
        assignments: entries
            .into_iter()
            .map(|(employee_id, date, shift_id)| ScheduleEntry { id: Some(7), employee_id, date: date.to_string(), shift_id })
            .collect(),
        warnings: vec!["uwaga".to_string()],
        errors: vec![],
    }
}

fn finished(d: Delegation) -> SolverResult {
    match d {
        Delegation::Finished(r) => r,
        Delegation::Call(_) => panic!("a call where a result was expected"),
    }
}

const MISSING: [&str; 3] = [
    "Brak klucza API Gemini.",
    "Ustaw zmienną środowiskową GEMINI_API_KEY lub dodaj klucz w pliku .env",
    "Klucz można wygenerować na: https://makersuite.google.com/app/apikey",
];

#[test]
fn without_a_credential_the_run_fails_at_once() {
    for key in [None, Some(String::new())] {
        let r = finished(run_gemini_solver("2024-01-01".to_string(), "2024-01-31".to_string(), "{}".to_string(), key));
        assert_eq!(r.status, "ERROR");
        assert!(r.assignments.is_empty());
        assert!(r.warnings.is_empty());
        assert_eq!(r.errors, MISSING);
    }
}

#[test]
fn with_a_credential_the_caller_is_told_what_to_send() {
    let d = run_gemini_solver(
        "2024-01-01".to_string(),
        "2024-01-31".to_string(),
        "{\"employees\":[]}".to_string(),
        Some("abc123".to_string()),
    );
    match d {
        Delegation::Call(call) => {
            assert_eq!(
                call.url,
                "https://generativelanguage.googleapis.com/v1beta/models/gemini-pro:generateContent?key=abc123"
            );
            assert_eq!(
                call.prompt,
                "Jesteś asystentem do planowania grafików pracowniczych. Wygeneruj optymalny grafik dla okresu od 2024-01-01 do 2024-01-31. Zasady:\n- Każda zmiana musi mieć wymaganą liczbę pracowników\n- Pracownik nie może pracować podczas nieobecności\n- Zachowaj 11-godzinny odpoczynek między zmianami\n- Jeden pracownik może mieć maksymalnie jedną zmianę dziennie\n\nZwróć odpowiedź w formacie JSON zgodnym z SolverResult.\n\nDane wejściowe:\n{\"employees\":[]}"
            );
        },
        Delegation::Finished(_) => panic!("a result where a call was expected"),
    }
}

#[test]
fn a_failed_call_becomes_an_error_with_its_reason() {
    let i = small_input();
    let r = finish_gemini_solver(&i, DelegatedReply::Unreachable { reason: "timed out".to_string() });
    assert_eq!(r.status, "ERROR");
    assert!(r.assignments.is_empty());
    assert_eq!(r.errors, vec!["Błąd połączenia z Gemini API: timed out".to_string()]);

    let r = finish_gemini_solver(
        &i,
        DelegatedReply::Refused { status: "403 Forbidden".to_string(), details: "quota".to_string() },
    );
    assert_eq!(r.status, "ERROR");
    assert_eq!(r.errors, vec!["Błąd API Gemini (kod: 403 Forbidden)".to_string(), "Szczegóły: quota".to_string()]);

    let r = finish_gemini_solver(&i, DelegatedReply::Unreadable { reason: "expected value at line 1".to_string() });
    assert_eq!(r.status, "ERROR");
    assert_eq!(r.errors, vec!["Błąd parsowania odpowiedzi Gemini: expected value at line 1".to_string()]);
}

#[test]
fn a_sound_answer_is_returned_as_it_is() {
    let i = small_input();
    let r = finish_gemini_solver(&i, DelegatedReply::Answer { result: answer("PARTIAL", vec![(1, "2024-01-01", 1)]) });
    assert_eq!(r.status, "PARTIAL");
    assert_eq!(r.assignments.len(), 1);
    assert_eq!(r.assignments[0].id, Some(7));
    assert_eq!(r.assignments[0].date, "2024-01-01");
    assert_eq!(r.warnings, vec!["uwaga".to_string()]);
    assert!(r.errors.is_empty());
}

#[test]
fn an_answer_that_breaks_a_hard_rule_is_downgraded() {
    let i = small_input();
    let r = finish_gemini_solver(
        &i,
        DelegatedReply::Answer { result: answer("SUCCESS", vec![(1, "2024-01-01", 1), (1, "2024-01-02", 2), (4, "2024-01-02", 2)]) },
    );
    assert_eq!(r.status, "ERROR");
    assert!(r.assignments.is_empty());
    assert!(r.warnings.is_empty());
    assert_eq!(
        r.errors,
        vec![
            "Naruszenie ograniczenia (obsada zmiany): zmiana 2 w dniu 2024-01-02.".to_string(),
            "Naruszenie ograniczenia (odpoczynek 11 godzin): pracownik 1, zmiana 2 w dniu 2024-01-02.".to_string(),
            "Naruszenie ograniczenia (status pracownika): pracownik 4, zmiana 2 w dniu 2024-01-02.".to_string(),
        ]
    );
}

#[test]
fn an_answer_with_an_unknown_status_or_a_malformed_entry_is_refused() {
    let i = small_input();
    let r = finish_gemini_solver(&i, DelegatedReply::Answer { result: answer("OK", vec![(1, "2024-01-01", 1)]) });
    assert_eq!(r.status, "ERROR");
    assert!(r.assignments.is_empty());
    assert_eq!(r.errors, vec!["Odpowiedź Gemini ma nieznany status: OK".to_string()]);

    let r = finish_gemini_solver(&i, DelegatedReply::Answer { result: answer("SUCCESS", vec![(1, "1 stycznia", 1)]) });
    assert_eq!(r.status, "ERROR");
    assert!(r.assignments.is_empty());
    assert_eq!(
        r.errors,
        vec!["Nieprawidłowe dane wejściowe: wpis grafiku nr 0: nieprawidłowa data (oczekiwano RRRR-MM-DD).".to_string()]
    );
}

#[test]
fn the_strategy_decides_who_solves() {
    let i = small_input();
    let r = finished(solve(&i, Strategy::Local { max_backtracks: 10 }));
    assert_eq!(r.status, "ERROR");
    assert_eq!(r.assignments.len(), 1);
    assert_eq!((r.assignments[0].employee_id, r.assignments[0].shift_id), (1, 1));

    let r = finished(solve(&i, Strategy::Delegated { api_key: None, snapshot: String::new() }));
    assert_eq!(r.errors, MISSING);

    match solve(&i, Strategy::Delegated { api_key: Some("k".to_string()), snapshot: "S".to_string() }) {
        Delegation::Call(call) => {
            assert!(call.url.ends_with("?key=k"));
            assert!(call.prompt.contains("od 2024-01-01 do 2024-01-02."));
            assert!(call.prompt.ends_with("Dane wejściowe:\nS"));
        },
        Delegation::Finished(_) => panic!("a result where a call was expected"),
    }
}

#[test]
fn a_malformed_date_is_rejected_before_the_call() {
    let r = finished(run_gemini_solver(
        "2024-13-45".to_string(),
        "2024-01-07".to_string(),
        "{}".to_string(),
        Some("abc123".to_string()),
    ));
    assert_eq!(r.status, "ERROR");
    assert!(r.assignments.is_empty());
    assert!(r.warnings.is_empty());
    assert_eq!(
        r.errors,
        vec!["Nieprawidłowe dane wejściowe: zakres dat nr 0: nieprawidłowa data (oczekiwano RRRR-MM-DD).".to_string()]
    );
    let r = finished(run_gemini_solver(
        "2024-01-01".to_string(),
        "2024-02-30".to_string(),
        "{}".to_string(),
        Some("abc123".to_string()),
    ));
    assert_eq!(
        r.errors,
        vec!["Nieprawidłowe dane wejściowe: zakres dat nr 1: nieprawidłowa data (oczekiwano RRRR-MM-DD).".to_string()]
    );
    // Without a credential the run fails for the want of it, whatever the dates.
    let r = finished(run_gemini_solver("2024-13-45".to_string(), "x".to_string(), "{}".to_string(), None));
    assert_eq!(r.errors, MISSING);
}

#[test]
fn a_malformed_record_is_rejected_before_the_call() {
    let mut i = small_input();
    i.shifts[1].start_time = "6:00".to_string();
    let delegated = || Strategy::Delegated { api_key: Some("k".to_string()), snapshot: "S".to_string() };
    let r = finished(solve(&i, delegated()));
    assert_eq!(r.status, "ERROR");
    assert!(r.assignments.is_empty());
    assert_eq!(
        r.errors,
        vec!["Nieprawidłowe dane wejściowe: zmiana nr 1: nieprawidłowa godzina (oczekiwano GG:MM).".to_string()]
    );
    let mut i = small_input();
    i.date_range.start_date = "2024-13-45".to_string();
    let r = finished(solve(&i, delegated()));
    assert_eq!(
        r.errors,
        vec!["Nieprawidłowe dane wejściowe: zakres dat nr 0: nieprawidłowa data (oczekiwano RRRR-MM-DD).".to_string()]
    );
    let r = finished(solve(&i, Strategy::Delegated { api_key: None, snapshot: "S".to_string() }));
    assert_eq!(r.errors, MISSING);
}

#[test]
fn an_error_without_a_reason_is_given_one() {
    let i = small_input();
    let silent = SolverResult { status: "ERROR".to_string(), assignments: vec![], warnings: vec![], errors: vec![] };
    let r = finish_gemini_solver(&i, DelegatedReply::Answer { result: silent });
    assert_eq!(r.status, "ERROR");
    assert!(r.assignments.is_empty());
    assert_eq!(r.errors, vec!["Odpowiedź Gemini ma status ERROR, ale nie podaje przyczyny.".to_string()]);

    let told = SolverResult {
        status: "ERROR".to_string(),
        assignments: vec![],
        warnings: vec![],
        errors: vec!["brak ludzi".to_string()],
    };
    let r = finish_gemini_solver(&i, DelegatedReply::Answer { result: told });
    assert_eq!(r.status, "ERROR");
    assert_eq!(r.errors, vec!["brak ludzi".to_string()]);
}

#[test]
fn every_error_says_why() {
    let i = small_input();
    let replies = vec![
        DelegatedReply::Unreachable { reason: String::new() },
        DelegatedReply::Refused { status: String::new(), details: String::new() },
        DelegatedReply::Unreadable { reason: String::new() },
        DelegatedReply::Answer { result: answer("ERROR", vec![]) },
        DelegatedReply::Answer { result: answer("", vec![]) },
        DelegatedReply::Answer { result: answer("SUCCESS", vec![(1, "2024-01-01", 1), (1, "2024-01-01", 1)]) },
        DelegatedReply::Answer { result: answer("PARTIAL", vec![(1, "2024-01-02", 2)]) },
        DelegatedReply::Answer {
            result: SolverResult { status: "ERROR".to_string(), assignments: vec![], warnings: vec![], errors: vec![] },
        },
    ];
    for reply in replies {
        let r = finish_gemini_solver(&i, reply);
        assert!(["SUCCESS", "PARTIAL", "ERROR"].contains(&r.status.as_str()));
        if r.status == "ERROR" {
            assert!(!r.errors.is_empty());
        }
    }
}
