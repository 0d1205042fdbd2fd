use grafik::commands::{solve_local, DateRange, SolverInput};
use grafik::models::{Absence, Defect, Employee, ScheduleEntry, Shift};
use grafik::problem::{compile, Record, ValidationError};

fn person(id: Option<i64>) -> Employee {
    Employee::new(id, "Anna".to_string(), "Nowak".to_string(), Some("kasjer".to_string()), "part-time".to_string(), "active".to_string())
}

fn plain_shift(id: Option<i64>) -> Shift {
    Shift { id, day_of_week: 1, start_time: "09:00".to_string(), end_time: "17:00".to_string(), required_staff: 1 }
}

fn with(employees: Vec<Employee>, shifts: Vec<Shift>, absences: Vec<Absence>, start: &str, end: &str) -> SolverInput {
    SolverInput {
        employees,
        shifts,
        absences,
        date_range: DateRange { start_date: start.to_string(), end_date: end.to_string() },
    }
}

fn error_of(input: &SolverInput) -> ValidationError {
    compile(input).unwrap_err()
}

#[test]
fn shift_construction_is_validated() {
    let ok = Shift::new(Some(1), 6, "22:00".to_string(), "06:00".to_string(), 0).unwrap();
    assert_eq!(ok.day_of_week, 6);
    assert_eq!(ok.start_time, "22:00");
    assert_eq!(ok.end_time, "06:00");
    assert_eq!(ok.required_staff, 0);
    assert_eq!(Shift::new(None, 7, "09:00".to_string(), "17:00".to_string(), 1).unwrap_err(), Defect::WeekdayOutOfRange);
    assert_eq!(Shift::new(None, -1, "09:00".to_string(), "17:00".to_string(), 1).unwrap_err(), Defect::WeekdayOutOfRange);
    assert_eq!(Shift::new(None, 1, "25:00".to_string(), "17:00".to_string(), 1).unwrap_err(), Defect::MalformedTime);
    assert_eq!(Shift::new(None, 1, "09:00".to_string(), "17.00".to_string(), 1).unwrap_err(), Defect::MalformedTime);
    assert_eq!(Shift::new(None, 1, "09:00".to_string(), "17:00".to_string(), -1).unwrap_err(), Defect::NegativeStaff);
}

#[test]
fn absence_construction_is_validated() {
    let ok = Absence::new(None, 4, "2024-02-28".to_string(), "2024-02-28".to_string(), "urlop".to_string()).unwrap();
    assert_eq!(ok.employee_id, 4);
    assert_eq!(
        Absence::new(None, 4, "2024-02-30".to_string(), "2024-03-01".to_string(), "urlop".to_string()).unwrap_err(),
        Defect::MalformedDate
    );
    assert_eq!(
        Absence::new(None, 4, "2024-02-28".to_string(), "tomorrow".to_string(), "urlop".to_string()).unwrap_err(),
        Defect::MalformedDate
    );
    assert_eq!(
        Absence::new(None, 4, "2024-03-01".to_string(), "2024-02-29".to_string(), "urlop".to_string()).unwrap_err(),
        Defect::EndsBeforeStart
    );
}

#[test]
fn entry_construction_is_validated() {
    let ok = ScheduleEntry::new(Some(3), 1, "2024-01-01".to_string(), 2).unwrap();
    assert_eq!((ok.id, ok.employee_id, ok.shift_id), (Some(3), 1, 2));
    assert_eq!(ScheduleEntry::new(None, 1, "2024-1-1".to_string(), 2).unwrap_err(), Defect::MalformedDate);
}

#[test]
fn only_the_status_active_is_active() {
    assert!(person(Some(1)).is_active());
    let mut e = person(Some(1));
    e.status = "Active".to_string();
    assert!(!e.is_active());
    e.status = "inactive".to_string();
    assert!(!e.is_active());
    e.status = "".to_string();
    assert!(!e.is_active());
}

#[test]
fn the_first_malformed_record_is_named() {
    let good = with(vec![person(Some(1))], vec![plain_shift(Some(1))], vec![], "2024-01-01", "2024-01-31");
    let p = compile(&good).unwrap();
    assert_eq!(p.workers.len(), 1);
    assert_eq!((p.workers[0].id, p.workers[0].active), (1, true));
    assert_eq!(p.templates.len(), 1);
    assert_eq!((p.templates[0].weekday, p.templates[0].start, p.templates[0].end, p.templates[0].required), (1, 540, 1020, 1));
    assert_eq!(p.last_day - p.first_day, 30);

    let e = error_of(&with(vec![], vec![], vec![], "2024-01-01", "2024-01-32"));
    assert_eq!(e, ValidationError { record: Record::Range, index: 1, defect: Defect::MalformedDate });
    let e = error_of(&with(vec![person(Some(1)), person(None)], vec![plain_shift(None)], vec![], "2024-01-01", "2024-01-02"));
    assert_eq!(e, ValidationError { record: Record::Employee, index: 1, defect: Defect::MissingId });
    let e = error_of(&with(vec![person(Some(1)), person(Some(2)), person(Some(1))], vec![], vec![], "2024-01-01", "2024-01-02"));
    assert_eq!(e, ValidationError { record: Record::Employee, index: 2, defect: Defect::DuplicateId });
    let e = error_of(&with(vec![], vec![plain_shift(None)], vec![], "2024-01-01", "2024-01-02"));
    assert_eq!(e, ValidationError { record: Record::Shift, index: 0, defect: Defect::MissingId });
    let e = error_of(&with(vec![], vec![plain_shift(Some(5)), plain_shift(Some(5))], vec![], "2024-01-01", "2024-01-02"));
    assert_eq!(e, ValidationError { record: Record::Shift, index: 1, defect: Defect::DuplicateId });
    let mut s = plain_shift(Some(1));
    s.required_staff = -3;
    let e = error_of(&with(vec![], vec![s], vec![], "2024-01-01", "2024-01-02"));
    assert_eq!(e, ValidationError { record: Record::Shift, index: 0, defect: Defect::NegativeStaff });
    let mut s = plain_shift(Some(1));
    s.day_of_week = 7;
    let e = error_of(&with(vec![], vec![s], vec![], "2024-01-01", "2024-01-02"));
    assert_eq!(e, ValidationError { record: Record::Shift, index: 0, defect: Defect::WeekdayOutOfRange });
    let a = Absence { id: None, employee_id: 1, start_date: "2024-01-05".to_string(), end_date: "2024-01-04".to_string(), absence_type: "urlop".to_string() };
    let e = error_of(&with(vec![], vec![], vec![a], "2024-01-01", "2024-01-02"));
    assert_eq!(e, ValidationError { record: Record::Absence, index: 0, defect: Defect::EndsBeforeStart });
}

#[test]
fn every_defect_has_its_message() {
    let line = |record: Record, index: usize, defect: Defect| ValidationError { record, index, defect }.message();
    assert_eq!(
        line(Record::Range, 0, Defect::MalformedDate),
        "Nieprawidłowe dane wejściowe: zakres dat nr 0: nieprawidłowa data (oczekiwano RRRR-MM-DD)."
    );
    assert_eq!(
        line(Record::Shift, 12, Defect::MalformedTime),
        "Nieprawidłowe dane wejściowe: zmiana nr 12: nieprawidłowa godzina (oczekiwano GG:MM)."
    );
    assert_eq!(
        line(Record::Shift, 3, Defect::WeekdayOutOfRange),
        "Nieprawidłowe dane wejściowe: zmiana nr 3: dzień tygodnia spoza zakresu 0-6."
    );
    assert_eq!(
        line(Record::Shift, 0, Defect::NegativeStaff),
        "Nieprawidłowe dane wejściowe: zmiana nr 0: ujemna liczba wymaganych pracowników."
    );
    assert_eq!(
        line(Record::Absence, 100, Defect::EndsBeforeStart),
        "Nieprawidłowe dane wejściowe: nieobecność nr 100: koniec przed początkiem."
    );
    assert_eq!(
        line(Record::Employee, 7, Defect::MissingId),
        "Nieprawidłowe dane wejściowe: pracownik nr 7: brak identyfikatora."
    );
    assert_eq!(
        line(Record::Employee, 1, Defect::DuplicateId),
        "Nieprawidłowe dane wejściowe: pracownik nr 1: powtórzony identyfikator."
    );
    assert_eq!(
        line(Record::Entry, 2, Defect::MalformedDate),
        "Nieprawidłowe dane wejściowe: wpis grafiku nr 2: nieprawidłowa data (oczekiwano RRRR-MM-DD)."
    );
}

#[test]
fn a_rejected_input_gives_no_partial_result() {
    let a = Absence { id: None, employee_id: 1, start_date: "2024-01-05".to_string(), end_date: "2024-01-04".to_string(), absence_type: "urlop".to_string() };
    let r = solve_local(&with(vec![person(Some(1))], vec![plain_shift(Some(1))], vec![a], "2024-01-01", "2024-01-31"), 10);
    assert_eq!(r.status, "ERROR");
    assert!(r.assignments.is_empty());
    assert!(r.warnings.is_empty());
    assert_eq!(r.errors, vec!["Nieprawidłowe dane wejściowe: nieobecność nr 0: koniec przed początkiem.".to_string()]);
}
