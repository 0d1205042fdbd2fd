use grafik::calendar::read_day;
use grafik::commands::{solve_local, DateRange, SolverInput};
use grafik::evaluator::{evaluate, ConstraintKind, Severity, Violation};
use grafik::models::{Absence, Defect, Employee, ScheduleEntry, Shift};
use grafik::problem::{Record, ValidationError};

fn worker(id: i64, status: &str) -> Employee {
    Employee {
        id: Some(id),
        first_name: "Imię".to_string(),
        last_name: "Nazwisko".to_string(),
        role: None,
        employment_type: "full-time".to_string(),
        status: status.to_string(),
    }
}

fn shift_on(id: i64, day_of_week: i32, start: &str, end: &str, required_staff: i32) -> Shift {
    Shift {
        id: Some(id),
        day_of_week,
        start_time: start.to_string(),
        end_time: end.to_string(),
        required_staff,
    }
}

fn away(employee_id: i64, start: &str, end: &str) -> Absence {
    Absence {
        id: None,
        employee_id,
        start_date: start.to_string(),
        end_date: end.to_string(),
        absence_type: "zwolnienie".to_string(),
    }
}

fn snapshot(employees: Vec<Employee>, shifts: Vec<Shift>, absences: Vec<Absence>, start: &str, end: &str) -> SolverInput {
    SolverInput {
        employees,
        shifts,
        absences,
        date_range: DateRange { start_date: start.to_string(), end_date: end.to_string() },
    }
}

fn entry(employee_id: i64, date: &str, shift_id: i64) -> ScheduleEntry {
    ScheduleEntry { id: None, employee_id, date: date.to_string(), shift_id }
}

fn hard(kind: ConstraintKind, employee_id: i64, date: &str, shift_id: i64) -> Violation {
    Violation {
        kind,
        severity: Severity::Hard,
        employee_id: Some(employee_id),
        day: read_day(date).unwrap(),
        shift_id,
    }
}

fn staffing(severity: Severity, date: &str, shift_id: i64) -> Violation {
    Violation {
        kind: ConstraintKind::Staffing,
        severity,
        employee_id: None,
        day: read_day(date).unwrap(),
        shift_id,
    }
}

#[test]
fn forced_short_rest_is_flagged_on_the_later_shift() {
    let i = snapshot(
        vec![worker(1, "active")],
        vec![shift_on(1, 1, "15:00", "23:00", 1), shift_on(2, 2, "06:00", "14:00", 1)],
        vec![],
        "2024-01-01",
        "2024-01-02",
    );
    let entries = vec![entry(1, "2024-01-01", 1), entry(1, "2024-01-02", 2)];
    let vs = evaluate(&entries, &i).unwrap();
    assert_eq!(vs, vec![hard(ConstraintKind::MinimumRest, 1, "2024-01-02", 2)]);
}

#[test]
fn a_schedule_that_obeys_every_rule_has_no_violation() {
    let i = snapshot(
        vec![worker(1, "active"), worker(2, "active")],
        vec![shift_on(1, 1, "15:00", "23:00", 1), shift_on(2, 2, "06:00", "14:00", 1)],
        vec![],
        "2024-01-01",
        "2024-01-02",
    );
    let entries = vec![entry(1, "2024-01-01", 1), entry(2, "2024-01-02", 2)];
    assert_eq!(evaluate(&entries, &i).unwrap(), vec![]);
}

#[test]
fn understaffing_is_soft_and_overstaffing_is_hard() {
    let i = snapshot(
        vec![worker(1, "active"), worker(2, "active")],
        vec![shift_on(1, 1, "08:00", "12:00", 1), shift_on(2, 2, "08:00", "12:00", 2)],
        vec![],
        "2024-01-01",
        "2024-01-02",
    );
    let entries = vec![entry(1, "2024-01-01", 1), entry(2, "2024-01-01", 1)];
    let vs = evaluate(&entries, &i).unwrap();
    assert_eq!(
        vs,
        vec![staffing(Severity::Hard, "2024-01-01", 1), staffing(Severity::Soft, "2024-01-02", 2)]
    );
}

#[test]
fn an_entry_without_a_shift_instance_is_overstaffing() {
    let i = snapshot(
        vec![worker(1, "active")],
        vec![shift_on(1, 1, "08:00", "12:00", 0)],
        vec![],
        "2024-01-01",
        "2024-01-07",
    );
    // Tuesday has no instance of the Monday shift; shift 9 does not exist; the last date is outside the range.
    let entries = vec![entry(1, "2024-01-02", 1), entry(1, "2024-01-03", 9), entry(1, "2024-01-08", 1)];
    let vs = evaluate(&entries, &i).unwrap();
    assert_eq!(
        vs,
        vec![
            staffing(Severity::Hard, "2024-01-02", 1),
            staffing(Severity::Hard, "2024-01-03", 9),
            staffing(Severity::Hard, "2024-01-08", 1),
        ]
    );
}

#[test]
fn violations_come_by_rule_then_employee_then_date() {
    let i = snapshot(
        vec![worker(1, "active"), worker(2, "inactive"), worker(3, "active")],
        vec![shift_on(1, 1, "08:00", "12:00", 3), shift_on(2, 1, "13:00", "17:00", 1), shift_on(3, 2, "08:00", "12:00", 2)],
        vec![away(3, "2024-01-02", "2024-01-02"), away(1, "2023-12-31", "2024-01-01")],
        "2024-01-01",
        "2024-01-02",
    );
    let entries = vec![
        entry(3, "2024-01-02", 3),
        entry(2, "2024-01-02", 3),
        entry(1, "2024-01-01", 2),
        entry(1, "2024-01-01", 1),
        entry(5, "2024-01-01", 1),
    ];
    let vs = evaluate(&entries, &i).unwrap();
    assert_eq!(
        vs,
        vec![
            staffing(Severity::Soft, "2024-01-01", 1),
            hard(ConstraintKind::Absence, 1, "2024-01-01", 1),
            hard(ConstraintKind::Absence, 1, "2024-01-01", 2),
            hard(ConstraintKind::Absence, 3, "2024-01-02", 3),
            hard(ConstraintKind::OneShiftPerDay, 1, "2024-01-01", 1),
            hard(ConstraintKind::OneShiftPerDay, 1, "2024-01-01", 2),
            hard(ConstraintKind::MinimumRest, 1, "2024-01-01", 2),
            hard(ConstraintKind::ActiveStatus, 2, "2024-01-02", 3),
            hard(ConstraintKind::ActiveStatus, 5, "2024-01-01", 1),
        ]
    );
}

#[test]
fn a_repeated_entry_is_reported_once_for_each_rule() {
    let i = snapshot(
        vec![worker(1, "active")],
        vec![shift_on(1, 1, "08:00", "12:00", 2)],
        vec![],
        "2024-01-01",
        "2024-01-01",
    );
    let entries = vec![entry(1, "2024-01-01", 1), entry(1, "2024-01-01", 1)];
    let vs = evaluate(&entries, &i).unwrap();
    assert_eq!(
        vs,
        vec![
            hard(ConstraintKind::OneShiftPerDay, 1, "2024-01-01", 1),
            hard(ConstraintKind::MinimumRest, 1, "2024-01-01", 1),
        ]
    );
}

#[test]
fn evaluation_is_the_same_each_time() {
    let i = snapshot(
        vec![worker(1, "active"), worker(2, "inactive")],
        vec![shift_on(1, 1, "08:00", "12:00", 1), shift_on(2, 2, "06:00", "10:00", 1)],
        vec![away(1, "2024-01-02", "2024-01-03")],
        "2024-01-01",
        "2024-01-07",
    );
    let entries = vec![entry(2, "2024-01-01", 1), entry(1, "2024-01-02", 2), entry(1, "2024-01-01", 1)];
    let a = evaluate(&entries, &i).unwrap();
    let b = evaluate(&entries, &i).unwrap();
    assert_eq!(a, b);
    assert!(!a.is_empty());
}

#[test]
fn the_schedule_of_the_solver_passes_the_evaluator() {
    let i = snapshot(
        vec![worker(1, "active"), worker(2, "active"), worker(3, "inactive"), worker(4, "active")],
        vec![
            shift_on(1, 1, "06:00", "14:00", 2),
            shift_on(2, 1, "14:00", "22:00", 2),
            shift_on(3, 2, "06:00", "14:00", 2),
            shift_on(4, 3, "22:00", "06:00", 1),
            shift_on(5, 4, "08:00", "16:00", 4),
            shift_on(6, 6, "10:00", "18:00", 1),
        ],
        vec![away(2, "2024-01-03", "2024-01-05"), away(4, "2024-01-01", "2024-01-01")],
        "2024-01-01",
        "2024-01-21",
    );
    let r = solve_local(&i, 200);
    let vs = evaluate(&r.assignments, &i).unwrap();
    assert!(vs.iter().all(|v| v.severity == Severity::Soft));
    assert!(vs.iter().all(|v| v.kind == ConstraintKind::Staffing));
    assert_eq!(vs.is_empty(), r.status == "SUCCESS");
    assert_eq!(vs.len(), r.warnings.len() + r.errors.len());
}

#[test]
fn malformed_entry_date_is_refused() {
    let i = snapshot(
        vec![worker(1, "active")],
        vec![shift_on(1, 1, "08:00", "12:00", 1)],
        vec![],
        "2024-01-01",
        "2024-01-07",
    );
    let entries = vec![entry(1, "2024-01-01", 1), entry(1, "01.01.2024", 1)];
    assert_eq!(
        evaluate(&entries, &i),
        Err(ValidationError { record: Record::Entry, index: 1, defect: Defect::MalformedDate })
    );
}

#[test]
fn malformed_snapshot_is_refused_before_the_entries() {
    let i = snapshot(
        vec![worker(1, "active"), worker(1, "active")],
        vec![shift_on(1, 1, "08:00", "12:00", 1)],
        vec![],
        "2024-01-01",
        "2024-01-07",
    );
    let entries = vec![entry(1, "bad", 1)];
    assert_eq!(
        evaluate(&entries, &i),
        Err(ValidationError { record: Record::Employee, index: 1, defect: Defect::DuplicateId })
    );
}
