use grafik::commands::{run_local_solver, solve_local, DateRange, SolverInput, SolverResult};
use grafik::models::{Absence, Employee, ScheduleEntry, Shift};

fn employee(id: i64, first: &str, last: &str, status: &str) -> Employee {
    Employee {
        id: Some(id),
        first_name: first.to_string(),
        last_name: last.to_string(),
        role: None,
        employment_type: "full-time".to_string(),
        status: status.to_string(),
    }
}

fn shift(id: i64, day_of_week: i32, start: &str, end: &str, required_staff: i32) -> Shift {
    Shift {
        id: Some(id),
        day_of_week,
        start_time: start.to_string(),
        end_time: end.to_string(),
        required_staff,
    }
}

fn absence(employee_id: i64, start: &str, end: &str) -> Absence {
    Absence {
        id: Some(1),
        employee_id,
        start_date: start.to_string(),
        end_date: end.to_string(),
        absence_type: "urlop".to_string(),
    }
}

fn input(employees: Vec<Employee>, shifts: Vec<Shift>, absences: Vec<Absence>, start: &str, end: &str) -> SolverInput {
    SolverInput {
        employees,
        shifts,
        absences,
        date_range: DateRange { start_date: start.to_string(), end_date: end.to_string() },
    }
}

fn triples(r: &SolverResult) -> Vec<(i64, i64, String)> {
    r.assignments.iter().map(|e: &ScheduleEntry| (e.employee_id, e.shift_id, e.date.clone())).collect()
}

#[test]
fn inactive_employee_is_never_assigned() {
    let i = input(
        vec![employee(1, "Anna", "Nowak", "active"), employee(2, "Jan", "Kowalski", "inactive")],
        vec![shift(10, 1, "09:00", "17:00", 1)],
        vec![],
        "2024-01-01",
        "2024-01-01",
    );
    let r = solve_local(&i, 100);
    assert_eq!(r.status, "SUCCESS");
    assert_eq!(triples(&r), vec![(1, 10, "2024-01-01".to_string())]);
    assert!(r.assignments[0].id.is_none());
    assert!(r.warnings.is_empty());
    assert!(r.errors.is_empty());
}

#[test]
fn fully_absent_employee_leaves_instance_unfilled() {
    let i = input(
        vec![employee(1, "Anna", "Nowak", "active")],
        vec![shift(10, 1, "09:00", "17:00", 1)],
        vec![absence(1, "2024-01-01", "2024-01-07")],
        "2024-01-01",
        "2024-01-07",
    );
    let r = solve_local(&i, 100);
    assert_eq!(r.status, "ERROR");
    assert!(r.assignments.is_empty());
    assert!(r.warnings.is_empty());
    assert_eq!(r.errors, vec!["Brak dostępnych pracowników: zmiana 10 w dniu 2024-01-01.".to_string()]);
}

#[test]
fn shortfall_gives_partial_with_one_warning() {
    let i = input(
        vec![employee(1, "Anna", "Nowak", "active")],
        vec![shift(10, 1, "09:00", "17:00", 2)],
        vec![],
        "2024-01-01",
        "2024-01-01",
    );
    let r = solve_local(&i, 100);
    assert_eq!(r.status, "PARTIAL");
    assert_eq!(triples(&r), vec![(1, 10, "2024-01-01".to_string())]);
    assert_eq!(
        r.warnings,
        vec!["Niedobór obsady: zmiana 10 w dniu 2024-01-01: przydzielono 1 z 2.".to_string()]
    );
    assert!(r.errors.is_empty());
}

#[test]
fn short_rest_keeps_one_employee_off_the_next_morning() {
    let i = input(
        vec![employee(1, "Anna", "Nowak", "active")],
        vec![shift(1, 1, "15:00", "23:00", 1), shift(2, 2, "06:00", "14:00", 1)],
        vec![],
        "2024-01-01",
        "2024-01-02",
    );
    let r = solve_local(&i, 100);
    assert_eq!(triples(&r), vec![(1, 1, "2024-01-01".to_string())]);
    assert_eq!(r.status, "ERROR");
    assert_eq!(r.errors, vec!["Brak dostępnych pracowników: zmiana 2 w dniu 2024-01-02.".to_string()]);
}

#[test]
fn eleven_hours_of_rest_are_enough() {
    let i = input(
        vec![employee(1, "Anna", "Nowak", "active")],
        vec![shift(1, 1, "11:00", "19:00", 1), shift(2, 2, "06:00", "14:00", 1)],
        vec![],
        "2024-01-01",
        "2024-01-02",
    );
    let r = solve_local(&i, 100);
    assert_eq!(r.status, "SUCCESS");
    assert_eq!(
        triples(&r),
        vec![(1, 1, "2024-01-01".to_string()), (1, 2, "2024-01-02".to_string())]
    );
}

#[test]
fn night_shift_ends_on_the_next_day() {
    // 22:00 to 06:00 ends on Tuesday morning: a Tuesday shift at 16:00 leaves 10 hours only.
    let i = input(
        vec![employee(1, "Anna", "Nowak", "active")],
        vec![shift(1, 1, "22:00", "06:00", 1), shift(2, 2, "16:00", "20:00", 1)],
        vec![],
        "2024-01-01",
        "2024-01-02",
    );
    let r = solve_local(&i, 100);
    assert_eq!(triples(&r), vec![(1, 1, "2024-01-01".to_string())]);
    assert_eq!(r.status, "ERROR");
}

#[test]
fn backtracking_finds_a_full_schedule() {
    let i = input(
        vec![employee(1, "Anna", "Nowak", "active"), employee(2, "Jan", "Kowalski", "active")],
        vec![shift(1, 1, "15:00", "23:00", 1), shift(2, 2, "06:00", "14:00", 1)],
        vec![absence(2, "2024-01-02", "2024-01-02")],
        "2024-01-01",
        "2024-01-02",
    );
    let r = solve_local(&i, 10);
    assert_eq!(r.status, "SUCCESS");
    assert_eq!(
        triples(&r),
        vec![(2, 1, "2024-01-01".to_string()), (1, 2, "2024-01-02".to_string())]
    );
}

#[test]
fn without_backtracks_the_solver_takes_what_can_be_had() {
    let i = input(
        vec![employee(1, "Anna", "Nowak", "active"), employee(2, "Jan", "Kowalski", "active")],
        vec![shift(1, 1, "15:00", "23:00", 1), shift(2, 2, "06:00", "14:00", 1)],
        vec![absence(2, "2024-01-02", "2024-01-02")],
        "2024-01-01",
        "2024-01-02",
    );
    let r = solve_local(&i, 0);
    assert_eq!(r.status, "ERROR");
    assert_eq!(triples(&r), vec![(1, 1, "2024-01-01".to_string())]);
}

#[test]
fn load_is_balanced_and_ties_go_to_the_lower_identifier() {
    let i = input(
        vec![employee(7, "Ewa", "Lis", "active"), employee(3, "Adam", "Bąk", "active")],
        vec![shift(1, 1, "09:00", "17:00", 1), shift(2, 3, "09:00", "17:00", 1), shift(3, 5, "09:00", "17:00", 1)],
        vec![],
        "2024-01-01",
        "2024-01-07",
    );
    let r = solve_local(&i, 100);
    assert_eq!(r.status, "SUCCESS");
    assert_eq!(
        triples(&r),
        vec![
            (3, 1, "2024-01-01".to_string()),
            (7, 2, "2024-01-03".to_string()),
            (3, 3, "2024-01-05".to_string()),
        ]
    );
}

#[test]
fn instances_are_staffed_by_date_then_start_time() {
    let i = input(
        vec![employee(1, "Anna", "Nowak", "active"), employee(2, "Jan", "Kowalski", "active")],
        vec![shift(5, 1, "14:00", "22:00", 1), shift(9, 1, "06:00", "14:00", 1)],
        vec![],
        "2024-01-01",
        "2024-01-08",
    );
    let r = solve_local(&i, 100);
    assert_eq!(r.status, "SUCCESS");
    assert_eq!(
        triples(&r),
        vec![
            (1, 9, "2024-01-01".to_string()),
            (2, 5, "2024-01-01".to_string()),
            (1, 9, "2024-01-08".to_string()),
            (2, 5, "2024-01-08".to_string()),
        ]
    );
}

#[test]
fn no_matching_weekday_and_zero_staff_are_no_errors() {
    let i = input(
        vec![employee(1, "Anna", "Nowak", "active")],
        vec![shift(1, 0, "09:00", "17:00", 1), shift(2, 1, "09:00", "17:00", 0)],
        vec![],
        "2024-01-01",
        "2024-01-05",
    );
    let r = solve_local(&i, 100);
    assert_eq!(r.status, "SUCCESS");
    assert!(r.assignments.is_empty());
    assert!(r.warnings.is_empty());
    assert!(r.errors.is_empty());
}

#[test]
fn reversed_range_is_empty() {
    let i = input(
        vec![employee(1, "Anna", "Nowak", "active")],
        vec![shift(1, 1, "09:00", "17:00", 1)],
        vec![],
        "2024-01-08",
        "2024-01-01",
    );
    let r = solve_local(&i, 100);
    assert_eq!(r.status, "SUCCESS");
    assert!(r.assignments.is_empty());
}

#[test]
fn malformed_range_is_rejected_with_one_error() {
    let i = input(vec![], vec![], vec![], "2024-02-30", "2024-03-01");
    let r = solve_local(&i, 100);
    assert_eq!(r.status, "ERROR");
    assert!(r.assignments.is_empty());
    assert_eq!(
        r.errors,
        vec!["Nieprawidłowe dane wejściowe: zakres dat nr 0: nieprawidłowa data (oczekiwano RRRR-MM-DD).".to_string()]
    );
}

#[test]
fn malformed_shift_is_rejected_before_solving() {
    let i = input(
        vec![employee(1, "Anna", "Nowak", "active")],
        vec![shift(1, 1, "09:00", "17:00", 1), shift(2, 1, "9:00", "17:00", 1)],
        vec![],
        "2024-01-01",
        "2024-01-01",
    );
    let r = solve_local(&i, 100);
    assert_eq!(r.status, "ERROR");
    assert!(r.assignments.is_empty());
    assert_eq!(
        r.errors,
        vec!["Nieprawidłowe dane wejściowe: zmiana nr 1: nieprawidłowa godzina (oczekiwano GG:MM).".to_string()]
    );
}

#[test]
fn solving_twice_gives_the_same_result() {
    let i = input(
        vec![
            employee(1, "Anna", "Nowak", "active"),
            employee(2, "Jan", "Kowalski", "active"),
            employee(3, "Ewa", "Lis", "active"),
        ],
        vec![
            shift(1, 1, "06:00", "14:00", 2),
            shift(2, 1, "14:00", "22:00", 1),
            shift(3, 2, "06:00", "14:00", 2),
            shift(4, 4, "22:00", "06:00", 1),
            shift(5, 5, "08:00", "12:00", 3),
        ],
        vec![absence(2, "2024-01-04", "2024-01-10")],
        "2024-01-01",
        "2024-01-14",
    );
    let a = solve_local(&i, 50);
    let b = solve_local(&i, 50);
    assert_eq!(a.status, b.status);
    assert_eq!(triples(&a), triples(&b));
    assert_eq!(a.warnings, b.warnings);
    assert_eq!(a.errors, b.errors);
    for x in 0..a.assignments.len() {
        for y in (x + 1)..a.assignments.len() {
            let p = &a.assignments[x];
            let q = &a.assignments[y];
            assert!(!(p.employee_id == q.employee_id && p.date == q.date));
        }
        let p = &a.assignments[x];
        assert!(!(p.employee_id == 2 && p.date.as_str() >= "2024-01-04" && p.date.as_str() <= "2024-01-10"));
    }
}

#[test]
fn run_local_solver_uses_the_default_limit() {
    let i = input(
        vec![employee(1, "Anna", "Nowak", "active")],
        vec![shift(10, 1, "09:00", "17:00", 1)],
        vec![],
        "2024-01-01",
        "2024-01-01",
    );
    let r = run_local_solver(&i).unwrap();
    assert_eq!(r.status, "SUCCESS");
    assert_eq!(triples(&r), vec![(1, 10, "2024-01-01".to_string())]);
}
