use grafik::calendar::{read_clock, read_day};
use grafik::commands::{solve_local, DateRange, SolverInput};
use grafik::engine::plan;
use grafik::models::{Absence, Defect, Employee, Shift};
use grafik::problem::compile;
use grafik::roster::expand;
use grafik::rules::{count_coverage, count_load, may_join, Placement};

fn crew(n: i64) -> Vec<Employee> {
    (1..=n)
        .map(|id| Employee {
            id: Some(id * 10),
            first_name: format!("Imię{}", id),
            last_name: format!("Nazwisko{}", id),
            role: None,
            employment_type: if id % 2 == 0 { "part-time".to_string() } else { "full-time".to_string() },
            status: if id % 5 == 0 { "inactive".to_string() } else { "active".to_string() },
        })
        .collect()
}

fn week() -> Vec<Shift> {
    let mut shifts = Vec::new();
    let mut id = 1;
    for day in 0..7 {
        for (start, end, staff) in [("06:00", "14:00", 2), ("14:00", "22:00", 2), ("22:00", "06:00", 1)] {
            shifts.push(Shift {
                id: Some(id),
                day_of_week: day,
                start_time: start.to_string(),
                end_time: end.to_string(),
                required_staff: staff,
            });
            id += 1;
        }
    }
    shifts
}

fn leave(employee_id: i64, start: &str, end: &str) -> Absence {
    Absence { id: None, employee_id, start_date: start.to_string(), end_date: end.to_string(), absence_type: "urlop".to_string() }
}

fn quarter(employees: i64) -> SolverInput {
    SolverInput {
        employees: crew(employees),
        shifts: week(),
        absences: vec![
            leave(10, "2024-01-10", "2024-01-20"),
            leave(20, "2024-02-01", "2024-02-29"),
            leave(30, "2023-12-01", "2024-01-03"),
            leave(40, "2024-03-30", "2024-04-15"),
            leave(10, "2024-03-01", "2024-03-01"),
        ],
        date_range: DateRange { start_date: "2024-01-01".to_string(), end_date: "2024-03-31".to_string() },
    }
}

fn span(input: &SolverInput, shift_id: i64, date: &str) -> (i64, i64) {
    let s = input.shifts.iter().find(|s| s.id == Some(shift_id)).unwrap();
    let day = read_day(date).unwrap();
    let start = read_clock(&s.start_time).unwrap();
    let end = read_clock(&s.end_time).unwrap();
    (day * 1440 + start, day * 1440 + end + if end < start { 1440 } else { 0 })
}

fn check_rules(input: &SolverInput, limit: u64) -> usize {
    let r = solve_local(input, limit);
    let a = &r.assignments;
    for x in 0..a.len() {
        let e = input.employees.iter().find(|e| e.id == Some(a[x].employee_id)).unwrap();
        assert_eq!(e.status, "active");
        let day = read_day(&a[x].date).unwrap();
        for l in &input.absences {
            if l.employee_id == a[x].employee_id {
                assert!(!(read_day(&l.start_date).unwrap() <= day && day <= read_day(&l.end_date).unwrap()));
            }
        }
        let s = input.shifts.iter().find(|s| s.id == Some(a[x].shift_id)).unwrap();
        assert_eq!(((day + 6) % 7) as i32, s.day_of_week);
        let here = a.iter().filter(|o| o.shift_id == a[x].shift_id && o.date == a[x].date).count();
        assert!(here <= s.required_staff as usize);
        for y in 0..a.len() {
            if x != y && a[x].employee_id == a[y].employee_id {
                assert_ne!(a[x].date, a[y].date);
                let (start_x, end_x) = span(input, a[x].shift_id, &a[x].date);
                let (start_y, _) = span(input, a[y].shift_id, &a[y].date);
                if start_x <= start_y {
                    assert!(start_y - end_x >= 11 * 60);
                }
            }
        }
    }
    assert_eq!(r.status == "SUCCESS", r.warnings.is_empty() && r.errors.is_empty());
    assert_eq!(r.status == "ERROR", !r.errors.is_empty());
    a.len()
}

#[test]
fn every_hard_rule_holds_of_a_quarter_with_enough_staff() {
    let input = quarter(12);
    let placed = check_rules(&input, 50);
    // 13 weeks of 7 days with 5 people a day.
    assert_eq!(placed, 13 * 7 * 5);
    assert_eq!(solve_local(&input, 50).status, "SUCCESS");
}

#[test]
fn every_hard_rule_holds_of_a_quarter_that_is_short_of_staff() {
    for staff in [1, 3, 6] {
        let input = quarter(staff);
        let placed = check_rules(&input, 20);
        assert!(placed < 13 * 7 * 5);
        assert_ne!(solve_local(&input, 20).status, "SUCCESS");
    }
}

#[test]
fn no_shift_gets_more_people_than_it_requires() {
    let input = SolverInput {
        employees: crew(4),
        shifts: vec![Shift { id: Some(1), day_of_week: 3, start_time: "08:00".to_string(), end_time: "16:00".to_string(), required_staff: 1 }],
        absences: vec![],
        date_range: DateRange { start_date: "2024-01-01".to_string(), end_date: "2024-01-31".to_string() },
    };
    let r = solve_local(&input, 10);
    assert_eq!(r.status, "SUCCESS");
    let who: Vec<(i64, &str)> = r.assignments.iter().map(|e| (e.employee_id, e.date.as_str())).collect();
    assert_eq!(
        who,
        vec![(10, "2024-01-03"), (20, "2024-01-10"), (30, "2024-01-17"), (40, "2024-01-24"), (10, "2024-01-31")]
    );
}

#[test]
fn nobody_can_join_a_shift_that_is_left_short() {
    let input = quarter(3);
    let p = compile(&input).unwrap();
    let placed = plan(&p, 20);
    let roster = expand(&p);
    assert_eq!(roster.len(), 13 * 7 * 3);
    let mut short = 0;
    for inst in &roster {
        let have = count_coverage(&placed, inst.template, inst.day);
        let need = p.templates[inst.template].required;
        assert!(have <= need);
        if have < need {
            short += 1;
            for w in 0..p.workers.len() {
                assert!(!may_join(&p, &placed, Placement { worker: w, template: inst.template, day: inst.day }));
            }
        }
    }
    assert!(short > 0);
    let loads: Vec<usize> = (0..p.workers.len()).map(|w| count_load(&placed, w)).collect();
    assert_eq!(loads.iter().sum::<usize>(), placed.len());
}

#[test]
fn the_roster_is_in_staffing_order() {
    let input = quarter(2);
    let p = compile(&input).unwrap();
    let roster = expand(&p);
    for pair in roster.windows(2) {
        let a = (pair[0].day, p.templates[pair[0].template].start, p.templates[pair[0].template].id);
        let b = (pair[1].day, p.templates[pair[1].template].start, p.templates[pair[1].template].id);
        assert!(a < b);
    }
    assert_eq!(roster[0].day, read_day("2024-01-01").unwrap());
    assert_eq!(p.templates[roster[0].template].id, 4);
    assert_eq!(roster[roster.len() - 1].day, read_day("2024-03-31").unwrap());
    assert_eq!(p.templates[roster[roster.len() - 1].template].id, 3);
}

#[test]
fn a_range_of_dates_is_validated() {
    let ok = DateRange::new("2024-02-29".to_string(), "2024-02-01".to_string()).unwrap();
    assert_eq!((ok.start_date.as_str(), ok.end_date.as_str()), ("2024-02-29", "2024-02-01"));
    assert_eq!(DateRange::new("2023-02-29".to_string(), "2024-02-01".to_string()).unwrap_err(), Defect::MalformedDate);
    assert_eq!(DateRange::new("2024-02-01".to_string(), "".to_string()).unwrap_err(), Defect::MalformedDate);
}
