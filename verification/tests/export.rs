use grafik::commands::{export_schedule_csv, export_schedule_pdf_html};
use grafik::export::{push_csv_field, push_csv_line, sort_for_export};
use grafik::models::{Employee, ScheduleEntry, Shift};

fn person(id: i64, first: &str, last: &str) -> Employee {
    Employee {
        id: Some(id),
        first_name: first.to_string(),
        last_name: last.to_string(),
        role: None,
        employment_type: "full-time".to_string(),
        status: "active".to_string(),
    }
}

fn shift(id: i64, day_of_week: i32, start: &str, end: &str) -> Shift {
    Shift { id: Some(id), day_of_week, start_time: start.to_string(), end_time: end.to_string(), required_staff: 1 }
}

fn entry(employee_id: i64, date: &str, shift_id: i64) -> ScheduleEntry {
    ScheduleEntry { id: None, employee_id, date: date.to_string(), shift_id }
}

fn staff() -> Vec<Employee> {
    vec![person(1, "Anna", "Nowak"), person(2, "Jan", "Kowalski"), person(3, "Ewa", "Adamska"), person(4, "Adam", "Nowak")]
}

fn shifts() -> Vec<Shift> {
    vec![shift(10, 1, "09:00", "17:00"), shift(11, 9, "10:00", "12:00"), shift(12, 0, "22:00", "06:00"), shift(13, 3, "08:00", "16:00")]
}

#[test]
fn csv_is_sorted_by_date_then_last_name_then_first_name() {
    let entries = vec![
        entry(2, "2024-01-02", 10),
        entry(1, "2024-01-01", 10),
        entry(3, "2024-01-01", 11),
        entry(99, "2024-01-01", 77),
        entry(4, "2024-01-01", 12),
        entry(1, "2023-12-31", 13),
    ];
    let csv = export_schedule_csv(entries, staff(), shifts()).unwrap();
    assert_eq!(
        csv,
        "Data,Pracownik,Zmiana,Godziny\n\
         2023-12-31,Anna Nowak,Śr,08:00 - 16:00\n\
         2024-01-01,Ewa Adamska,?,10:00 - 12:00\n\
         2024-01-01,Anna Nowak,Pn,09:00 - 17:00\n\
         2024-01-01,ID 99,?,ID 77\n\
         2024-01-01,Adam Nowak,Nd,22:00 - 06:00\n\
         2024-01-02,Jan Kowalski,Pn,09:00 - 17:00\n"
    );
}

#[test]
fn csv_of_no_entries_is_the_header() {
    assert_eq!(export_schedule_csv(vec![], staff(), shifts()).unwrap(), "Data,Pracownik,Zmiana,Godziny\n");
}

#[test]
fn csv_has_one_line_for_each_entry() {
    let entries: Vec<ScheduleEntry> = (0..25).map(|k| entry(1 + (k * 7) % 5, &format!("2024-01-{:02}", 1 + (k * 11) % 28), 10 + k % 4)).collect();
    let dates: Vec<String> = entries.iter().map(|e| e.date.clone()).collect();
    let csv = export_schedule_csv(entries, staff(), shifts()).unwrap();
    let lines: Vec<&str> = csv.lines().collect();
    assert_eq!(lines.len(), 26);
    assert_eq!(lines[0], "Data,Pracownik,Zmiana,Godziny");
    let mut sorted = dates.clone();
    sorted.sort();
    let exported: Vec<String> = lines[1..].iter().map(|l| l.split(',').next().unwrap().to_string()).collect();
    assert_eq!(exported, sorted);
}

#[test]
fn entries_that_compare_equal_keep_their_order() {
    let entries = vec![
        entry(1, "2024-01-01", 13),
        entry(4, "2024-01-01", 10),
        entry(1, "2024-01-01", 10),
        entry(98, "2024-01-01", 10),
        entry(97, "2024-01-01", 10),
        entry(1, "2024-01-01", 12),
    ];
    let order = sort_for_export(&entries, &staff());
    assert_eq!(order, vec![1, 0, 2, 3, 4, 5]);
}

#[test]
fn the_last_record_with_an_identifier_wins() {
    let mut people = staff();
    people.push(person(1, "Zofia", "Zielona"));
    let csv = export_schedule_csv(vec![entry(1, "2024-01-01", 10)], people, shifts()).unwrap();
    assert_eq!(csv, "Data,Pracownik,Zmiana,Godziny\n2024-01-01,Zofia Zielona,Pn,09:00 - 17:00\n");
}

#[test]
fn negative_identifiers_are_written_with_their_sign() {
    let csv = export_schedule_csv(vec![entry(-5, "2024-01-01", i64::MIN)], vec![], vec![]).unwrap();
    assert_eq!(csv, "Data,Pracownik,Zmiana,Godziny\n2024-01-01,ID -5,?,ID -9223372036854775808\n");
}

#[test]
fn html_page_holds_the_period_and_the_rows() {
    let entries = vec![entry(2, "2024-01-02", 10), entry(1, "2024-01-01", 12), entry(9, "2024-01-01", 11)];
    let html = export_schedule_pdf_html(entries, staff(), shifts(), "2024-01-01".to_string(), "2024-01-07".to_string()).unwrap();
    let expected = format!(
        r#"<!DOCTYPE html>
<html>
<head>
    <meta charset="UTF-8">
    <title>Grafik Pracy</title>
    <style>
        body {{ font-family: Arial, sans-serif; margin: 20px; }}
        h1 {{ text-align: center; }}
        .period {{ text-align: center; color: #666; margin-bottom: 20px; }}
        table {{ width: 100%; border-collapse: collapse; margin-top: 20px; }}
        th, td {{ border: 1px solid #ddd; padding: 8px; text-align: left; }}
        th {{ background-color: #4CAF50; color: white; }}
        tr:nth-child(even) {{ background-color: #f2f2f2; }}
        @media print {{
            body {{ margin: 0; }}
            @page {{ margin: 1cm; }}
        }}
    </style>
</head>
<body>
    <h1>Grafik Pracy</h1>
    <div class="period">Okres: {} - {}</div>
    <table>
        <thead>
            <tr>
                <th>Data</th>
                <th>Pracownik</th>
                <th>Zmiana</th>
                <th>Godziny</th>
            </tr>
        </thead>
        <tbody>
            <tr><td>2024-01-01</td><td>Anna Nowak</td><td>Niedziela</td><td>22:00 - 06:00</td></tr>
            <tr><td>2024-01-01</td><td>ID 9</td><td>?</td><td>10:00 - 12:00</td></tr>
            <tr><td>2024-01-02</td><td>Jan Kowalski</td><td>Poniedziałek</td><td>09:00 - 17:00</td></tr>
        </tbody>
    </table>
</body>
</html>"#,
        "2024-01-01", "2024-01-07"
    );
    assert_eq!(html, expected);
}

#[test]
fn every_day_of_the_week_has_its_names() {
    let days: Vec<Shift> = (0..8).map(|d| shift(d as i64, d - 0, "01:00", "02:00")).collect();
    let entries: Vec<ScheduleEntry> = (0..8).map(|d| entry(50, &format!("2024-01-{:02}", d + 1), d as i64)).collect();
    let csv = export_schedule_csv(entries.clone(), vec![], days.clone()).unwrap();
    let short: Vec<&str> = csv.lines().skip(1).map(|l| l.split(',').nth(2).unwrap()).collect();
    assert_eq!(short, vec!["Nd", "Pn", "Wt", "Śr", "Cz", "Pt", "Sb", "?"]);
    let html = export_schedule_pdf_html(entries, vec![], days, String::new(), String::new()).unwrap();
    for name in ["Niedziela", "Poniedziałek", "Wtorek", "Środa", "Czwartek", "Piątek", "Sobota"] {
        assert!(html.contains(&format!("<td>{}</td>", name)));
    }
    assert!(html.contains("<td>2024-01-08</td><td>ID 50</td><td>?</td>"));
}

/// Reads a CSV text: a comma ends a field and a line break a row, but for
/// those inside quotes; two quotes inside quotes are one.
fn read_csv(text: &str) -> Vec<Vec<String>> {
    let mut rows = Vec::new();
    let mut row = Vec::new();
    let mut field = String::new();
    let mut quoted = false;
    let mut pending = false;
    let mut chars = text.chars().peekable();
    while let Some(c) = chars.next() {
        pending = true;
        if quoted {
            if c == '"' {
                if chars.peek() == Some(&'"') {
                    chars.next();
                    field.push('"');
                } else {
                    quoted = false;
                }
            } else {
                field.push(c);
            }
        } else if c == '"' && field.is_empty() {
            quoted = true;
        } else if c == ',' {
            row.push(std::mem::take(&mut field));
        } else if c == '\n' {
            row.push(std::mem::take(&mut field));
            rows.push(std::mem::take(&mut row));
            pending = false;
        } else {
            field.push(c);
        }
    }
    if pending {
        row.push(field);
        rows.push(row);
    }
    rows
}

#[test]
fn a_row_without_a_known_employee_stays_where_it_came() {
    let known_first = vec![entry(1, "2024-01-01", 10), entry(99, "2024-01-01", 10)];
    assert_eq!(sort_for_export(&known_first, &staff()), vec![0, 1]);
    let unknown_first = vec![entry(99, "2024-01-01", 10), entry(1, "2024-01-01", 10)];
    assert_eq!(sort_for_export(&unknown_first, &staff()), vec![0, 1]);
    // Kowalski sorts before Nowak, but not across the row between them.
    let parted = vec![entry(1, "2024-01-01", 10), entry(99, "2024-01-01", 10), entry(2, "2024-01-01", 10)];
    assert_eq!(sort_for_export(&parted, &staff()), vec![0, 1, 2]);
    let together = vec![entry(1, "2024-01-01", 10), entry(2, "2024-01-01", 10), entry(99, "2024-01-01", 10)];
    assert_eq!(sort_for_export(&together, &staff()), vec![1, 0, 2]);
    // A row of another date parts nothing.
    let other_date = vec![entry(1, "2024-01-01", 10), entry(99, "2024-01-02", 10), entry(2, "2024-01-01", 10)];
    assert_eq!(sort_for_export(&other_date, &staff()), vec![2, 0, 1]);
    let csv = export_schedule_csv(known_first, staff(), shifts()).unwrap();
    assert_eq!(csv, "Data,Pracownik,Zmiana,Godziny\n2024-01-01,Anna Nowak,Pn,09:00 - 17:00\n2024-01-01,ID 99,Pn,09:00 - 17:00\n");
}

#[test]
fn fields_with_commas_quotes_and_line_breaks_are_quoted() {
    let mut out = String::new();
    for field in ["plain", "", "a,b", "say \"hi\"", "two\nlines", "cr\rhere", "\"", " spaced "] {
        push_csv_field(&mut out, field);
        out.push('|');
    }
    assert_eq!(out, "plain||\"a,b\"|\"say \"\"hi\"\"\"|\"two\nlines\"|\"cr\rhere\"|\"\"\"\"| spaced |");
    let mut line = String::from(">");
    push_csv_line(&mut line, "a", "b,c", "", "d\"e");
    assert_eq!(line, ">a,\"b,c\",,\"d\"\"e\"\n");
}

#[test]
fn csv_reads_back_whatever_the_fields_hold() {
    let people = vec![
        person(1, "A\nB", "Nowak"),
        person(2, "Jan, Maria", "Kowalski \"Kowal\""),
        person(3, "", ""),
        person(4, "\"", ",,"),
    ];
    let odd = vec![shift(10, 1, "09:00\r\n", "17,00"), shift(11, 3, "\"\"", "")];
    let entries = vec![
        entry(1, "2024-01-01", 10),
        entry(2, "2024,01,01", 11),
        entry(3, "", 10),
        entry(4, "2024-01-01\n", 11),
        entry(5, "\"2024\"", 12),
        entry(1, "2024-01-01", 11),
    ];
    let order = sort_for_export(&entries, &people);
    let csv = export_schedule_csv(entries.clone(), people.clone(), odd.clone()).unwrap();
    let rows = read_csv(&csv);
    assert_eq!(rows.len(), entries.len() + 1);
    assert_eq!(rows[0], vec!["Data", "Pracownik", "Zmiana", "Godziny"]);
    for (k, &i) in order.iter().enumerate() {
        let e = &entries[i];
        let name = match people.iter().rev().find(|p| p.id == Some(e.employee_id)) {
            Some(p) => format!("{} {}", p.first_name, p.last_name),
            None => format!("ID {}", e.employee_id),
        };
        let (label, hours) = match odd.iter().rev().find(|s| s.id == Some(e.shift_id)) {
            Some(s) => (["Nd", "Pn", "Wt", "Śr", "Cz", "Pt", "Sb"][s.day_of_week as usize].to_string(), format!("{} - {}", s.start_time, s.end_time)),
            None => ("?".to_string(), format!("ID {}", e.shift_id)),
        };
        assert_eq!(rows[k + 1], vec![e.date.clone(), name, label, hours]);
    }
    assert!(csv.contains("\"A\nB Nowak\""));
    assert!(csv.contains("\"Jan, Maria Kowalski \"\"Kowal\"\"\""));
}
