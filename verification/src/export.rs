//! Schedule export: the rows of a schedule in date and name order, written
//! as CSV and as a printable HTML page.

use vstd::prelude::*;
use vstd::string::*;
use vstd::utf8::encode_utf8;
use crate::models::{Employee, ScheduleEntry, Shift};
use crate::ranking::{ahead, is_ranking, lemma_count_all, listed, rank_all, ranking_of, Ranked};
use crate::text::{
    bytes_lt,
    lemma_bytes_lt_irreflexive,
    lemma_bytes_lt_total,
    lemma_bytes_lt_transitive,
    push_signed,
    signed_decimal,
    text_order,
};

verus! {

/// The position of the employee that an identifier names: the last one in the list that has it.
pub open spec fn employee_for(employees: Seq<Employee>, id: i64) -> Option<int>
    decreases employees.len(),
{
    if employees.len() == 0 {
        None
    } else if employees.last().id == Some(id) {
        Some(employees.len() - 1)
    } else {
        employee_for(employees.drop_last(), id)
    }
}

/// The position of the shift definition that an identifier names: the last one in the list that has it.
pub open spec fn shift_for(shifts: Seq<Shift>, id: i64) -> Option<int>
    decreases shifts.len(),
{
    if shifts.len() == 0 {
        None
    } else if shifts.last().id == Some(id) {
        Some(shifts.len() - 1)
    } else {
        shift_for(shifts.drop_last(), id)
    }
}


pub fn find_employee(employees: &Vec<Employee>, id: i64) -> (r: Option<usize>)
    ensures
        r matches Some(k) ==> k < employees.len(),
        match r {
            Some(k) => employee_for(employees@, id) == Some(k as int),
            None => employee_for(employees@, id) is None,
        },
{
    let mut k: usize = employees.len();
    assert(employees@.take(k as int) =~= employees@);
    while k > 0
        invariant
            0 <= k <= employees.len(),
            employee_for(employees@, id) == employee_for(employees@.take(k as int), id),
        decreases k,
    {
        k -= 1;
        proof {
            assert(employees@.take(k + 1).drop_last() =~= employees@.take(k as int));
            assert(employees@.take(k + 1).last() == employees@[k as int]);
        }
        match employees[k].id {
            Some(other) => {
                if other == id {
                    return Some(k);
                }
            },
            None => {},
        }
    }
    None
}

pub fn find_shift(shifts: &Vec<Shift>, id: i64) -> (r: Option<usize>)
    ensures
        r matches Some(k) ==> k < shifts.len(),
        match r {
            Some(k) => shift_for(shifts@, id) == Some(k as int),
            None => shift_for(shifts@, id) is None,
        },
{
    let mut k: usize = shifts.len();
    assert(shifts@.take(k as int) =~= shifts@);
    while k > 0
        invariant
            0 <= k <= shifts.len(),
            shift_for(shifts@, id) == shift_for(shifts@.take(k as int), id),
        decreases k,
    {
        k -= 1;
        proof {
            assert(shifts@.take(k + 1).drop_last() =~= shifts@.take(k as int));
            assert(shifts@.take(k + 1).last() == shifts@[k as int]);
        }
        match shifts[k].id {
            Some(other) => {
                if other == id {
                    return Some(k);
                }
            },
            None => {},
        }
    }
    None
}

/// How many of the first `upto` entries are on the date and have no employee in the list.
pub open spec fn gaps_before(
    entries: Seq<ScheduleEntry>,
    employees: Seq<Employee>,
    date: Seq<char>,
    upto: int,
) -> nat
    decreases upto,
{
    if upto <= 0 {
        0
    } else {
        gaps_before(entries, employees, date, upto - 1) + if entries[upto - 1].date@ == date
            && employee_for(employees, entries[upto - 1].employee_id) is None {
            1nat
        } else {
            0nat
        }
    }
}

/// What a row is sorted by: the entry, for its date; its employee, for the
/// names, where the list of employees has one; and how many rows without an
/// employee came before it on its date.
///
/// A row without an employee is ordered against no other row of its date: it
/// stays behind those that came before it and ahead of those that came after.
/// So the rows of one date fall into segments that such rows part, and names
/// order the rows within a segment.
#[derive(Clone, Copy, Debug)]
pub struct RowRef<'a> {
    pub entry: &'a ScheduleEntry,
    pub employee: Option<&'a Employee>,
    pub segment: usize,
}

impl<'a> RowRef<'a> {
    pub open spec fn date_bytes(self) -> Seq<u8> {
        encode_utf8(self.entry.date@)
    }

    pub open spec fn last_bytes(self) -> Seq<u8> {
        match self.employee {
            Some(e) => encode_utf8(e.last_name@),
            None => Seq::empty(),
        }
    }

    pub open spec fn first_bytes(self) -> Seq<u8> {
        match self.employee {
            Some(e) => encode_utf8(e.first_name@),
            None => Seq::empty(),
        }
    }
}

/// Every fact of the order of three byte strings.
proof fn lemma_bytes_facts(x: Seq<u8>, y: Seq<u8>, z: Seq<u8>)
    ensures
        !bytes_lt(x, x) && !bytes_lt(y, y) && !bytes_lt(z, z),
        x != y ==> (bytes_lt(x, y) <==> !bytes_lt(y, x)),
        x != z ==> (bytes_lt(x, z) <==> !bytes_lt(z, x)),
        y != z ==> (bytes_lt(y, z) <==> !bytes_lt(z, y)),
        bytes_lt(x, y) && bytes_lt(y, z) ==> bytes_lt(x, z),
        bytes_lt(x, z) && bytes_lt(z, y) ==> bytes_lt(x, y),
        bytes_lt(y, x) && bytes_lt(x, z) ==> bytes_lt(y, z),
        bytes_lt(y, z) && bytes_lt(z, x) ==> bytes_lt(y, x),
        bytes_lt(z, x) && bytes_lt(x, y) ==> bytes_lt(z, y),
        bytes_lt(z, y) && bytes_lt(y, x) ==> bytes_lt(z, x),
{
    lemma_bytes_lt_irreflexive(x);
    lemma_bytes_lt_irreflexive(y);
    lemma_bytes_lt_irreflexive(z);
    lemma_bytes_lt_total(x, y);
    lemma_bytes_lt_total(x, z);
    lemma_bytes_lt_total(y, z);
    if bytes_lt(x, y) && bytes_lt(y, x) {
        lemma_bytes_lt_transitive(x, y, x);
    }
    if bytes_lt(x, z) && bytes_lt(z, x) {
        lemma_bytes_lt_transitive(x, z, x);
    }
    if bytes_lt(y, z) && bytes_lt(z, y) {
        lemma_bytes_lt_transitive(y, z, y);
    }
    if bytes_lt(x, y) && bytes_lt(y, z) {
        lemma_bytes_lt_transitive(x, y, z);
    }
    if bytes_lt(x, z) && bytes_lt(z, y) {
        lemma_bytes_lt_transitive(x, z, y);
    }
    if bytes_lt(y, x) && bytes_lt(x, z) {
        lemma_bytes_lt_transitive(y, x, z);
    }
    if bytes_lt(y, z) && bytes_lt(z, x) {
        lemma_bytes_lt_transitive(y, z, x);
    }
    if bytes_lt(z, x) && bytes_lt(x, y) {
        lemma_bytes_lt_transitive(z, x, y);
    }
    if bytes_lt(z, y) && bytes_lt(y, x) {
        lemma_bytes_lt_transitive(z, y, x);
    }
}

impl<'a> Ranked for RowRef<'a> {
    /// By date; on one date by segment; in one segment the rows with an
    /// employee by last name, then by first name, and the row without one
    /// last. Strings are ordered as their bytes are.
    open spec fn precedes(&self, other: &Self) -> bool {
        bytes_lt(self.date_bytes(), other.date_bytes()) || (self.date_bytes() == other.date_bytes() && (
            self.segment < other.segment || (self.segment == other.segment && ((self.employee is Some
            && other.employee is None) || (self.employee is Some && other.employee is Some && (bytes_lt(
            self.last_bytes(),
            other.last_bytes(),
        ) || (self.last_bytes() == other.last_bytes() && bytes_lt(
            self.first_bytes(),
            other.first_bytes(),
        ))))))))
    }

    fn comes_before(&self, other: &Self) -> (r: bool) {
        let by_date = text_order(self.entry.date.as_str(), other.entry.date.as_str());
        if by_date != 0 {
            return by_date < 0;
        }
        if self.segment != other.segment {
            return self.segment < other.segment;
        }
        match (self.employee, other.employee) {
            (Some(_), None) => true,
            (Some(a), Some(b)) => {
                let by_last = text_order(a.last_name.as_str(), b.last_name.as_str());
                if by_last != 0 {
                    by_last < 0
                } else {
                    text_order(a.first_name.as_str(), b.first_name.as_str()) < 0
                }
            },
            _ => false,
        }
    }

    proof fn lemma_strict_weak_order(a: &Self, b: &Self, c: &Self) {
        lemma_bytes_facts(a.date_bytes(), b.date_bytes(), c.date_bytes());
        lemma_bytes_facts(a.last_bytes(), b.last_bytes(), c.last_bytes());
        lemma_bytes_facts(a.first_bytes(), b.first_bytes(), c.first_bytes());
    }
}

/// The sorting key of every entry.
pub open spec fn row_keys<'a>(entries: Seq<ScheduleEntry>, employees: Seq<Employee>) -> Seq<RowRef<'a>> {
    Seq::new(
        entries.len(),
        |i: int|
            RowRef {
                entry: &entries[i],
                employee: match employee_for(employees, entries[i].employee_id) {
                    Some(k) => Some(&employees[k]),
                    None => None,
                },
                segment: gaps_before(entries, employees, entries[i].date@, i) as usize,
            },
    )
}

/// The order in which the entries are exported: positions in the list, sorted
/// by date, segment and name; entries that compare equal keep the order they
/// came in. It is what sorting by date, then last name, then first name gives
/// where a row without an employee compares equal to every row of its date.
pub open spec fn export_order(entries: Seq<ScheduleEntry>, employees: Seq<Employee>) -> Seq<usize> {
    ranking_of(row_keys(entries, employees), Seq::new(entries.len(), |i: int| true))
}

/// `order` is the order in which the entries are exported.
pub open spec fn is_export_order(
    entries: Seq<ScheduleEntry>,
    employees: Seq<Employee>,
    order: Seq<usize>,
) -> bool {
    &&& order.len() == entries.len()
    &&& forall|j: int| 0 <= j < entries.len() ==> #[trigger] listed(order, j)
    &&& is_ranking(row_keys(entries, employees), Seq::new(entries.len(), |i: int| true), order)
}

/// A listing of all positions of a table lists every position.
proof fn lemma_all_listed<K: Ranked>(keys: Seq<K>, order: Seq<usize>)
    requires
        is_ranking(keys, Seq::new(keys.len(), |i: int| true), order),
    ensures
        forall|j: int| 0 <= j < keys.len() ==> #[trigger] listed(order, j),
{
    let flags = Seq::new(keys.len(), |i: int| true);
    assert forall|j: int| 0 <= j < keys.len() implies #[trigger] listed(order, j) by {
        assert(flags[j]);
    }
}

/// Entry `a` came before entry `b` of the same date, and one of them has no
/// employee in the list, or their employees have the same last name and the
/// same first name.
pub open spec fn tied(entries: Seq<ScheduleEntry>, employees: Seq<Employee>, a: int, b: int) -> bool {
    let x = employee_for(employees, entries[a].employee_id);
    let y = employee_for(employees, entries[b].employee_id);
    &&& 0 <= a < b < entries.len()
    &&& entries[a].date@ == entries[b].date@
    &&& (x is None || y is None || (employees[x->0].last_name@ == employees[y->0].last_name@
        && employees[x->0].first_name@ == employees[y->0].first_name@))
}

/// In `order`, entries that are tied stand as they came.
pub open spec fn keeps_ties(entries: Seq<ScheduleEntry>, employees: Seq<Employee>, order: Seq<usize>) -> bool {
    forall|i: int, j: int|
        #![trigger order[i], order[j]]
        0 <= i < order.len() && 0 <= j < order.len() && tied(
            entries,
            employees,
            order[i] as int,
            order[j] as int,
        ) ==> i < j
}

/// `found` is the position of the employee of the entry, if the list has one.
pub open spec fn is_found(employees: Seq<Employee>, e: ScheduleEntry, found: Option<usize>) -> bool {
    match found {
        Some(k) => k < employees.len() && employee_for(employees, e.employee_id) == Some(k as int),
        None => employee_for(employees, e.employee_id) is None,
    }
}

fn count_gaps(
    entries: &Vec<ScheduleEntry>,
    employees: &Vec<Employee>,
    found: &Vec<Option<usize>>,
    i: usize,
) -> (r: usize)
    requires
        i < entries.len(),
        found.len() == entries.len(),
        forall|k: int| 0 <= k < entries.len() ==> is_found(employees@, entries@[k], #[trigger] found@[k]),
    ensures
        r as nat == gaps_before(entries@, employees@, entries@[i as int].date@, i as int),
{
    let mut n: usize = 0;
    let mut j: usize = 0;
    while j < i
        invariant
            0 <= j <= i < entries.len(),
            n <= j,
            found.len() == entries.len(),
            forall|k: int|
                0 <= k < entries.len() ==> is_found(employees@, entries@[k], #[trigger] found@[k]),
            n as nat == gaps_before(entries@, employees@, entries@[i as int].date@, j as int),
        decreases i - j,
    {
        assert(is_found(employees@, entries@[j as int], found@[j as int]));
        if found[j].is_none() && entries[j].date == entries[i].date {
            n += 1;
        }
        j += 1;
    }
    n
}

/// Sorts the entries for export.
pub fn sort_for_export(entries: &Vec<ScheduleEntry>, employees: &Vec<Employee>) -> (r: Vec<usize>)
    ensures
        r@ == export_order(entries@, employees@),
        is_export_order(entries@, employees@, r@),
        keeps_ties(entries@, employees@, r@),
{
    let mut found: Vec<Option<usize>> = Vec::new();
    let mut i: usize = 0;
    while i < entries.len()
        invariant
            0 <= i <= entries.len(),
            found.len() == i,
            forall|k: int| 0 <= k < i ==> is_found(employees@, entries@[k], #[trigger] found@[k]),
        decreases entries.len() - i,
    {
        found.push(find_employee(employees, entries[i].employee_id));
        i += 1;
    }
    let mut keys: Vec<RowRef> = Vec::new();
    let mut flags: Vec<bool> = Vec::new();
    let mut i: usize = 0;
    while i < entries.len()
        invariant
            0 <= i <= entries.len(),
            found.len() == entries.len(),
            forall|k: int|
                0 <= k < entries.len() ==> is_found(employees@, entries@[k], #[trigger] found@[k]),
            keys.len() == i,
            flags.len() == i,
            forall|k: int| 0 <= k < i ==> #[trigger] flags@[k],
            forall|k: int| 0 <= k < i ==> #[trigger] keys@[k] == row_keys(entries@, employees@)[k],
        decreases entries.len() - i,
    {
        assert(is_found(employees@, entries@[i as int], found@[i as int]));
        let employee = match found[i] {
            Some(k) => Some(&employees[k]),
            None => None,
        };
        let segment = count_gaps(entries, employees, &found, i);
        keys.push(RowRef { entry: &entries[i], employee, segment });
        flags.push(true);
        i += 1;
    }
    proof {
        assert(keys@ =~= row_keys(entries@, employees@));
        assert(flags@ =~= Seq::new(entries@.len(), |i: int| true));
        lemma_count_all(keys@, flags@, keys@.len() as int);
    }
    let order = rank_all(&keys, &flags);
    proof {
        lemma_all_listed(keys@, order@);
        assert forall|i: int, j: int|
            #![trigger order@[i], order@[j]]
            0 <= i < order@.len() && 0 <= j < order@.len() && tied(
                entries@,
                employees@,
                order@[i] as int,
                order@[j] as int,
            ) implies i < j by {
            lemma_ties_keep_order(entries@, employees@, order@[i] as int, order@[j] as int);
            if j < i {
                assert(ahead(keys@, order@[j] as int, order@[i] as int));
                crate::ranking::lemma_ahead_total(keys@, order@[i] as int, order@[j] as int, order@[i] as int);
            }
        }
    }
    order
}

/// The HTML page up to the start of the period.
pub const HTML_HEAD: &'static str =
    "<!DOCTYPE html>\n<html>\n<head>\n    <meta charset=\"UTF-8\">\n    <title>Grafik Pracy</title>\n    <style>\n        body { font-family: Arial, sans-serif; margin: 20px; }\n        h1 { text-align: center; }\n        .period { text-align: center; color: #666; margin-bottom: 20px; }\n        table { width: 100%; border-collapse: collapse; margin-top: 20px; }\n        th, td { border: 1px solid #ddd; padding: 8px; text-align: left; }\n        th { background-color: #4CAF50; color: white; }\n        tr:nth-child(even) { background-color: #f2f2f2; }\n        @media print {\n            body { margin: 0; }\n            @page { margin: 1cm; }\n        }\n    </style>\n</head>\n<body>\n    <h1>Grafik Pracy</h1>\n    <div class=\"period\">Okres: ";

/// The HTML page from the end of the period to the first row.
pub const HTML_NECK: &'static str =
    "</div>\n    <table>\n        <thead>\n            <tr>\n                <th>Data</th>\n                <th>Pracownik</th>\n                <th>Zmiana</th>\n                <th>Godziny</th>\n            </tr>\n        </thead>\n        <tbody>\n";

/// The HTML page after the last row.
pub const HTML_FOOT: &'static str = "        </tbody>\n    </table>\n</body>\n</html>";

/// The short name of a day of the week; `?` for a number that is none.
pub open spec fn short_day(day_of_week: int) -> Seq<char> {
    if day_of_week == 0 {
        "Nd"@
    } else if day_of_week == 1 {
        "Pn"@
    } else if day_of_week == 2 {
        "Wt"@
    } else if day_of_week == 3 {
        "Śr"@
    } else if day_of_week == 4 {
        "Cz"@
    } else if day_of_week == 5 {
        "Pt"@
    } else if day_of_week == 6 {
        "Sb"@
    } else {
        "?"@
    }
}

/// The full name of a day of the week; `?` for a number that is none.
pub open spec fn long_day(day_of_week: int) -> Seq<char> {
    if day_of_week == 0 {
        "Niedziela"@
    } else if day_of_week == 1 {
        "Poniedziałek"@
    } else if day_of_week == 2 {
        "Wtorek"@
    } else if day_of_week == 3 {
        "Środa"@
    } else if day_of_week == 4 {
        "Czwartek"@
    } else if day_of_week == 5 {
        "Piątek"@
    } else if day_of_week == 6 {
        "Sobota"@
    } else {
        "?"@
    }
}

pub fn short_day_name(day_of_week: i32) -> (r: &'static str)
    ensures
        r@ == short_day(day_of_week as int),
{
    match day_of_week {
        0 => "Nd",
        1 => "Pn",
        2 => "Wt",
        3 => "Śr",
        4 => "Cz",
        5 => "Pt",
        6 => "Sb",
        _ => "?",
    }
}

pub fn long_day_name(day_of_week: i32) -> (r: &'static str)
    ensures
        r@ == long_day(day_of_week as int),
{
    match day_of_week {
        0 => "Niedziela",
        1 => "Poniedziałek",
        2 => "Wtorek",
        3 => "Środa",
        4 => "Czwartek",
        5 => "Piątek",
        6 => "Sobota",
        _ => "?",
    }
}

/// The name of the employee of an entry: first and last name, or the
/// identifier where the list of employees has none with it.
pub open spec fn name_text(employees: Seq<Employee>, e: ScheduleEntry) -> Seq<char> {
    match employee_for(employees, e.employee_id) {
        Some(k) => employees[k].first_name@ + " "@ + employees[k].last_name@,
        None => "ID "@ + signed_decimal(e.employee_id as int),
    }
}

/// The hours of the shift of an entry: start and end, or the identifier where
/// the list of shifts has none with it.
pub open spec fn hours_text(shifts: Seq<Shift>, e: ScheduleEntry) -> Seq<char> {
    match shift_for(shifts, e.shift_id) {
        Some(k) => shifts[k].start_time@ + " - "@ + shifts[k].end_time@,
        None => "ID "@ + signed_decimal(e.shift_id as int),
    }
}

/// The day of the week of the shift of an entry, by its short name.
pub open spec fn short_label(shifts: Seq<Shift>, e: ScheduleEntry) -> Seq<char> {
    match shift_for(shifts, e.shift_id) {
        Some(k) => short_day(shifts[k].day_of_week as int),
        None => "?"@,
    }
}

/// The day of the week of the shift of an entry, by its full name.
pub open spec fn long_label(shifts: Seq<Shift>, e: ScheduleEntry) -> Seq<char> {
    match shift_for(shifts, e.shift_id) {
        Some(k) => long_day(shifts[k].day_of_week as int),
        None => "?"@,
    }
}

/// A character that a CSV field cannot hold as it is.
pub open spec fn is_special(c: char) -> bool {
    c == ',' || c == '"' || c == '\n' || c == '\r'
}

/// The field holds a comma, a quote or a line break, and so is written in quotes.
pub open spec fn needs_quoting(s: Seq<char>) -> bool {
    exists|i: int| 0 <= i < s.len() && is_special(#[trigger] s[i])
}

/// The text with every quote written twice.
pub open spec fn doubled(s: Seq<char>) -> Seq<char>
    decreases s.len(),
{
    if s.len() == 0 {
        Seq::empty()
    } else if s.last() == '"' {
        doubled(s.drop_last()).push('"').push('"')
    } else {
        doubled(s.drop_last()).push(s.last())
    }
}

/// A field as the CSV export writes it: as it is, or, where it holds a comma,
/// a quote or a line break, in quotes and with its quotes doubled.
pub open spec fn csv_field(s: Seq<char>) -> Seq<char> {
    if needs_quoting(s) {
        seq!['"'] + doubled(s) + seq!['"']
    } else {
        s
    }
}

/// A line of four fields.
pub open spec fn csv_line(a: Seq<char>, b: Seq<char>, c: Seq<char>, d: Seq<char>) -> Seq<char> {
    csv_field(a) + seq![','] + csv_field(b) + seq![','] + csv_field(c) + seq![','] + csv_field(d)
        + seq!['\n']
}

/// The four fields of the header line.
pub open spec fn header_fields() -> Seq<Seq<char>> {
    seq!["Data"@, "Pracownik"@, "Zmiana"@, "Godziny"@]
}

/// The header line of the CSV export.
pub open spec fn csv_header() -> Seq<char> {
    csv_line("Data"@, "Pracownik"@, "Zmiana"@, "Godziny"@)
}

/// The four fields of the line of an entry: date, employee, day of the week, hours.
pub open spec fn row_fields(employees: Seq<Employee>, shifts: Seq<Shift>, e: ScheduleEntry) -> Seq<
    Seq<char>,
> {
    seq![e.date@, name_text(employees, e), short_label(shifts, e), hours_text(shifts, e)]
}

/// One line of the CSV export: date, employee, day of the week, hours.
pub open spec fn csv_row(employees: Seq<Employee>, shifts: Seq<Shift>, e: ScheduleEntry) -> Seq<char> {
    csv_line(e.date@, name_text(employees, e), short_label(shifts, e), hours_text(shifts, e))
}

/// One row of the HTML table.
pub open spec fn html_row(employees: Seq<Employee>, shifts: Seq<Shift>, e: ScheduleEntry) -> Seq<char> {
    "            <tr><td>"@ + e.date@ + "</td><td>"@ + name_text(employees, e) + "</td><td>"@
        + long_label(shifts, e) + "</td><td>"@ + hours_text(shifts, e) + "</td></tr>\n"@
}

/// The lines of the entries at the positions of `order`, one after the other.
pub open spec fn csv_rows(
    entries: Seq<ScheduleEntry>,
    employees: Seq<Employee>,
    shifts: Seq<Shift>,
    order: Seq<usize>,
) -> Seq<char>
    decreases order.len(),
{
    if order.len() == 0 {
        Seq::empty()
    } else {
        csv_rows(entries, employees, shifts, order.drop_last()) + csv_row(
            employees,
            shifts,
            entries[order.last() as int],
        )
    }
}

/// The table rows of the entries at the positions of `order`, one after the other.
pub open spec fn html_rows(
    entries: Seq<ScheduleEntry>,
    employees: Seq<Employee>,
    shifts: Seq<Shift>,
    order: Seq<usize>,
) -> Seq<char>
    decreases order.len(),
{
    if order.len() == 0 {
        Seq::empty()
    } else {
        html_rows(entries, employees, shifts, order.drop_last()) + html_row(
            employees,
            shifts,
            entries[order.last() as int],
        )
    }
}

/// The CSV export of a schedule: the header, then one line for each entry, in export order.
pub open spec fn csv_text(entries: Seq<ScheduleEntry>, employees: Seq<Employee>, shifts: Seq<Shift>) -> Seq<
    char,
> {
    csv_header() + csv_rows(entries, employees, shifts, export_order(entries, employees))
}

/// The HTML export of a schedule for a period: the page with one table row
/// for each entry, in export order.
pub open spec fn html_text(
    entries: Seq<ScheduleEntry>,
    employees: Seq<Employee>,
    shifts: Seq<Shift>,
    start_date: Seq<char>,
    end_date: Seq<char>,
) -> Seq<char> {
    HTML_HEAD@ + start_date + " - "@ + end_date + HTML_NECK@ + html_rows(
        entries,
        employees,
        shifts,
        export_order(entries, employees),
    ) + HTML_FOOT@
}

fn employee_name(employees: &Vec<Employee>, e: &ScheduleEntry) -> (r: String)
    ensures
        r@ == name_text(employees@, *e),
{
    match find_employee(employees, e.employee_id) {
        Some(k) => {
            let mut out = String::new();
            out.append(employees[k].first_name.as_str());
            out.append(" ");
            out.append(employees[k].last_name.as_str());
            assert(out@ =~= name_text(employees@, *e));
            out
        },
        None => {
            let mut out = String::from_str("ID ");
            push_signed(&mut out, e.employee_id);
            out
        },
    }
}

fn shift_hours(shifts: &Vec<Shift>, e: &ScheduleEntry) -> (r: String)
    ensures
        r@ == hours_text(shifts@, *e),
{
    match find_shift(shifts, e.shift_id) {
        Some(k) => {
            let mut out = String::new();
            out.append(shifts[k].start_time.as_str());
            out.append(" - ");
            out.append(shifts[k].end_time.as_str());
            assert(out@ =~= hours_text(shifts@, *e));
            out
        },
        None => {
            let mut out = String::from_str("ID ");
            push_signed(&mut out, e.shift_id);
            out
        },
    }
}

/// Appends a field as the CSV export writes it.
pub fn push_csv_field(out: &mut String, s: &str)
    ensures
        final(out)@ == old(out)@ + csv_field(s@),
{
    let n = s.unicode_len();
    let mut special = false;
    let mut i: usize = 0;
    while i < n
        invariant
            0 <= i <= n,
            n == s@.len(),
            special <==> exists|j: int| 0 <= j < i && is_special(#[trigger] s@[j]),
        decreases n - i,
    {
        let c = s.get_char(i);
        if c == ',' || c == '"' || c == '\n' || c == '\r' {
            special = true;
        }
        i += 1;
    }
    if !special {
        out.append(s);
        return;
    }
    proof {
        reveal_strlit("\"");
        reveal_strlit("\"\"");
    }
    out.append("\"");
    let mut i: usize = 0;
    assert(s@.take(0) =~= Seq::<char>::empty());
    assert(out@ =~= old(out)@ + seq!['"'] + doubled(s@.take(0)));
    while i < n
        invariant
            0 <= i <= n,
            n == s@.len(),
            "\"\""@.len() == 2 && "\"\""@[0] == '"' && "\"\""@[1] == '"',
            out@ == old(out)@ + seq!['"'] + doubled(s@.take(i as int)),
        decreases n - i,
    {
        let c = s.get_char(i);
        proof {
            assert(s@.take(i + 1).drop_last() =~= s@.take(i as int));
            assert(s@.take(i + 1).last() == s@[i as int]);
        }
        if c == '"' {
            out.append("\"\"");
        } else {
            out.append(s.substring_char(i, i + 1));
        }
        assert(out@ =~= old(out)@ + seq!['"'] + doubled(s@.take(i + 1)));
        i += 1;
    }
    assert(s@.take(n as int) =~= s@);
    out.append("\"");
    assert(out@ =~= old(out)@ + csv_field(s@));
}

/// Appends a line of four fields.
pub fn push_csv_line(out: &mut String, a: &str, b: &str, c: &str, d: &str)
    ensures
        final(out)@ == old(out)@ + csv_line(a@, b@, c@, d@),
{
    proof {
        reveal_strlit(",");
        reveal_strlit("\n");
    }
    push_csv_field(out, a);
    out.append(",");
    push_csv_field(out, b);
    out.append(",");
    push_csv_field(out, c);
    out.append(",");
    push_csv_field(out, d);
    out.append("\n");
    assert(out@ =~= old(out)@ + csv_line(a@, b@, c@, d@));
}

fn push_csv_row(out: &mut String, employees: &Vec<Employee>, shifts: &Vec<Shift>, e: &ScheduleEntry)
    ensures
        final(out)@ == old(out)@ + csv_row(employees@, shifts@, *e),
{
    let label = match find_shift(shifts, e.shift_id) {
        Some(k) => short_day_name(shifts[k].day_of_week),
        None => "?",
    };
    let name = employee_name(employees, e);
    let hours = shift_hours(shifts, e);
    push_csv_line(out, e.date.as_str(), name.as_str(), label, hours.as_str());
}

fn write_html_row(employees: &Vec<Employee>, shifts: &Vec<Shift>, e: &ScheduleEntry) -> (r: String)
    ensures
        r@ == html_row(employees@, shifts@, *e),
{
    let label = match find_shift(shifts, e.shift_id) {
        Some(k) => long_day_name(shifts[k].day_of_week),
        None => "?",
    };
    let mut out = String::from_str("            <tr><td>");
    out.append(e.date.as_str());
    out.append("</td><td>");
    out.append(employee_name(employees, e).as_str());
    out.append("</td><td>");
    out.append(label);
    out.append("</td><td>");
    out.append(shift_hours(shifts, e).as_str());
    out.append("</td></tr>\n");
    out
}

/// Exports a schedule as CSV: a header line, then one line for each entry
/// with its date, the name of its employee, the day of the week and the
/// hours of its shift, in export order. A field that holds a comma, a quote
/// or a line break is written in quotes, so that reading the text back gives
/// the header and, for each entry, its four fields.
pub fn export_schedule_csv(
    schedule_entries: Vec<ScheduleEntry>,
    employees: Vec<Employee>,
    shifts: Vec<Shift>,
) -> (r: Result<String, String>)
    ensures
        r matches Ok(text) && text@ == csv_text(schedule_entries@, employees@, shifts@) && parse_csv(
            text@,
        ) == table_of(schedule_entries@, employees@, shifts@) && parse_csv(text@).len()
            == schedule_entries@.len() + 1 && (forall|k: int|
            0 <= k < schedule_entries@.len() + 1 ==> (#[trigger] parse_csv(text@)[k]).len() == 4)
            && keeps_ties(
            schedule_entries@,
            employees@,
            export_order(schedule_entries@, employees@),
        ),
{
    let order = sort_for_export(&schedule_entries, &employees);
    let mut out = String::new();
    push_csv_line(&mut out, "Data", "Pracownik", "Zmiana", "Godziny");
    let mut k: usize = 0;
    proof {
        assert(order@.take(0) =~= Seq::<usize>::empty());
        assert(out@ =~= csv_header() + csv_rows(schedule_entries@, employees@, shifts@, order@.take(0)));
    }
    while k < order.len()
        invariant
            0 <= k <= order.len(),
            is_export_order(schedule_entries@, employees@, order@),
            out@ == csv_header() + csv_rows(schedule_entries@, employees@, shifts@, order@.take(k as int)),
        decreases order.len() - k,
    {
        proof {
            assert(order@.take(k + 1).drop_last() =~= order@.take(k as int));
            assert(order@.take(k + 1).last() == order@[k as int]);
        }
        push_csv_row(&mut out, &employees, &shifts, &schedule_entries[order[k]]);
        assert(out@ =~= csv_header() + csv_rows(schedule_entries@, employees@, shifts@, order@.take(k + 1)));
        k += 1;
    }
    proof {
        assert(order@.take(order.len() as int) =~= order@);
        lemma_csv_reads_back(schedule_entries@, employees@, shifts@);
    }
    Ok(out)
}

/// Exports a schedule for a period as a printable HTML page with one table
/// row for each entry, in the order of the CSV export.
pub fn export_schedule_pdf_html(
    schedule_entries: Vec<ScheduleEntry>,
    employees: Vec<Employee>,
    shifts: Vec<Shift>,
    start_date: String,
    end_date: String,
) -> (r: Result<String, String>)
    ensures
        r matches Ok(text) && text@ == html_text(
            schedule_entries@,
            employees@,
            shifts@,
            start_date@,
            end_date@,
        ),
{
    let order = sort_for_export(&schedule_entries, &employees);
    let mut out = String::from_str(HTML_HEAD);
    out.append(start_date.as_str());
    out.append(" - ");
    out.append(end_date.as_str());
    out.append(HTML_NECK);
    let ghost top = out@;
    let mut k: usize = 0;
    proof {
        assert(order@.take(0) =~= Seq::<usize>::empty());
        assert(out@ =~= top + html_rows(schedule_entries@, employees@, shifts@, order@.take(0)));
    }
    while k < order.len()
        invariant
            0 <= k <= order.len(),
            is_export_order(schedule_entries@, employees@, order@),
            top == HTML_HEAD@ + start_date@ + " - "@ + end_date@ + HTML_NECK@,
            out@ == top + html_rows(schedule_entries@, employees@, shifts@, order@.take(k as int)),
        decreases order.len() - k,
    {
        let row = write_html_row(&employees, &shifts, &schedule_entries[order[k]]);
        proof {
            assert(order@.take(k + 1).drop_last() =~= order@.take(k as int));
            assert(order@.take(k + 1).last() == order@[k as int]);
        }
        out.append(row.as_str());
        assert(out@ =~= top + html_rows(schedule_entries@, employees@, shifts@, order@.take(k + 1)));
        k += 1;
    }
    assert(order@.take(order.len() as int) =~= order@);
    out.append(HTML_FOOT);
    Ok(out)
}

/// Where the reader of a CSV text stands.
pub enum CsvMode {
    /// At the start of a field.
    Start,
    /// In a field that is written as it is.
    Plain,
    /// In a field that is written in quotes.
    Quoted,
    /// In a field that is written in quotes, after a quote: the field ends
    /// here, or the quote is the first of two.
    QuoteSeen,
}

/// What the reader of a CSV text has read.
pub struct CsvState {
    /// The rows that have ended.
    pub rows: Seq<Seq<Seq<char>>>,
    /// The fields of the row at hand that have ended.
    pub row: Seq<Seq<char>>,
    /// The field at hand.
    pub field: Seq<char>,
    pub mode: CsvMode,
}

/// The reader before it has read anything.
pub open spec fn csv_start() -> CsvState {
    CsvState { rows: Seq::empty(), row: Seq::empty(), field: Seq::empty(), mode: CsvMode::Start }
}

pub open spec fn end_field(st: CsvState) -> CsvState {
    CsvState { rows: st.rows, row: st.row.push(st.field), field: Seq::empty(), mode: CsvMode::Start }
}

pub open spec fn end_row(st: CsvState) -> CsvState {
    CsvState {
        rows: st.rows.push(st.row.push(st.field)),
        row: Seq::empty(),
        field: Seq::empty(),
        mode: CsvMode::Start,
    }
}

pub open spec fn keep(st: CsvState, c: char, mode: CsvMode) -> CsvState {
    CsvState { rows: st.rows, row: st.row, field: st.field.push(c), mode }
}

/// The reader after one more character. A comma ends a field and a line
/// break a row, but for those inside quotes; two quotes inside quotes are one.
pub open spec fn feed(st: CsvState, c: char) -> CsvState {
    match st.mode {
        CsvMode::Start => if c == '"' {
            CsvState { mode: CsvMode::Quoted, ..st }
        } else if c == ',' {
            end_field(st)
        } else if c == '\n' {
            end_row(st)
        } else {
            keep(st, c, CsvMode::Plain)
        },
        CsvMode::Plain => if c == ',' {
            end_field(st)
        } else if c == '\n' {
            end_row(st)
        } else {
            keep(st, c, CsvMode::Plain)
        },
        CsvMode::Quoted => if c == '"' {
            CsvState { mode: CsvMode::QuoteSeen, ..st }
        } else {
            keep(st, c, CsvMode::Quoted)
        },
        CsvMode::QuoteSeen => if c == '"' {
            keep(st, c, CsvMode::Quoted)
        } else if c == ',' {
            end_field(st)
        } else if c == '\n' {
            end_row(st)
        } else {
            keep(st, c, CsvMode::Plain)
        },
    }
}

/// The reader after a text.
pub open spec fn read(st: CsvState, s: Seq<char>) -> CsvState
    decreases s.len(),
{
    if s.len() == 0 {
        st
    } else {
        feed(read(st, s.drop_last()), s.last())
    }
}

/// The rows of a CSV text, each with its fields. A last row that no line break ends counts too.
pub open spec fn parse_csv(text: Seq<char>) -> Seq<Seq<Seq<char>>> {
    let st = read(csv_start(), text);
    if st.mode is Start && st.row.len() == 0 {
        st.rows
    } else {
        end_row(st).rows
    }
}

/// The rows of the entries at the positions of `order`, each with its four fields.
pub open spec fn rows_of(
    entries: Seq<ScheduleEntry>,
    employees: Seq<Employee>,
    shifts: Seq<Shift>,
    order: Seq<usize>,
) -> Seq<Seq<Seq<char>>> {
    Seq::new(order.len(), |k: int| row_fields(employees, shifts, entries[order[k] as int]))
}

/// What the CSV export of a schedule says: the header, then the four fields
/// of each entry, in export order.
pub open spec fn table_of(
    entries: Seq<ScheduleEntry>,
    employees: Seq<Employee>,
    shifts: Seq<Shift>,
) -> Seq<Seq<Seq<char>>> {
    seq![header_fields()] + rows_of(entries, employees, shifts, export_order(entries, employees))
}

pub proof fn lemma_read_concat(st: CsvState, a: Seq<char>, b: Seq<char>)
    ensures
        read(st, a + b) == read(read(st, a), b),
    decreases b.len(),
{
    if b.len() == 0 {
        assert(a + b =~= a);
    } else {
        assert((a + b).drop_last() =~= a + b.drop_last());
        lemma_read_concat(st, a, b.drop_last());
    }
}

proof fn lemma_read_one(st: CsvState, c: char)
    ensures
        read(st, seq![c]) == feed(st, c),
{
    assert(seq![c].drop_last() =~= Seq::<char>::empty());
    assert(read(st, seq![c].drop_last()) == st);
}

/// A field that is written as it is reads back as it is.
proof fn lemma_read_plain(st: CsvState, s: Seq<char>)
    requires
        st.mode is Start,
        st.field == Seq::<char>::empty(),
        !needs_quoting(s),
    ensures
        read(st, s) == (CsvState {
            field: s,
            mode: if s.len() == 0 {
                CsvMode::Start
            } else {
                CsvMode::Plain
            },
            ..st
        }),
    decreases s.len(),
{
    if s.len() == 0 {
        assert(s =~= Seq::<char>::empty());
    } else {
        let front = s.drop_last();
        assert forall|i: int| 0 <= i < front.len() implies !is_special(#[trigger] front[i]) by {
            assert(front[i] == s[i]);
            assert(!is_special(s[i]));
        }
        lemma_read_plain(st, front);
        assert(!is_special(s[s.len() - 1]));
        let mid = read(st, front);
        assert(mid.field.push(s.last()) =~= s);
    }
}

/// A field that is written in quotes reads back, up to its closing quote, as it was.
proof fn lemma_read_quoted(st: CsvState, s: Seq<char>)
    requires
        st.mode is Start,
        st.field == Seq::<char>::empty(),
    ensures
        read(st, seq!['"'] + doubled(s)) == (CsvState { field: s, mode: CsvMode::Quoted, ..st }),
    decreases s.len(),
{
    if s.len() == 0 {
        assert(seq!['"'] + doubled(s) =~= seq!['"']);
        lemma_read_one(st, '"');
        assert(s =~= Seq::<char>::empty());
    } else {
        let front = s.drop_last();
        lemma_read_quoted(st, front);
        let mid = read(st, seq!['"'] + doubled(front));
        if s.last() == '"' {
            assert(seq!['"'] + doubled(s) =~= (seq!['"'] + doubled(front)) + seq!['"', '"']);
            lemma_read_concat(st, seq!['"'] + doubled(front), seq!['"', '"']);
            assert(seq!['"', '"'].drop_last() =~= seq!['"']);
            lemma_read_one(mid, '"');
            assert(read(mid, seq!['"', '"']) == feed(feed(mid, '"'), '"'));
        } else {
            assert(seq!['"'] + doubled(s) =~= (seq!['"'] + doubled(front)) + seq![s.last()]);
            lemma_read_concat(st, seq!['"'] + doubled(front), seq![s.last()]);
            lemma_read_one(mid, s.last());
        }
        assert(front.push(s.last()) =~= s);
    }
}

/// A field and the comma or line break after it read back as the field, ended.
proof fn lemma_read_field(st: CsvState, s: Seq<char>, sep: char)
    requires
        st.mode is Start,
        st.field == Seq::<char>::empty(),
        sep == ',' || sep == '\n',
    ensures
        read(st, csv_field(s) + seq![sep]) == (if sep == ',' {
            end_field(CsvState { field: s, ..st })
        } else {
            end_row(CsvState { field: s, ..st })
        }),
{
    lemma_read_concat(st, csv_field(s), seq![sep]);
    if needs_quoting(s) {
        lemma_read_concat(st, seq!['"'] + doubled(s), seq!['"']);
        lemma_read_quoted(st, s);
        let open = read(st, seq!['"'] + doubled(s));
        lemma_read_one(open, '"');
        lemma_read_one(feed(open, '"'), sep);
    } else {
        lemma_read_plain(st, s);
        lemma_read_one(read(st, s), sep);
    }
}

/// A line of four fields reads back as one row of those fields.
pub proof fn lemma_read_line(st: CsvState, a: Seq<char>, b: Seq<char>, c: Seq<char>, d: Seq<char>)
    requires
        st.mode is Start,
        st.field == Seq::<char>::empty(),
        st.row == Seq::<Seq<char>>::empty(),
    ensures
        read(st, csv_line(a, b, c, d)) == (CsvState { rows: st.rows.push(seq![a, b, c, d]), ..st }),
{
    let fa = csv_field(a) + seq![','];
    let fb = csv_field(b) + seq![','];
    let fc = csv_field(c) + seq![','];
    let fd = csv_field(d) + seq!['\n'];
    assert(csv_line(a, b, c, d) =~= fa + fb + fc + fd);
    lemma_read_concat(st, fa + fb + fc, fd);
    lemma_read_concat(st, fa + fb, fc);
    lemma_read_concat(st, fa, fb);
    lemma_read_field(st, a, ',');
    let s1 = read(st, fa);
    lemma_read_field(s1, b, ',');
    let s2 = read(s1, fb);
    lemma_read_field(s2, c, ',');
    let s3 = read(s2, fc);
    lemma_read_field(s3, d, '\n');
    assert(st.row.push(a).push(b).push(c).push(d) =~= seq![a, b, c, d]);
}

proof fn lemma_read_rows(
    st: CsvState,
    entries: Seq<ScheduleEntry>,
    employees: Seq<Employee>,
    shifts: Seq<Shift>,
    order: Seq<usize>,
)
    requires
        st.mode is Start,
        st.field == Seq::<char>::empty(),
        st.row == Seq::<Seq<char>>::empty(),
    ensures
        read(st, csv_rows(entries, employees, shifts, order)) == (CsvState {
            rows: st.rows + rows_of(entries, employees, shifts, order),
            ..st
        }),
    decreases order.len(),
{
    if order.len() == 0 {
        assert(st.rows + rows_of(entries, employees, shifts, order) =~= st.rows);
    } else {
        let front = order.drop_last();
        let e = entries[order.last() as int];
        lemma_read_rows(st, entries, employees, shifts, front);
        lemma_read_concat(
            st,
            csv_rows(entries, employees, shifts, front),
            csv_row(employees, shifts, e),
        );
        let mid = read(st, csv_rows(entries, employees, shifts, front));
        lemma_read_line(mid, e.date@, name_text(employees, e), short_label(shifts, e), hours_text(shifts, e));
        assert(mid.rows.push(row_fields(employees, shifts, e)) =~= st.rows + rows_of(
            entries,
            employees,
            shifts,
            order,
        )) by {
            let left = mid.rows.push(row_fields(employees, shifts, e));
            let right = st.rows + rows_of(entries, employees, shifts, order);
            assert(left.len() == right.len());
            assert forall|k: int| 0 <= k < left.len() implies left[k] == right[k] by {
                if k >= st.rows.len() && k < left.len() - 1 {
                    assert(front[k - st.rows.len()] == order[k - st.rows.len()]);
                }
            }
        }
    }
}

/// The export order of a list of entries lists every entry once, sorted.
pub proof fn lemma_export_order(entries: Seq<ScheduleEntry>, employees: Seq<Employee>)
    requires
        entries.len() <= usize::MAX,
    ensures
        is_export_order(entries, employees, export_order(entries, employees)),
{
    let keys = row_keys(entries, employees);
    let flags = Seq::new(entries.len(), |i: int| true);
    crate::ranking::lemma_ranking_exists(keys, flags);
    lemma_count_all(keys, flags, keys.len() as int);
    lemma_all_listed(keys, export_order(entries, employees));
}

/// Reading the CSV export of a schedule back gives the header and, for each
/// entry, one row of its four fields, in export order: whatever the fields hold.
pub proof fn lemma_csv_reads_back(entries: Seq<ScheduleEntry>, employees: Seq<Employee>, shifts: Seq<Shift>)
    requires
        entries.len() <= usize::MAX,
    ensures
        parse_csv(csv_text(entries, employees, shifts)) == table_of(entries, employees, shifts),
        parse_csv(csv_text(entries, employees, shifts)).len() == entries.len() + 1,
        forall|k: int|
            0 <= k < entries.len() + 1 ==> (#[trigger] parse_csv(csv_text(entries, employees, shifts))[k]).len()
                == 4,
{
    lemma_export_order(entries, employees);
    let order = export_order(entries, employees);
    let start = csv_start();
    lemma_read_line(start, "Data"@, "Pracownik"@, "Zmiana"@, "Godziny"@);
    let head = read(start, csv_header());
    lemma_read_concat(start, csv_header(), csv_rows(entries, employees, shifts, order));
    lemma_read_rows(head, entries, employees, shifts, order);
    assert(start.rows.push(header_fields()) =~= seq![header_fields()]);
}

/// Of two entries of one date of which the first came first, the first is
/// exported first where one of them has no employee in the list, or where
/// their employees have the same last name and the same first name.
pub proof fn lemma_ties_keep_order(entries: Seq<ScheduleEntry>, employees: Seq<Employee>, a: int, b: int)
    requires
        entries.len() <= usize::MAX,
        tied(entries, employees, a, b),
    ensures
        ahead(row_keys(entries, employees), a, b),
        forall|i: int, j: int|
            0 <= i < entries.len() && 0 <= j < entries.len() && export_order(entries, employees)[i] == a
                && export_order(entries, employees)[j] == b ==> i < j,
{
    let keys = row_keys(entries, employees);
    let date = entries[a].date@;
    lemma_gaps_grow(entries, employees, date, a, b);
    lemma_gaps_bounded(entries, employees, date, a);
    lemma_gaps_bounded(entries, employees, date, b);
    lemma_bytes_lt_irreflexive(keys[a].date_bytes());
    lemma_bytes_lt_irreflexive(keys[a].last_bytes());
    lemma_bytes_lt_irreflexive(keys[a].first_bytes());
    if employee_for(employees, entries[a].employee_id) is None {
        assert(gaps_before(entries, employees, date, a + 1) == gaps_before(entries, employees, date, a) + 1);
        lemma_gaps_grow(entries, employees, date, a + 1, b);
    }
    assert(ahead(keys, a, b));
    lemma_export_order(entries, employees);
    let order = export_order(entries, employees);
    assert forall|i: int, j: int|
        0 <= i < entries.len() && 0 <= j < entries.len() && order[i] == a && order[j] == b implies i
        < j by {
        if j < i {
            assert(ahead(keys, order[j] as int, order[i] as int));
            crate::ranking::lemma_ahead_total(keys, a, b, a);
        }
    }
}

/// The row of `b` sorts strictly before the row of `a` by date, then last
/// name, then first name.
pub open spec fn row_lt(
    entries: Seq<ScheduleEntry>,
    employees: Seq<Employee>,
    b: int,
    a: int,
) -> bool {
    let keys = row_keys(entries, employees);
    bytes_lt(keys[b].date_bytes(), keys[a].date_bytes()) || (keys[b].date_bytes() == keys[a].date_bytes()
        && (bytes_lt(keys[b].last_bytes(), keys[a].last_bytes()) || (keys[b].last_bytes()
        == keys[a].last_bytes() && bytes_lt(keys[b].first_bytes(), keys[a].first_bytes()))))
}

/// Where the list of employees has the employee of every entry, the export
/// is sorted by date, then last name, then first name: no row sorts strictly
/// before one that is exported ahead of it.
pub proof fn lemma_known_rows_are_sorted(
    entries: Seq<ScheduleEntry>,
    employees: Seq<Employee>,
    x: int,
    y: int,
)
    requires
        entries.len() <= usize::MAX,
        forall|i: int|
            0 <= i < entries.len() ==> employee_for(employees, (#[trigger] entries[i]).employee_id) is Some,
        0 <= x < y < entries.len(),
    ensures
        !row_lt(
            entries,
            employees,
            export_order(entries, employees)[y] as int,
            export_order(entries, employees)[x] as int,
        ),
{
    lemma_export_order(entries, employees);
    let keys = row_keys(entries, employees);
    let order = export_order(entries, employees);
    let a = order[x] as int;
    let b = order[y] as int;
    assert(ahead(keys, a, b));
    lemma_no_gaps(entries, employees, entries[a].date@, a);
    lemma_no_gaps(entries, employees, entries[b].date@, b);
    RowRef::lemma_strict_weak_order(&keys[a], &keys[b], &keys[a]);
}

proof fn lemma_no_gaps(entries: Seq<ScheduleEntry>, employees: Seq<Employee>, date: Seq<char>, upto: int)
    requires
        upto <= entries.len(),
        forall|i: int|
            0 <= i < entries.len() ==> employee_for(employees, (#[trigger] entries[i]).employee_id) is Some,
    ensures
        gaps_before(entries, employees, date, upto) == 0,
    decreases upto,
{
    if upto > 0 {
        lemma_no_gaps(entries, employees, date, upto - 1);
    }
}

proof fn lemma_gaps_grow(entries: Seq<ScheduleEntry>, employees: Seq<Employee>, date: Seq<char>, a: int, b: int)
    requires
        a <= b,
    ensures
        gaps_before(entries, employees, date, a) <= gaps_before(entries, employees, date, b),
    decreases b - a,
{
    if a < b {
        lemma_gaps_grow(entries, employees, date, a, b - 1);
    }
}

proof fn lemma_gaps_bounded(entries: Seq<ScheduleEntry>, employees: Seq<Employee>, date: Seq<char>, a: int)
    requires
        0 <= a,
    ensures
        gaps_before(entries, employees, date, a) <= a,
    decreases a,
{
    if a > 0 {
        lemma_gaps_bounded(entries, employees, date, a - 1);
    }
}

} // verus!
