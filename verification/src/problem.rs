//! The snapshot that one solving run works on: the records of the input
//! envelope, validated and reduced to integers.

use vstd::prelude::*;
use vstd::string::*;
use crate::calendar::{
    lemma_parse_day_bounds,
    parse_clock,
    parse_day,
    read_clock,
    read_day,
    LAST_DAY,
    MINUTES_PER_DAY,
};
use crate::commands::{DateRange, SolverInput};
use crate::models::{Absence, Defect, Employee, Shift};

verus! {

/// The kind of record that a validation error is about.
#[derive(Clone, Copy, Debug, PartialEq, Eq, Structural)]
pub enum Record {
    /// The date range; index 0 is its start, index 1 its end.
    Range,
    Employee,
    Shift,
    Absence,
    /// An entry of a schedule that is being evaluated.
    Entry,
}

/// A malformed input record: which one, and what is wrong with it.
#[derive(Clone, Copy, Debug, PartialEq, Eq, Structural)]
pub struct ValidationError {
    pub record: Record,
    /// The position of the record in its list.
    pub index: usize,
    pub defect: Defect,
}

/// An employee, as the rules see one.
#[derive(Clone, Copy, Debug, PartialEq, Eq, Structural)]
pub struct Worker {
    pub id: i64,
    pub active: bool,
}

/// A shift definition, as the rules see one.
#[derive(Clone, Copy, Debug, PartialEq, Eq, Structural)]
pub struct Template {
    pub id: i64,
    /// 0 is Sunday, 6 is Saturday.
    pub weekday: u8,
    /// Minutes after midnight.
    pub start: i64,
    /// Minutes after midnight; less than `start` where the shift runs past midnight.
    pub end: i64,
    pub required: usize,
}

/// An absence, as the rules see one: day numbers, both ends included.
#[derive(Clone, Copy, Debug, PartialEq, Eq, Structural)]
pub struct Leave {
    pub employee_id: i64,
    pub first_day: i64,
    pub last_day: i64,
}

/// A validated snapshot.
#[derive(Debug)]
pub struct Problem {
    pub workers: Vec<Worker>,
    pub templates: Vec<Template>,
    pub leaves: Vec<Leave>,
    /// Day number of the first date of the range.
    pub first_day: i64,
    /// Day number of the last date of the range; an earlier one than `first_day` makes the range empty.
    pub last_day: i64,
}

/// The mathematical content of a `Problem`.
pub struct Snapshot {
    pub workers: Seq<Worker>,
    pub templates: Seq<Template>,
    pub leaves: Seq<Leave>,
    pub first_day: int,
    pub last_day: int,
}

impl View for Problem {
    type V = Snapshot;

    open spec fn view(&self) -> Snapshot {
        Snapshot {
            workers: self.workers@,
            templates: self.templates@,
            leaves: self.leaves@,
            first_day: self.first_day as int,
            last_day: self.last_day as int,
        }
    }
}

impl Snapshot {
    /// Identifiers are distinct, and every number is in its range.
    pub open spec fn wf(self) -> bool {
        &&& self.workers.len() <= usize::MAX
        &&& self.templates.len() <= usize::MAX
        &&& 0 <= self.first_day <= LAST_DAY
        &&& 0 <= self.last_day <= LAST_DAY
        &&& forall|i: int, j: int|
            0 <= i < j < self.workers.len() ==> (#[trigger] self.workers[i]).id != (
            #[trigger] self.workers[j]).id
        &&& forall|i: int, j: int|
            0 <= i < j < self.templates.len() ==> (#[trigger] self.templates[i]).id != (
            #[trigger] self.templates[j]).id
        &&& forall|i: int|
            0 <= i < self.templates.len() ==> {
                let t = #[trigger] self.templates[i];
                t.weekday <= 6 && 0 <= t.start < MINUTES_PER_DAY && 0 <= t.end < MINUTES_PER_DAY
            }
        &&& forall|i: int|
            0 <= i < self.leaves.len() ==> {
                let l = #[trigger] self.leaves[i];
                0 <= l.first_day <= l.last_day <= LAST_DAY
            }
    }
}

/// What is wrong with the two dates of a range: index 0 for its start, 1 for its end.
pub open spec fn dates_defect(start_date: Seq<char>, end_date: Seq<char>) -> Option<(int, Defect)> {
    if parse_day(start_date) is None {
        Some((0int, Defect::MalformedDate))
    } else if parse_day(end_date) is None {
        Some((1int, Defect::MalformedDate))
    } else {
        None
    }
}

/// What is wrong with the date range: index 0 for its start, 1 for its end.
pub open spec fn range_defect(range: DateRange) -> Option<(int, Defect)> {
    dates_defect(range.start_date@, range.end_date@)
}

/// The validation error of a range whose dates are malformed.
pub open spec fn range_error(start_date: Seq<char>, end_date: Seq<char>) -> Option<ValidationError> {
    match dates_defect(start_date, end_date) {
        Some((i, d)) => Some(ValidationError { record: Record::Range, index: i as usize, defect: d }),
        None => None,
    }
}

/// What is wrong with employee `i` of the list: it needs an identifier that no earlier one has.
pub open spec fn employee_defect(es: Seq<Employee>, i: int) -> Option<Defect> {
    if es[i].id is None {
        Some(Defect::MissingId)
    } else if exists|j: int| 0 <= j < i && (#[trigger] es[j]).id == es[i].id {
        Some(Defect::DuplicateId)
    } else {
        None
    }
}

/// What is wrong with shift `i` of the list: its own defect, or its identifier.
pub open spec fn shift_defect(ss: Seq<Shift>, i: int) -> Option<Defect> {
    if ss[i].defect() is Some {
        ss[i].defect()
    } else if ss[i].id is None {
        Some(Defect::MissingId)
    } else if exists|j: int| 0 <= j < i && (#[trigger] ss[j]).id == ss[i].id {
        Some(Defect::DuplicateId)
    } else {
        None
    }
}

/// No record of the input is malformed.
pub open spec fn acceptable(input: SolverInput) -> bool {
    &&& range_defect(input.date_range) is None
    &&& forall|i: int| 0 <= i < input.employees@.len() ==> employee_defect(input.employees@, i) is None
    &&& forall|i: int| 0 <= i < input.shifts@.len() ==> shift_defect(input.shifts@, i) is None
    &&& forall|i: int|
        0 <= i < input.absences@.len() ==> (#[trigger] input.absences@[i]).defect() is None
}

/// `e` is the first malformed record of the input: the range comes first, then the
/// employees, the shifts and the absences, each list in its order.
pub open spec fn is_first_error(input: SolverInput, e: ValidationError) -> bool {
    match e.record {
        Record::Range => range_defect(input.date_range) == Some((e.index as int, e.defect)),
        Record::Employee => {
            &&& range_defect(input.date_range) is None
            &&& e.index < input.employees@.len()
            &&& employee_defect(input.employees@, e.index as int) == Some(e.defect)
            &&& forall|i: int| 0 <= i < e.index ==> employee_defect(input.employees@, i) is None
        },
        Record::Shift => {
            &&& range_defect(input.date_range) is None
            &&& forall|i: int|
                0 <= i < input.employees@.len() ==> employee_defect(input.employees@, i) is None
            &&& e.index < input.shifts@.len()
            &&& shift_defect(input.shifts@, e.index as int) == Some(e.defect)
            &&& forall|i: int| 0 <= i < e.index ==> shift_defect(input.shifts@, i) is None
        },
        Record::Absence => {
            &&& range_defect(input.date_range) is None
            &&& forall|i: int|
                0 <= i < input.employees@.len() ==> employee_defect(input.employees@, i) is None
            &&& forall|i: int| 0 <= i < input.shifts@.len() ==> shift_defect(input.shifts@, i) is None
            &&& e.index < input.absences@.len()
            &&& input.absences@[e.index as int].defect() == Some(e.defect)
            &&& forall|i: int| 0 <= i < e.index ==> (#[trigger] input.absences@[i]).defect() is None
        },
        Record::Entry => false,
    }
}

pub open spec fn worker_of(e: Employee) -> Worker {
    Worker { id: e.id->0, active: e.active() }
}

pub open spec fn template_of(s: Shift) -> Template {
    Template {
        id: s.id->0,
        weekday: s.day_of_week as u8,
        start: parse_clock(s.start_time@)->0 as i64,
        end: parse_clock(s.end_time@)->0 as i64,
        required: s.required_staff as usize,
    }
}

pub open spec fn leave_of(a: Absence) -> Leave {
    Leave {
        employee_id: a.employee_id,
        first_day: parse_day(a.start_date@)->0 as i64,
        last_day: parse_day(a.end_date@)->0 as i64,
    }
}

/// The snapshot that an acceptable input denotes.
pub open spec fn snapshot_of(input: SolverInput) -> Snapshot {
    Snapshot {
        workers: Seq::new(input.employees@.len(), |i: int| worker_of(input.employees@[i])),
        templates: Seq::new(input.shifts@.len(), |i: int| template_of(input.shifts@[i])),
        leaves: Seq::new(input.absences@.len(), |i: int| leave_of(input.absences@[i])),
        first_day: parse_day(input.date_range.start_date@)->0,
        last_day: parse_day(input.date_range.end_date@)->0,
    }
}

/// An input has at most one first malformed record.
pub proof fn lemma_first_error_unique(input: SolverInput, a: ValidationError, b: ValidationError)
    requires
        is_first_error(input, a),
        is_first_error(input, b),
    ensures
        a == b,
{
    if a.record == b.record {
        if a.index < b.index {
            match a.record {
                Record::Employee => {
                    assert(employee_defect(input.employees@, a.index as int) is None);
                },
                Record::Shift => {
                    assert(shift_defect(input.shifts@, a.index as int) is None);
                },
                Record::Absence => {
                    assert(input.absences@[a.index as int].defect() is None);
                },
                _ => {},
            }
        } else if b.index < a.index {
            match a.record {
                Record::Employee => {
                    assert(employee_defect(input.employees@, b.index as int) is None);
                },
                Record::Shift => {
                    assert(shift_defect(input.shifts@, b.index as int) is None);
                },
                Record::Absence => {
                    assert(input.absences@[b.index as int].defect() is None);
                },
                _ => {},
            }
        }
    } else {
        lemma_error_order(input, a, b);
        lemma_error_order(input, b, a);
    }
}

proof fn lemma_error_order(input: SolverInput, a: ValidationError, b: ValidationError)
    requires
        is_first_error(input, a),
        is_first_error(input, b),
        a.record != b.record,
    ensures
        !(a.record is Employee && (b.record is Shift || b.record is Absence)),
        !(a.record is Shift && b.record is Absence),
        !(a.record is Range),
{
    match a.record {
        Record::Employee => {
            if b.record is Shift || b.record is Absence {
                assert(employee_defect(input.employees@, a.index as int) is None);
            }
        },
        Record::Shift => {
            if b.record is Absence {
                assert(shift_defect(input.shifts@, a.index as int) is None);
            }
        },
        _ => {},
    }
}

/// The snapshot of an acceptable input is well formed.
pub proof fn lemma_snapshot_wf(input: SolverInput)
    requires
        acceptable(input),
    ensures
        snapshot_of(input).wf(),
{
    let snap = snapshot_of(input);
    assert(input.employees.len() == input.employees@.len());
    assert(input.shifts.len() == input.shifts@.len());
    lemma_parse_day_bounds(input.date_range.start_date@);
    lemma_parse_day_bounds(input.date_range.end_date@);
    assert forall|a: int, b: int| 0 <= a < b < snap.workers.len() implies (#[trigger] snap.workers[a]).id
        != (#[trigger] snap.workers[b]).id by {
        assert(employee_defect(input.employees@, b) is None);
        assert(employee_defect(input.employees@, a) is None);
        assert(input.employees@[a].id != input.employees@[b].id);
    }
    assert forall|a: int, b: int|
        0 <= a < b < snap.templates.len() implies (#[trigger] snap.templates[a]).id != (
    #[trigger] snap.templates[b]).id by {
        assert(shift_defect(input.shifts@, b) is None);
        assert(shift_defect(input.shifts@, a) is None);
        assert(input.shifts@[a].id != input.shifts@[b].id);
    }
    assert forall|k: int| 0 <= k < snap.templates.len() implies {
        let t = #[trigger] snap.templates[k];
        t.weekday <= 6 && 0 <= t.start < MINUTES_PER_DAY && 0 <= t.end < MINUTES_PER_DAY
    } by {
        assert(shift_defect(input.shifts@, k) is None);
    }
    assert forall|k: int| 0 <= k < snap.leaves.len() implies {
        let l = #[trigger] snap.leaves[k];
        0 <= l.first_day <= l.last_day <= LAST_DAY
    } by {
        assert(input.absences@[k].defect() is None);
        lemma_parse_day_bounds(input.absences@[k].start_date@);
        lemma_parse_day_bounds(input.absences@[k].end_date@);
    }
}

fn employee_check(es: &Vec<Employee>, i: usize) -> (r: Option<Defect>)
    requires
        i < es.len(),
    ensures
        r == employee_defect(es@, i as int),
{
    match es[i].id {
        None => Some(Defect::MissingId),
        Some(id) => {
            let mut j: usize = 0;
            while j < i
                invariant
                    0 <= j <= i < es.len(),
                    es@[i as int].id == Some(id),
                    forall|k: int| 0 <= k < j ==> (#[trigger] es@[k]).id != es@[i as int].id,
                decreases i - j,
            {
                match es[j].id {
                    Some(other) => {
                        if other == id {
                            return Some(Defect::DuplicateId);
                        }
                    },
                    None => {},
                }
                j += 1;
            }
            None
        },
    }
}

fn shift_check(ss: &Vec<Shift>, i: usize) -> (r: Option<Defect>)
    requires
        i < ss.len(),
    ensures
        r == shift_defect(ss@, i as int),
{
    match ss[i].check() {
        Some(d) => Some(d),
        None => match ss[i].id {
            None => Some(Defect::MissingId),
            Some(id) => {
                let mut j: usize = 0;
                while j < i
                    invariant
                        0 <= j <= i < ss.len(),
                        ss@[i as int].defect() is None,
                        ss@[i as int].id == Some(id),
                        forall|k: int| 0 <= k < j ==> (#[trigger] ss@[k]).id != ss@[i as int].id,
                    decreases i - j,
                {
                    match ss[j].id {
                        Some(other) => {
                            if other == id {
                                return Some(Defect::DuplicateId);
                            }
                        },
                        None => {},
                    }
                    j += 1;
                }
                None
            },
        },
    }
}

/// Validates the input and reduces it to a snapshot, or names its first malformed record.
#[verifier::loop_isolation(false)]
pub fn compile(input: &SolverInput) -> (r: Result<Problem, ValidationError>)
    ensures
        match r {
            Ok(p) => acceptable(*input) && p@ == snapshot_of(*input) && p@.wf(),
            Err(e) => is_first_error(*input, e),
        },
{
    let first_day = match read_day(input.date_range.start_date.as_str()) {
        Some(n) => n,
        None => {
            return Err(ValidationError { record: Record::Range, index: 0, defect: Defect::MalformedDate });
        },
    };
    let last_day = match read_day(input.date_range.end_date.as_str()) {
        Some(n) => n,
        None => {
            return Err(ValidationError { record: Record::Range, index: 1, defect: Defect::MalformedDate });
        },
    };
    let mut workers: Vec<Worker> = Vec::new();
    let mut i: usize = 0;
    while i < input.employees.len()
        invariant
            0 <= i <= input.employees.len(),
            workers.len() == i,
            forall|k: int| 0 <= k < i ==> employee_defect(input.employees@, k) is None,
            forall|k: int| 0 <= k < i ==> #[trigger] workers@[k] == worker_of(input.employees@[k]),
        decreases input.employees.len() - i,
    {
        match employee_check(&input.employees, i) {
            Some(d) => {
                return Err(ValidationError { record: Record::Employee, index: i, defect: d });
            },
            None => {},
        }
        let e = &input.employees[i];
        let id = match e.id {
            Some(id) => id,
            None => 0,
        };
        workers.push(Worker { id, active: e.is_active() });
        i += 1;
    }
    let mut templates: Vec<Template> = Vec::new();
    let mut i: usize = 0;
    while i < input.shifts.len()
        invariant
            0 <= i <= input.shifts.len(),
            templates.len() == i,
            forall|k: int| 0 <= k < i ==> shift_defect(input.shifts@, k) is None,
            forall|k: int| 0 <= k < i ==> #[trigger] templates@[k] == template_of(input.shifts@[k]),
            forall|k: int|
                0 <= k < i ==> 0 <= (#[trigger] templates@[k]).start < MINUTES_PER_DAY && 0
                    <= templates@[k].end < MINUTES_PER_DAY && templates@[k].weekday <= 6,
        decreases input.shifts.len() - i,
    {
        match shift_check(&input.shifts, i) {
            Some(d) => {
                return Err(ValidationError { record: Record::Shift, index: i, defect: d });
            },
            None => {},
        }
        let s = &input.shifts[i];
        let id = match s.id {
            Some(id) => id,
            None => 0,
        };
        let start = match read_clock(s.start_time.as_str()) {
            Some(v) => v,
            None => 0,
        };
        let end = match read_clock(s.end_time.as_str()) {
            Some(v) => v,
            None => 0,
        };
        templates.push(
            Template { id, weekday: s.day_of_week as u8, start, end, required: s.required_staff as usize },
        );
        i += 1;
    }
    let mut leaves: Vec<Leave> = Vec::new();
    let mut i: usize = 0;
    while i < input.absences.len()
        invariant
            0 <= i <= input.absences.len(),
            leaves.len() == i,
            forall|k: int| 0 <= k < i ==> (#[trigger] input.absences@[k]).defect() is None,
            forall|k: int| 0 <= k < i ==> #[trigger] leaves@[k] == leave_of(input.absences@[k]),
            forall|k: int|
                0 <= k < i ==> 0 <= (#[trigger] leaves@[k]).first_day <= leaves@[k].last_day <= LAST_DAY,
        decreases input.absences.len() - i,
    {
        let a = &input.absences[i];
        match a.check() {
            Some(d) => {
                return Err(ValidationError { record: Record::Absence, index: i, defect: d });
            },
            None => {},
        }
        let first = match read_day(a.start_date.as_str()) {
            Some(v) => v,
            None => 0,
        };
        let last = match read_day(a.end_date.as_str()) {
            Some(v) => v,
            None => 0,
        };
        leaves.push(Leave { employee_id: a.employee_id, first_day: first, last_day: last });
        i += 1;
    }
    let p = Problem { workers, templates, leaves, first_day, last_day };
    proof {
        let snap = snapshot_of(*input);
        assert(p@.workers =~= snap.workers);
        assert(p@.templates =~= snap.templates);
        assert(p@.leaves =~= snap.leaves);
        assert forall|a: int, b: int| 0 <= a < b < p@.workers.len() implies (#[trigger] p@.workers[a]).id
            != (#[trigger] p@.workers[b]).id by {
            assert(employee_defect(input.employees@, b) is None);
            assert(employee_defect(input.employees@, a) is None);
            assert(input.employees@[a].id != input.employees@[b].id);
        }
        assert forall|a: int, b: int|
            0 <= a < b < p@.templates.len() implies (#[trigger] p@.templates[a]).id != (
        #[trigger] p@.templates[b]).id by {
            assert(shift_defect(input.shifts@, b) is None);
            assert(shift_defect(input.shifts@, a) is None);
            assert(input.shifts@[a].id != input.shifts@[b].id);
        }
    }
    Ok(p)
}

} // verus!
