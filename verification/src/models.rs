//! The records that a schedule is made from, and their validation.

use vstd::prelude::*;
use vstd::string::*;
use crate::calendar::{parse_clock, parse_day, read_clock, read_day};
use crate::text::same_text;

verus! {

/// What can be wrong with a record.
#[derive(Clone, Copy, Debug, PartialEq, Eq, Structural)]
pub enum Defect {
    /// A date is not written `YYYY-MM-DD`, or does not exist.
    MalformedDate,
    /// A time of day is not written `HH:MM`, or does not exist.
    MalformedTime,
    /// A day of the week is not in 0 (Sunday) to 6 (Saturday).
    WeekdayOutOfRange,
    /// A shift asks for a negative number of people.
    NegativeStaff,
    /// A period ends before it starts.
    EndsBeforeStart,
    /// A record that the schedule must refer to has no identifier.
    MissingId,
    /// Two records of one kind share an identifier.
    DuplicateId,
}

/// An employee.
#[derive(Debug, Clone)]
pub struct Employee {
    pub id: Option<i64>,
    pub first_name: String,
    pub last_name: String,
    pub role: Option<String>,
    pub employment_type: String,
    pub status: String,
}

/// A shift definition: a weekly recurring shift.
#[derive(Debug, Clone)]
pub struct Shift {
    pub id: Option<i64>,
    /// 0 is Sunday, 6 is Saturday.
    pub day_of_week: i32,
    /// `HH:MM`.
    pub start_time: String,
    /// `HH:MM`; earlier than `start_time` where the shift runs past midnight.
    pub end_time: String,
    pub required_staff: i32,
}

/// A period in which an employee is away, both ends included.
#[derive(Debug, Clone)]
pub struct Absence {
    pub id: Option<i64>,
    pub employee_id: i64,
    /// `YYYY-MM-DD`.
    pub start_date: String,
    /// `YYYY-MM-DD`.
    pub end_date: String,
    pub absence_type: String,
}

/// One assignment: this employee works this shift on this date.
#[derive(Debug, Clone)]
pub struct ScheduleEntry {
    pub id: Option<i64>,
    pub employee_id: i64,
    /// `YYYY-MM-DD`.
    pub date: String,
    pub shift_id: i64,
}

/// The status text of an employee who may be assigned.
pub open spec fn active_status() -> Seq<char> {
    "active"@
}

impl Employee {
    pub fn new(
        id: Option<i64>,
        first_name: String,
        last_name: String,
        role: Option<String>,
        employment_type: String,
        status: String,
    ) -> (r: Employee)
        ensures
            r == (Employee { id, first_name, last_name, role, employment_type, status }),
    {
        Employee { id, first_name, last_name, role, employment_type, status }
    }

    /// Only active employees are assigned.
    pub open spec fn active(self) -> bool {
        self.status@ == active_status()
    }

    pub fn is_active(&self) -> (r: bool)
        ensures
            r == self.active(),
    {
        same_text(&self.status, "active")
    }
}

impl Shift {
    /// The first thing wrong with the record, if any.
    pub open spec fn defect(self) -> Option<Defect> {
        if !(0 <= self.day_of_week <= 6) {
            Some(Defect::WeekdayOutOfRange)
        } else if parse_clock(self.start_time@) is None {
            Some(Defect::MalformedTime)
        } else if parse_clock(self.end_time@) is None {
            Some(Defect::MalformedTime)
        } else if self.required_staff < 0 {
            Some(Defect::NegativeStaff)
        } else {
            None
        }
    }

    pub fn check(&self) -> (r: Option<Defect>)
        ensures
            r == self.defect(),
    {
        if self.day_of_week < 0 || self.day_of_week > 6 {
            Some(Defect::WeekdayOutOfRange)
        } else if read_clock(self.start_time.as_str()).is_none() {
            Some(Defect::MalformedTime)
        } else if read_clock(self.end_time.as_str()).is_none() {
            Some(Defect::MalformedTime)
        } else if self.required_staff < 0 {
            Some(Defect::NegativeStaff)
        } else {
            None
        }
    }

    /// Makes a shift definition, or says what is wrong with it.
    pub fn new(
        id: Option<i64>,
        day_of_week: i32,
        start_time: String,
        end_time: String,
        required_staff: i32,
    ) -> (r: Result<Shift, Defect>)
        ensures
            match (Shift { id, day_of_week, start_time, end_time, required_staff }).defect() {
                Some(d) => r == Err::<Shift, Defect>(d),
                None => r == Ok::<Shift, Defect>(
                    Shift { id, day_of_week, start_time, end_time, required_staff },
                ),
            },
    {
        let shift = Shift { id, day_of_week, start_time, end_time, required_staff };
        match shift.check() {
            Some(d) => Err(d),
            None => Ok(shift),
        }
    }
}

impl Absence {
    /// The first thing wrong with the record, if any.
    pub open spec fn defect(self) -> Option<Defect> {
        if parse_day(self.start_date@) is None {
            Some(Defect::MalformedDate)
        } else if parse_day(self.end_date@) is None {
            Some(Defect::MalformedDate)
        } else if parse_day(self.end_date@)->0 < parse_day(self.start_date@)->0 {
            Some(Defect::EndsBeforeStart)
        } else {
            None
        }
    }

    pub fn check(&self) -> (r: Option<Defect>)
        ensures
            r == self.defect(),
    {
        match read_day(self.start_date.as_str()) {
            None => Some(Defect::MalformedDate),
            Some(first) => match read_day(self.end_date.as_str()) {
                None => Some(Defect::MalformedDate),
                Some(last) => if last < first {
                    Some(Defect::EndsBeforeStart)
                } else {
                    None
                },
            },
        }
    }

    /// Makes an absence, or says what is wrong with it.
    pub fn new(
        id: Option<i64>,
        employee_id: i64,
        start_date: String,
        end_date: String,
        absence_type: String,
    ) -> (r: Result<Absence, Defect>)
        ensures
            match (Absence { id, employee_id, start_date, end_date, absence_type }).defect() {
                Some(d) => r == Err::<Absence, Defect>(d),
                None => r == Ok::<Absence, Defect>(
                    Absence { id, employee_id, start_date, end_date, absence_type },
                ),
            },
    {
        let absence = Absence { id, employee_id, start_date, end_date, absence_type };
        match absence.check() {
            Some(d) => Err(d),
            None => Ok(absence),
        }
    }
}

impl ScheduleEntry {
    /// The first thing wrong with the record, if any.
    pub open spec fn defect(self) -> Option<Defect> {
        if parse_day(self.date@) is None {
            Some(Defect::MalformedDate)
        } else {
            None
        }
    }

    pub fn check(&self) -> (r: Option<Defect>)
        ensures
            r == self.defect(),
    {
        match read_day(self.date.as_str()) {
            None => Some(Defect::MalformedDate),
            Some(_) => None,
        }
    }

    /// Makes a schedule entry, or says what is wrong with it.
    pub fn new(id: Option<i64>, employee_id: i64, date: String, shift_id: i64) -> (r: Result<
        ScheduleEntry,
        Defect,
    >)
        ensures
            match (ScheduleEntry { id, employee_id, date, shift_id }).defect() {
                Some(d) => r == Err::<ScheduleEntry, Defect>(d),
                None => r == Ok::<ScheduleEntry, Defect>(
                    ScheduleEntry { id, employee_id, date, shift_id },
                ),
            },
    {
        let entry = ScheduleEntry { id, employee_id, date, shift_id };
        match entry.check() {
            Some(d) => Err(d),
            None => Ok(entry),
        }
    }
}

} // verus!
