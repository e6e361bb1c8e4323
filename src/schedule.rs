//! The timetable as data: occupants, weekday fields, rows and the schedule.
use std::collections::HashMap;
use vstd::prelude::*;

verus! {

/// One class session: what is taught, by whom, and where.
#[derive(Debug, Clone)]
pub struct GroupScheduleField {
    pub subject: String,
    pub teacher: String,
    pub classroom: String,
}

/// What a class session is, as text.
pub struct Occupant {
    pub subject: Seq<char>,
    pub teacher: Seq<char>,
    pub classroom: Seq<char>,
}

impl View for GroupScheduleField {
    type V = Occupant;

    open spec fn view(&self) -> Occupant {
        Occupant { subject: self.subject@, teacher: self.teacher@, classroom: self.classroom@ }
    }
}

/// A weekday cell that holds something: one session for the whole class,
/// or parallel sessions keyed by group number.
#[derive(Debug, Clone)]
pub enum ScheduleFieldEnum {
    Group(HashMap<u8, GroupScheduleField>),
    Class(GroupScheduleField),
}

/// A weekday cell; `None` where the cell is empty.
pub type ScheduleField = Option<ScheduleFieldEnum>;

/// What a non-empty weekday cell holds.
pub enum Field {
    Group(Map<u8, Occupant>),
    Class(Occupant),
}

pub open spec fn occupants_of(m: Map<u8, GroupScheduleField>) -> Map<u8, Occupant> {
    Map::new(|k: u8| m.contains_key(k), |k: u8| m[k]@)
}

pub open spec fn field_view(f: ScheduleField) -> Option<Field> {
    match f {
        None => None,
        Some(ScheduleFieldEnum::Group(m)) => Some(Field::Group(occupants_of(m@))),
        Some(ScheduleFieldEnum::Class(g)) => Some(Field::Class(g@)),
    }
}

/// One time slot of the week.
#[derive(Debug, Clone)]
pub struct ScheduleRow {
    pub time: String,
    pub monday: ScheduleField,
    pub tuesday: ScheduleField,
    pub wednesday: ScheduleField,
    pub thursday: ScheduleField,
    pub friday: ScheduleField,
}

/// One time slot of the week, as text and cell contents.
pub struct Row {
    pub time: Seq<char>,
    pub monday: Option<Field>,
    pub tuesday: Option<Field>,
    pub wednesday: Option<Field>,
    pub thursday: Option<Field>,
    pub friday: Option<Field>,
}

impl View for ScheduleRow {
    type V = Row;

    open spec fn view(&self) -> Row {
        Row {
            time: self.time@,
            monday: field_view(self.monday),
            tuesday: field_view(self.tuesday),
            wednesday: field_view(self.wednesday),
            thursday: field_view(self.thursday),
            friday: field_view(self.friday),
        }
    }
}

/// The week's rows, held column by column: entry `i` of each column
/// belongs to row `i`.
#[derive(Debug, Clone)]
pub struct Schedule {
    pub time: Vec<String>,
    pub monday: Vec<ScheduleField>,
    pub tuesday: Vec<ScheduleField>,
    pub wednesday: Vec<ScheduleField>,
    pub thursday: Vec<ScheduleField>,
    pub friday: Vec<ScheduleField>,
}

impl View for Schedule {
    type V = Seq<Row>;

    open spec fn view(&self) -> Seq<Row> {
        Seq::new(
            self.time@.len(),
            |i: int|
                Row {
                    time: self.time@[i]@,
                    monday: field_view(self.monday@[i]),
                    tuesday: field_view(self.tuesday@[i]),
                    wednesday: field_view(self.wednesday@[i]),
                    thursday: field_view(self.thursday@[i]),
                    friday: field_view(self.friday@[i]),
                },
        )
    }
}

impl Schedule {
    /// Every column has one entry per row.
    pub open spec fn wf(&self) -> bool {
        &&& self.monday@.len() == self.time@.len()
        &&& self.tuesday@.len() == self.time@.len()
        &&& self.wednesday@.len() == self.time@.len()
        &&& self.thursday@.len() == self.time@.len()
        &&& self.friday@.len() == self.time@.len()
    }

    /// A schedule with no rows.
    pub fn new() -> (r: Self)
        ensures
            r.wf(),
            r@ == Seq::<Row>::empty(),
    {
        let r = Self {
            time: Vec::new(),
            monday: Vec::new(),
            tuesday: Vec::new(),
            wednesday: Vec::new(),
            thursday: Vec::new(),
            friday: Vec::new(),
        };
        assert(r@ =~= Seq::<Row>::empty());
        r
    }

    /// Appends a row after the last one.
    pub fn add_row(&mut self, row: ScheduleRow)
        requires
            old(self).wf(),
        ensures
            final(self).wf(),
            final(self)@ == old(self)@.push(row@),
    {
        self.time.push(row.time);
        self.monday.push(row.monday);
        self.tuesday.push(row.tuesday);
        self.wednesday.push(row.wednesday);
        self.thursday.push(row.thursday);
        self.friday.push(row.friday);
        assert(self@ =~= old(self)@.push(row@));
    }
}

/// An entry of the catalog of published timetables.
#[derive(Debug, Clone)]
pub struct Class {
    pub id: String,
    pub name: String,
    pub url: String,
    pub is_on_practice: bool,
}

} // verus!
