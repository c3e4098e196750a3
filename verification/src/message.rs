//! Faults told in words.

use crate::events::ScheduleError;
use crate::model::{Agency, Calendar, CalendarDate, Route, Stop, StopTime, Trip};
use crate::schema::texts;
use crate::table::{Column, FileKind, LoadError, Record};
use crate::text::{decimal_text, push_uint};
use vstd::prelude::*;
use vstd::string::StringExecFns;

verus! {

impl FileKind {
    /// The name of the file in the directory of a feed.
    pub open spec fn file_name(self) -> Seq<char> {
        match self {
            FileKind::Agency => "agency.txt"@,
            FileKind::Stops => "stops.txt"@,
            FileKind::Routes => "routes.txt"@,
            FileKind::Trips => "trips.txt"@,
            FileKind::StopTimes => "stop_times.txt"@,
            FileKind::Calendar => "calendar.txt"@,
            FileKind::CalendarDates => "calendar_dates.txt"@,
        }
    }

    /// The columns that the file must have.
    pub open spec fn required_columns(self) -> Seq<Seq<char>> {
        match self {
            FileKind::Agency => Agency::required_columns(),
            FileKind::Stops => Stop::required_columns(),
            FileKind::Routes => Route::required_columns(),
            FileKind::Trips => Trip::required_columns(),
            FileKind::StopTimes => StopTime::required_columns(),
            FileKind::Calendar => Calendar::required_columns(),
            FileKind::CalendarDates => CalendarDate::required_columns(),
        }
    }

    /// The columns that the file may have.
    pub open spec fn optional_columns(self) -> Seq<Seq<char>> {
        match self {
            FileKind::Agency => Agency::optional_columns(),
            FileKind::Stops => Stop::optional_columns(),
            FileKind::Routes => Route::optional_columns(),
            FileKind::Trips => Trip::optional_columns(),
            FileKind::StopTimes => StopTime::optional_columns(),
            FileKind::Calendar => Calendar::optional_columns(),
            FileKind::CalendarDates => CalendarDate::optional_columns(),
        }
    }

    /// The name of a column of the file, or a question mark where the file
    /// has no such column.
    pub open spec fn column_text(self, column: Column) -> Seq<char> {
        match column {
            Column::Required(k) => if k < self.required_columns().len() {
                self.required_columns()[k as int]
            } else {
                "?"@
            },
            Column::Optional(k) => if k < self.optional_columns().len() {
                self.optional_columns()[k as int]
            } else {
                "?"@
            },
        }
    }

    /// The name of the file in the directory of a feed.
    pub fn name(self) -> (r: &'static str)
        ensures
            r@ == self.file_name(),
    {
        match self {
            FileKind::Agency => "agency.txt",
            FileKind::Stops => "stops.txt",
            FileKind::Routes => "routes.txt",
            FileKind::Trips => "trips.txt",
            FileKind::StopTimes => "stop_times.txt",
            FileKind::Calendar => "calendar.txt",
            FileKind::CalendarDates => "calendar_dates.txt",
        }
    }

    /// The names of the columns that the file must have.
    pub fn required_names(self) -> (v: Vec<&'static str>)
        ensures
            texts(v@) == self.required_columns(),
    {
        match self {
            FileKind::Agency => Agency::required_names(),
            FileKind::Stops => Stop::required_names(),
            FileKind::Routes => Route::required_names(),
            FileKind::Trips => Trip::required_names(),
            FileKind::StopTimes => StopTime::required_names(),
            FileKind::Calendar => Calendar::required_names(),
            FileKind::CalendarDates => CalendarDate::required_names(),
        }
    }

    /// The names of the columns that the file may have.
    pub fn optional_names(self) -> (v: Vec<&'static str>)
        ensures
            texts(v@) == self.optional_columns(),
    {
        match self {
            FileKind::Agency => Agency::optional_names(),
            FileKind::Stops => Stop::optional_names(),
            FileKind::Routes => Route::optional_names(),
            FileKind::Trips => Trip::optional_names(),
            FileKind::StopTimes => StopTime::optional_names(),
            FileKind::Calendar => Calendar::optional_names(),
            FileKind::CalendarDates => CalendarDate::optional_names(),
        }
    }

    /// The name of a column of the file, or a question mark where the file
    /// has no such column.
    pub fn column_name(self, column: Column) -> (r: &'static str)
        ensures
            r@ == self.column_text(column),
    {
        let (names, k) = match column {
            Column::Required(k) => (self.required_names(), k),
            Column::Optional(k) => (self.optional_names(), k),
        };
        if k < names.len() {
            assert(texts(names@)[k as int] == names@[k as int]@);
            names[k]
        } else {
            "?"
        }
    }
}

impl LoadError {
    /// The fault in words.
    pub open spec fn text(self) -> Seq<char> {
        match self {
            LoadError::MissingFile(f) => "cannot open "@ + f.file_name(),
            LoadError::Unreadable(f) => f.file_name() + ": cannot be read as rows"@,
            LoadError::NoHeader(f) => f.file_name() + ": no column row"@,
            LoadError::MissingColumn(f, k) => f.file_name() + ": required field "@ + f.column_text(
                Column::Required(k),
            ) + " not found in file"@,
            LoadError::ShortRow(f, row) => f.file_name() + ": row "@ + decimal_text(row as nat)
                + " is too short"@,
            LoadError::BadCell(f, row, column) => f.file_name() + ": row "@ + decimal_text(row as nat)
                + ": the cell of "@ + f.column_text(column) + " does not hold a value of its kind"@,
            LoadError::DuplicateId(f, row) => f.file_name() + ": row "@ + decimal_text(row as nat)
                + " repeats the key of an earlier row"@,
        }
    }

    /// The fault in words: the file, and where the fault lies in a row, the
    /// position of the row and the name of the column.
    pub fn message(&self) -> (r: String)
        ensures
            r@ == self.text(),
    {
        let mut r = String::new();
        match *self {
            LoadError::MissingFile(f) => {
                r.append("cannot open ");
                r.append(f.name());
            },
            LoadError::Unreadable(f) => {
                r.append(f.name());
                r.append(": cannot be read as rows");
            },
            LoadError::NoHeader(f) => {
                r.append(f.name());
                r.append(": no column row");
            },
            LoadError::MissingColumn(f, k) => {
                r.append(f.name());
                r.append(": required field ");
                r.append(f.column_name(Column::Required(k)));
                r.append(" not found in file");
            },
            LoadError::ShortRow(f, row) => {
                r.append(f.name());
                r.append(": row ");
                push_uint(&mut r, row as u64);
                r.append(" is too short");
            },
            LoadError::BadCell(f, row, column) => {
                r.append(f.name());
                r.append(": row ");
                push_uint(&mut r, row as u64);
                r.append(": the cell of ");
                r.append(f.column_name(column));
                r.append(" does not hold a value of its kind");
            },
            LoadError::DuplicateId(f, row) => {
                r.append(f.name());
                r.append(": row ");
                push_uint(&mut r, row as u64);
                r.append(" repeats the key of an earlier row");
            },
        }
        assert(r@ =~= self.text());
        r
    }
}

impl ScheduleError {
    /// The fault in words.
    pub open spec fn text(self) -> Seq<char> {
        match self {
            ScheduleError::UnknownRoute => "a trip of the day names a route that the feed does not have"@,
            ScheduleError::NoStopTimes => "a trip of the agency has no stop times"@,
            ScheduleError::ArrivalsOutOfOrder => "the stop times of a trip go back in time"@,
        }
    }

    /// The fault in words.
    pub fn message(&self) -> (r: &'static str)
        ensures
            r@ == self.text(),
    {
        match self {
            ScheduleError::UnknownRoute => "a trip of the day names a route that the feed does not have",
            ScheduleError::NoStopTimes => "a trip of the agency has no stop times",
            ScheduleError::ArrivalsOutOfOrder => "the stop times of a trip go back in time",
        }
    }
}

} // verus!
