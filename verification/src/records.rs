//! How a row of each file becomes a record: the columns that the file has,
//! the value of each field, and the key.

use crate::model::{
    Agency, AgencyView, Calendar, CalendarDate, CalendarDateView, CalendarView, Point, Route,
    RouteView, Stop, StopTime, StopTimeView, StopView, Trip, TripView, Weekdays,
};
use crate::schema::{texts, ColumnMap, Columns};
use crate::table::{
    cell_or, covers, optional, optional_cell, optional_or, optional_value, owned, required,
    required_cell, Column, FileKind, Record, RowFault,
};
use crate::value::{
    bool_of, date_of, direction_of, lemma_date_of, exception_of, fixed_of, location_type_of, marshal_of,
    parse_bool, parse_date, parse_decimal, parse_direction, parse_exception, parse_location_type,
    parse_marshal, parse_route_type, parse_time, parse_uint, route_type_of, time_of, uint_of,
};
use vstd::prelude::*;

verus! {

impl Record for Agency {
    open spec fn file() -> FileKind {
        FileKind::Agency
    }

    open spec fn required_columns() -> Seq<Seq<char>> {
        seq!["agency_name"@, "agency_url"@, "agency_timezone"@]
    }

    open spec fn optional_columns() -> Seq<Seq<char>> {
        seq!["agency_id"@, "agency_lang"@, "agency_phone"@, "agency_fare_url"@]
    }

    open spec fn of_row(cols: ColumnMap, row: Seq<Seq<char>>) -> Result<AgencyView, RowFault> {
        if !cols.within(row.len() as int) {
            Err(RowFault::Short)
        } else {
            Ok(
                AgencyView {
                    id: cell_or(cols, row, 0, "_"@),
                    name: required_cell(cols, row, 0),
                    url: required_cell(cols, row, 1),
                    timezone: required_cell(cols, row, 2),
                    lang: optional_cell(cols, row, 1),
                    phone: optional_cell(cols, row, 2),
                    fare_url: optional_cell(cols, row, 3),
                },
            )
        }
    }

    open spec fn key_of(v: AgencyView) -> Seq<char> {
        v.id
    }

    open spec fn sound(v: AgencyView) -> bool {
        true
    }

    proof fn lemma_sound(cols: ColumnMap, row: Seq<Seq<char>>) {
    }

    fn kind() -> FileKind {
        FileKind::Agency
    }

    fn required_names() -> (v: Vec<&'static str>) {
        let v = vec!["agency_name", "agency_url", "agency_timezone"];
        assert(texts(v@) =~= Self::required_columns());
        v
    }

    fn optional_names() -> (v: Vec<&'static str>) {
        let v = vec!["agency_id", "agency_lang", "agency_phone", "agency_fare_url"];
        assert(texts(v@) =~= Self::optional_columns());
        v
    }

    fn build(cols: &Columns, row: &Vec<String>) -> (r: Result<Agency, RowFault>) {
        if !covers(cols, row) {
            return Err(RowFault::Short);
        }
        Ok(
            Agency {
                id: optional_or(cols, row, 0, "_"),
                name: required(cols, row, 0).to_owned(),
                url: required(cols, row, 1).to_owned(),
                timezone: required(cols, row, 2).to_owned(),
                lang: owned(optional(cols, row, 1)),
                phone: owned(optional(cols, row, 2)),
                fare_url: owned(optional(cols, row, 3)),
            },
        )
    }

    fn key(&self) -> (k: &String) {
        &self.id
    }
}

impl Record for Stop {
    open spec fn file() -> FileKind {
        FileKind::Stops
    }

    open spec fn required_columns() -> Seq<Seq<char>> {
        seq!["stop_id"@, "stop_name"@, "stop_lat"@, "stop_lon"@]
    }

    open spec fn optional_columns() -> Seq<Seq<char>> {
        seq![
            "stop_code"@,
            "stop_desc"@,
            "zone_id"@,
            "stop_url"@,
            "location_type"@,
            "parent_station"@,
            "stop_timezone"@,
        ]
    }

    open spec fn of_row(cols: ColumnMap, row: Seq<Seq<char>>) -> Result<StopView, RowFault> {
        let lat = fixed_of(required_cell(cols, row, 2));
        let lon = fixed_of(required_cell(cols, row, 3));
        let location_type = optional_value(optional_cell(cols, row, 4), |s: Seq<char>| location_type_of(s));
        if !cols.within(row.len() as int) {
            Err(RowFault::Short)
        } else if lat is None {
            Err(RowFault::Cell(Column::Required(2)))
        } else if lon is None {
            Err(RowFault::Cell(Column::Required(3)))
        } else if location_type is None {
            Err(RowFault::Cell(Column::Optional(4)))
        } else {
            Ok(
                StopView {
                    id: required_cell(cols, row, 0),
                    code: optional_cell(cols, row, 0),
                    name: required_cell(cols, row, 1),
                    pt: Point { lat: lat->0, lon: lon->0 },
                    desc: optional_cell(cols, row, 1),
                    zone_id: optional_cell(cols, row, 2),
                    url: optional_cell(cols, row, 3),
                    location_type: location_type->0,
                    parent_station: optional_cell(cols, row, 5),
                    timezone: optional_cell(cols, row, 6),
                },
            )
        }
    }

    open spec fn key_of(v: StopView) -> Seq<char> {
        v.id
    }

    open spec fn sound(v: StopView) -> bool {
        true
    }

    proof fn lemma_sound(cols: ColumnMap, row: Seq<Seq<char>>) {
    }

    fn kind() -> FileKind {
        FileKind::Stops
    }

    fn required_names() -> (v: Vec<&'static str>) {
        let v = vec!["stop_id", "stop_name", "stop_lat", "stop_lon"];
        assert(texts(v@) =~= Self::required_columns());
        v
    }

    fn optional_names() -> (v: Vec<&'static str>) {
        let v = vec![
            "stop_code",
            "stop_desc",
            "zone_id",
            "stop_url",
            "location_type",
            "parent_station",
            "stop_timezone",
        ];
        assert(texts(v@) =~= Self::optional_columns());
        v
    }

    fn build(cols: &Columns, row: &Vec<String>) -> (r: Result<Stop, RowFault>) {
        if !covers(cols, row) {
            return Err(RowFault::Short);
        }
        let lat = match parse_decimal(required(cols, row, 2)) {
            Some(v) => v,
            None => {
                return Err(RowFault::Cell(Column::Required(2)));
            },
        };
        let lon = match parse_decimal(required(cols, row, 3)) {
            Some(v) => v,
            None => {
                return Err(RowFault::Cell(Column::Required(3)));
            },
        };
        let location_type = match optional(cols, row, 4) {
            None => None,
            Some(s) => match parse_location_type(s) {
                Some(v) => Some(v),
                None => {
                    return Err(RowFault::Cell(Column::Optional(4)));
                },
            },
        };
        Ok(
            Stop {
                id: required(cols, row, 0).to_owned(),
                code: owned(optional(cols, row, 0)),
                name: required(cols, row, 1).to_owned(),
                pt: Point { lat, lon },
                desc: owned(optional(cols, row, 1)),
                zone_id: owned(optional(cols, row, 2)),
                url: owned(optional(cols, row, 3)),
                location_type,
                parent_station: owned(optional(cols, row, 5)),
                timezone: owned(optional(cols, row, 6)),
            },
        )
    }

    fn key(&self) -> (k: &String) {
        &self.id
    }
}

impl Record for Route {
    open spec fn file() -> FileKind {
        FileKind::Routes
    }

    open spec fn required_columns() -> Seq<Seq<char>> {
        seq!["route_id"@, "route_short_name"@, "route_long_name"@, "route_type"@]
    }

    open spec fn optional_columns() -> Seq<Seq<char>> {
        seq!["agency_id"@, "route_desc"@, "route_url"@, "route_color"@, "route_text_color"@]
    }

    open spec fn of_row(cols: ColumnMap, row: Seq<Seq<char>>) -> Result<RouteView, RowFault> {
        let route_type = route_type_of(required_cell(cols, row, 3));
        if !cols.within(row.len() as int) {
            Err(RowFault::Short)
        } else if route_type is None {
            Err(RowFault::Cell(Column::Required(3)))
        } else {
            Ok(
                RouteView {
                    id: required_cell(cols, row, 0),
                    agency_id: cell_or(cols, row, 0, "_"@),
                    short_name: required_cell(cols, row, 1),
                    long_name: required_cell(cols, row, 2),
                    desc: optional_cell(cols, row, 1),
                    route_type: route_type->0,
                    url: optional_cell(cols, row, 2),
                    color: optional_cell(cols, row, 3),
                    text_color: optional_cell(cols, row, 4),
                },
            )
        }
    }

    open spec fn key_of(v: RouteView) -> Seq<char> {
        v.id
    }

    open spec fn sound(v: RouteView) -> bool {
        true
    }

    proof fn lemma_sound(cols: ColumnMap, row: Seq<Seq<char>>) {
    }

    fn kind() -> FileKind {
        FileKind::Routes
    }

    fn required_names() -> (v: Vec<&'static str>) {
        let v = vec!["route_id", "route_short_name", "route_long_name", "route_type"];
        assert(texts(v@) =~= Self::required_columns());
        v
    }

    fn optional_names() -> (v: Vec<&'static str>) {
        let v = vec!["agency_id", "route_desc", "route_url", "route_color", "route_text_color"];
        assert(texts(v@) =~= Self::optional_columns());
        v
    }

    fn build(cols: &Columns, row: &Vec<String>) -> (r: Result<Route, RowFault>) {
        if !covers(cols, row) {
            return Err(RowFault::Short);
        }
        let route_type = match parse_route_type(required(cols, row, 3)) {
            Some(v) => v,
            None => {
                return Err(RowFault::Cell(Column::Required(3)));
            },
        };
        Ok(
            Route {
                id: required(cols, row, 0).to_owned(),
                agency_id: optional_or(cols, row, 0, "_"),
                short_name: required(cols, row, 1).to_owned(),
                long_name: required(cols, row, 2).to_owned(),
                desc: owned(optional(cols, row, 1)),
                route_type,
                url: owned(optional(cols, row, 2)),
                color: owned(optional(cols, row, 3)),
                text_color: owned(optional(cols, row, 4)),
            },
        )
    }

    fn key(&self) -> (k: &String) {
        &self.id
    }
}

impl Record for Trip {
    open spec fn file() -> FileKind {
        FileKind::Trips
    }

    open spec fn required_columns() -> Seq<Seq<char>> {
        seq!["route_id"@, "service_id"@, "trip_id"@]
    }

    open spec fn optional_columns() -> Seq<Seq<char>> {
        seq!["trip_headsign"@, "trip_short_name"@, "direction_id"@, "block_id"@, "shape_id"@]
    }

    open spec fn of_row(cols: ColumnMap, row: Seq<Seq<char>>) -> Result<TripView, RowFault> {
        let direction = optional_value(optional_cell(cols, row, 2), |s: Seq<char>| direction_of(s));
        if !cols.within(row.len() as int) {
            Err(RowFault::Short)
        } else if direction is None {
            Err(RowFault::Cell(Column::Optional(2)))
        } else {
            Ok(
                TripView {
                    id: required_cell(cols, row, 2),
                    route_id: required_cell(cols, row, 0),
                    service_id: required_cell(cols, row, 1),
                    headsign: optional_cell(cols, row, 0),
                    short_name: optional_cell(cols, row, 1),
                    direction: direction->0,
                    block_id: optional_cell(cols, row, 3),
                    shape_id: optional_cell(cols, row, 4),
                },
            )
        }
    }

    open spec fn key_of(v: TripView) -> Seq<char> {
        v.id
    }

    open spec fn sound(v: TripView) -> bool {
        true
    }

    proof fn lemma_sound(cols: ColumnMap, row: Seq<Seq<char>>) {
    }

    fn kind() -> FileKind {
        FileKind::Trips
    }

    fn required_names() -> (v: Vec<&'static str>) {
        let v = vec!["route_id", "service_id", "trip_id"];
        assert(texts(v@) =~= Self::required_columns());
        v
    }

    fn optional_names() -> (v: Vec<&'static str>) {
        let v = vec!["trip_headsign", "trip_short_name", "direction_id", "block_id", "shape_id"];
        assert(texts(v@) =~= Self::optional_columns());
        v
    }

    fn build(cols: &Columns, row: &Vec<String>) -> (r: Result<Trip, RowFault>) {
        if !covers(cols, row) {
            return Err(RowFault::Short);
        }
        let direction = match optional(cols, row, 2) {
            None => None,
            Some(s) => match parse_direction(s) {
                Some(v) => Some(v),
                None => {
                    return Err(RowFault::Cell(Column::Optional(2)));
                },
            },
        };
        Ok(
            Trip {
                id: required(cols, row, 2).to_owned(),
                route_id: required(cols, row, 0).to_owned(),
                service_id: required(cols, row, 1).to_owned(),
                headsign: owned(optional(cols, row, 0)),
                short_name: owned(optional(cols, row, 1)),
                direction,
                block_id: owned(optional(cols, row, 3)),
                shape_id: owned(optional(cols, row, 4)),
            },
        )
    }

    fn key(&self) -> (k: &String) {
        &self.id
    }
}

impl Record for StopTime {
    open spec fn file() -> FileKind {
        FileKind::StopTimes
    }

    open spec fn required_columns() -> Seq<Seq<char>> {
        seq!["trip_id"@, "arrival_time"@, "departure_time"@, "stop_id"@, "stop_sequence"@]
    }

    open spec fn optional_columns() -> Seq<Seq<char>> {
        seq!["stop_headsign"@, "pickup_type"@, "drop_off_type"@, "shape_dist_travelled"@]
    }

    open spec fn of_row(cols: ColumnMap, row: Seq<Seq<char>>) -> Result<StopTimeView, RowFault> {
        let sequence = uint_of(required_cell(cols, row, 4));
        let arrival_time = time_of(required_cell(cols, row, 1));
        let departure_time = time_of(required_cell(cols, row, 2));
        let pickup_type = optional_value(optional_cell(cols, row, 1), |s: Seq<char>| marshal_of(s));
        let drop_off_type = optional_value(optional_cell(cols, row, 2), |s: Seq<char>| marshal_of(s));
        let shape_dist_travelled = optional_value(optional_cell(cols, row, 3), |s: Seq<char>| fixed_of(s));
        if !cols.within(row.len() as int) {
            Err(RowFault::Short)
        } else if sequence is None {
            Err(RowFault::Cell(Column::Required(4)))
        } else if arrival_time is None {
            Err(RowFault::Cell(Column::Required(1)))
        } else if departure_time is None {
            Err(RowFault::Cell(Column::Required(2)))
        } else if pickup_type is None {
            Err(RowFault::Cell(Column::Optional(1)))
        } else if drop_off_type is None {
            Err(RowFault::Cell(Column::Optional(2)))
        } else if shape_dist_travelled is None {
            Err(RowFault::Cell(Column::Optional(3)))
        } else {
            Ok(
                StopTimeView {
                    trip_id: required_cell(cols, row, 0),
                    arrival_time: arrival_time->0,
                    departure_time: departure_time->0,
                    stop_id: required_cell(cols, row, 3),
                    sequence: sequence->0,
                    headsign: optional_cell(cols, row, 0),
                    pickup_type: pickup_type->0,
                    drop_off_type: drop_off_type->0,
                    shape_dist_travelled: shape_dist_travelled->0,
                },
            )
        }
    }

    open spec fn key_of(v: StopTimeView) -> Seq<char> {
        v.trip_id
    }

    open spec fn sound(v: StopTimeView) -> bool {
        true
    }

    proof fn lemma_sound(cols: ColumnMap, row: Seq<Seq<char>>) {
    }

    fn kind() -> FileKind {
        FileKind::StopTimes
    }

    fn required_names() -> (v: Vec<&'static str>) {
        let v = vec!["trip_id", "arrival_time", "departure_time", "stop_id", "stop_sequence"];
        assert(texts(v@) =~= Self::required_columns());
        v
    }

    fn optional_names() -> (v: Vec<&'static str>) {
        let v = vec!["stop_headsign", "pickup_type", "drop_off_type", "shape_dist_travelled"];
        assert(texts(v@) =~= Self::optional_columns());
        v
    }

    fn build(cols: &Columns, row: &Vec<String>) -> (r: Result<StopTime, RowFault>) {
        if !covers(cols, row) {
            return Err(RowFault::Short);
        }
        let sequence = match parse_uint(required(cols, row, 4)) {
            Some(v) => v,
            None => {
                return Err(RowFault::Cell(Column::Required(4)));
            },
        };
        let arrival_time = match parse_time(required(cols, row, 1)) {
            Some(v) => v,
            None => {
                return Err(RowFault::Cell(Column::Required(1)));
            },
        };
        let departure_time = match parse_time(required(cols, row, 2)) {
            Some(v) => v,
            None => {
                return Err(RowFault::Cell(Column::Required(2)));
            },
        };
        let pickup_type = match optional(cols, row, 1) {
            None => None,
            Some(s) => match parse_marshal(s) {
                Some(v) => Some(v),
                None => {
                    return Err(RowFault::Cell(Column::Optional(1)));
                },
            },
        };
        let drop_off_type = match optional(cols, row, 2) {
            None => None,
            Some(s) => match parse_marshal(s) {
                Some(v) => Some(v),
                None => {
                    return Err(RowFault::Cell(Column::Optional(2)));
                },
            },
        };
        let shape_dist_travelled = match optional(cols, row, 3) {
            None => None,
            Some(s) => match parse_decimal(s) {
                Some(v) => Some(v),
                None => {
                    return Err(RowFault::Cell(Column::Optional(3)));
                },
            },
        };
        Ok(
            StopTime {
                trip_id: required(cols, row, 0).to_owned(),
                arrival_time,
                departure_time,
                stop_id: required(cols, row, 3).to_owned(),
                sequence,
                headsign: owned(optional(cols, row, 0)),
                pickup_type,
                drop_off_type,
                shape_dist_travelled,
            },
        )
    }

    fn key(&self) -> (k: &String) {
        &self.trip_id
    }
}

impl Record for Calendar {
    open spec fn file() -> FileKind {
        FileKind::Calendar
    }

    open spec fn required_columns() -> Seq<Seq<char>> {
        seq![
            "service_id"@,
            "monday"@,
            "tuesday"@,
            "wednesday"@,
            "thursday"@,
            "friday"@,
            "saturday"@,
            "sunday"@,
            "start_date"@,
            "end_date"@,
        ]
    }

    open spec fn optional_columns() -> Seq<Seq<char>> {
        Seq::empty()
    }

    open spec fn of_row(cols: ColumnMap, row: Seq<Seq<char>>) -> Result<CalendarView, RowFault> {
        let monday = bool_of(required_cell(cols, row, 1));
        let tuesday = bool_of(required_cell(cols, row, 2));
        let wednesday = bool_of(required_cell(cols, row, 3));
        let thursday = bool_of(required_cell(cols, row, 4));
        let friday = bool_of(required_cell(cols, row, 5));
        let saturday = bool_of(required_cell(cols, row, 6));
        let sunday = bool_of(required_cell(cols, row, 7));
        let start_date = date_of(required_cell(cols, row, 8));
        let end_date = date_of(required_cell(cols, row, 9));
        if !cols.within(row.len() as int) {
            Err(RowFault::Short)
        } else if monday is None {
            Err(RowFault::Cell(Column::Required(1)))
        } else if tuesday is None {
            Err(RowFault::Cell(Column::Required(2)))
        } else if wednesday is None {
            Err(RowFault::Cell(Column::Required(3)))
        } else if thursday is None {
            Err(RowFault::Cell(Column::Required(4)))
        } else if friday is None {
            Err(RowFault::Cell(Column::Required(5)))
        } else if saturday is None {
            Err(RowFault::Cell(Column::Required(6)))
        } else if sunday is None {
            Err(RowFault::Cell(Column::Required(7)))
        } else if start_date is None {
            Err(RowFault::Cell(Column::Required(8)))
        } else if end_date is None {
            Err(RowFault::Cell(Column::Required(9)))
        } else {
            Ok(
                CalendarView {
                    service_id: required_cell(cols, row, 0),
                    weekdays: Weekdays {
                        monday: monday->0,
                        tuesday: tuesday->0,
                        wednesday: wednesday->0,
                        thursday: thursday->0,
                        friday: friday->0,
                        saturday: saturday->0,
                        sunday: sunday->0,
                    },
                    start_date: start_date->0,
                    end_date: end_date->0,
                },
            )
        }
    }

    open spec fn key_of(v: CalendarView) -> Seq<char> {
        v.service_id
    }

    open spec fn sound(v: CalendarView) -> bool {
        v.start_date.valid() && v.end_date.valid()
    }

    proof fn lemma_sound(cols: ColumnMap, row: Seq<Seq<char>>) {
        lemma_date_of(required_cell(cols, row, 8));
        lemma_date_of(required_cell(cols, row, 9));
    }

    fn kind() -> FileKind {
        FileKind::Calendar
    }

    fn required_names() -> (v: Vec<&'static str>) {
        let v = vec![
            "service_id",
            "monday",
            "tuesday",
            "wednesday",
            "thursday",
            "friday",
            "saturday",
            "sunday",
            "start_date",
            "end_date",
        ];
        assert(texts(v@) =~= Self::required_columns());
        v
    }

    fn optional_names() -> (v: Vec<&'static str>) {
        let v: Vec<&'static str> = Vec::new();
        assert(texts(v@) =~= Self::optional_columns());
        v
    }

    fn build(cols: &Columns, row: &Vec<String>) -> (r: Result<Calendar, RowFault>) {
        if !covers(cols, row) {
            return Err(RowFault::Short);
        }
        let monday = match parse_bool(required(cols, row, 1)) {
            Some(v) => v,
            None => {
                return Err(RowFault::Cell(Column::Required(1)));
            },
        };
        let tuesday = match parse_bool(required(cols, row, 2)) {
            Some(v) => v,
            None => {
                return Err(RowFault::Cell(Column::Required(2)));
            },
        };
        let wednesday = match parse_bool(required(cols, row, 3)) {
            Some(v) => v,
            None => {
                return Err(RowFault::Cell(Column::Required(3)));
            },
        };
        let thursday = match parse_bool(required(cols, row, 4)) {
            Some(v) => v,
            None => {
                return Err(RowFault::Cell(Column::Required(4)));
            },
        };
        let friday = match parse_bool(required(cols, row, 5)) {
            Some(v) => v,
            None => {
                return Err(RowFault::Cell(Column::Required(5)));
            },
        };
        let saturday = match parse_bool(required(cols, row, 6)) {
            Some(v) => v,
            None => {
                return Err(RowFault::Cell(Column::Required(6)));
            },
        };
        let sunday = match parse_bool(required(cols, row, 7)) {
            Some(v) => v,
            None => {
                return Err(RowFault::Cell(Column::Required(7)));
            },
        };
        let start_date = match parse_date(required(cols, row, 8)) {
            Some(v) => v,
            None => {
                return Err(RowFault::Cell(Column::Required(8)));
            },
        };
        let end_date = match parse_date(required(cols, row, 9)) {
            Some(v) => v,
            None => {
                return Err(RowFault::Cell(Column::Required(9)));
            },
        };
        Ok(
            Calendar {
                service_id: required(cols, row, 0).to_owned(),
                weekdays: Weekdays { monday, tuesday, wednesday, thursday, friday, saturday, sunday },
                start_date,
                end_date,
            },
        )
    }

    fn key(&self) -> (k: &String) {
        &self.service_id
    }
}

impl Record for CalendarDate {
    open spec fn file() -> FileKind {
        FileKind::CalendarDates
    }

    open spec fn required_columns() -> Seq<Seq<char>> {
        seq!["service_id"@, "date"@, "exception_type"@]
    }

    open spec fn optional_columns() -> Seq<Seq<char>> {
        Seq::empty()
    }

    open spec fn of_row(cols: ColumnMap, row: Seq<Seq<char>>) -> Result<CalendarDateView, RowFault> {
        let date = date_of(required_cell(cols, row, 1));
        let exception_type = exception_of(required_cell(cols, row, 2));
        if !cols.within(row.len() as int) {
            Err(RowFault::Short)
        } else if date is None {
            Err(RowFault::Cell(Column::Required(1)))
        } else if exception_type is None {
            Err(RowFault::Cell(Column::Required(2)))
        } else {
            Ok(
                CalendarDateView {
                    service_id: required_cell(cols, row, 0),
                    date: date->0,
                    exception_type: exception_type->0,
                },
            )
        }
    }

    open spec fn key_of(v: CalendarDateView) -> Seq<char> {
        v.service_id
    }

    open spec fn sound(v: CalendarDateView) -> bool {
        v.date.valid()
    }

    proof fn lemma_sound(cols: ColumnMap, row: Seq<Seq<char>>) {
        lemma_date_of(required_cell(cols, row, 1));
    }

    fn kind() -> FileKind {
        FileKind::CalendarDates
    }

    fn required_names() -> (v: Vec<&'static str>) {
        let v = vec!["service_id", "date", "exception_type"];
        assert(texts(v@) =~= Self::required_columns());
        v
    }

    fn optional_names() -> (v: Vec<&'static str>) {
        let v: Vec<&'static str> = Vec::new();
        assert(texts(v@) =~= Self::optional_columns());
        v
    }

    fn build(cols: &Columns, row: &Vec<String>) -> (r: Result<CalendarDate, RowFault>) {
        if !covers(cols, row) {
            return Err(RowFault::Short);
        }
        let date = match parse_date(required(cols, row, 1)) {
            Some(v) => v,
            None => {
                return Err(RowFault::Cell(Column::Required(1)));
            },
        };
        let exception_type = match parse_exception(required(cols, row, 2)) {
            Some(v) => v,
            None => {
                return Err(RowFault::Cell(Column::Required(2)));
            },
        };
        Ok(
            CalendarDate {
                service_id: required(cols, row, 0).to_owned(),
                date,
                exception_type,
            },
        )
    }

    fn key(&self) -> (k: &String) {
        &self.service_id
    }
}

} // verus!
