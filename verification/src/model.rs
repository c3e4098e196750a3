//! The records of a feed, one type for each file of the bundle, and what
//! each of them holds as mathematical values.

use vstd::prelude::*;

verus! {

/// How a route's vehicles travel.
#[derive(Clone, Copy, Debug, PartialEq, Eq, Structural)]
pub enum RouteType {
    Tram,
    Subway,
    Rail,
    Bus,
    Ferry,
    CableCar,
    Gondola,
    Funicular,
}

/// Whether a stop is a single boarding place or a station that groups some.
#[derive(Clone, Copy, Debug, PartialEq, Eq, Structural)]
pub enum LocationType {
    Stop,
    Station,
}

/// The direction of travel of a trip along its route.
#[derive(Clone, Copy, Debug, PartialEq, Eq, Structural)]
pub enum Direction {
    A,
    B,
}

/// How riders are picked up or set down at a call.
#[derive(Clone, Copy, Debug, PartialEq, Eq, Structural)]
pub enum Marshal {
    Scheduled,
    NoPickup,
    PhoneAhead,
    CoordinateWithDriver,
}

/// What a dated exception does to its service.
#[derive(Clone, Copy, Debug, PartialEq, Eq, Structural)]
pub enum Exception {
    Added,
    Removed,
}

/// A day of the week.
#[derive(Clone, Copy, Debug, PartialEq, Eq, Structural)]
pub enum Weekday {
    Monday,
    Tuesday,
    Wednesday,
    Thursday,
    Friday,
    Saturday,
    Sunday,
}

/// The days of the week on which a service runs.
#[derive(Clone, Copy, Debug, PartialEq, Eq, Structural)]
pub struct Weekdays {
    pub monday: bool,
    pub tuesday: bool,
    pub wednesday: bool,
    pub thursday: bool,
    pub friday: bool,
    pub saturday: bool,
    pub sunday: bool,
}

impl Weekdays {
    /// Whether `day` is one of these days.
    pub open spec fn has(self, day: Weekday) -> bool {
        match day {
            Weekday::Monday => self.monday,
            Weekday::Tuesday => self.tuesday,
            Weekday::Wednesday => self.wednesday,
            Weekday::Thursday => self.thursday,
            Weekday::Friday => self.friday,
            Weekday::Saturday => self.saturday,
            Weekday::Sunday => self.sunday,
        }
    }

    /// Whether `day` is one of these days.
    pub fn contains(&self, day: Weekday) -> (r: bool)
        ensures
            r == self.has(day),
    {
        match day {
            Weekday::Monday => self.monday,
            Weekday::Tuesday => self.tuesday,
            Weekday::Wednesday => self.wednesday,
            Weekday::Thursday => self.thursday,
            Weekday::Friday => self.friday,
            Weekday::Saturday => self.saturday,
            Weekday::Sunday => self.sunday,
        }
    }
}

/// A calendar date. Only its shape is checked: a month from 1 to 12 and a
/// day of at most 31, so 31 February is a date here.
#[derive(Clone, Copy, Debug, PartialEq, Eq, Structural)]
pub struct Date {
    pub day: u32,
    pub month: u32,
    pub year: u32,
}

impl Date {
    /// The shape that every date of a feed has.
    pub open spec fn valid(self) -> bool {
        1 <= self.month <= 12 && self.day <= 31 && self.year <= 9999
    }
}

/// A decimal number in fixed point: `nano` counts units of one billionth.
/// Latitudes, longitudes and distances are held so.
#[derive(Clone, Copy, Debug, PartialEq, Eq, Structural)]
pub struct Fixed {
    pub nano: i64,
}

/// A place on the globe, in degrees.
#[derive(Clone, Copy, Debug, PartialEq, Eq, Structural)]
pub struct Point {
    pub lat: Fixed,
    pub lon: Fixed,
}

/// The box between a south-west and a north-east corner.
#[derive(Clone, Copy, Debug, PartialEq, Eq, Structural)]
pub struct Rectangle {
    pub sw: Point,
    pub ne: Point,
}

/// A copy of an optional string.
pub fn copy_text(s: &Option<String>) -> (r: Option<String>)
    ensures
        r.deep_view() == s.deep_view(),
{
    match s {
        Some(t) => Some(t.clone()),
        None => None,
    }
}

/// One operator of transit services.
#[derive(Debug, PartialEq, Eq)]
pub struct Agency {
    /// The agency's key; `"_"` where the feed names none.
    pub id: String,
    pub name: String,
    pub url: String,
    pub timezone: String,
    pub lang: Option<String>,
    pub phone: Option<String>,
    pub fare_url: Option<String>,
}

/// What a [`Agency`] holds, as mathematical values.
pub struct AgencyView {
    pub id: Seq<char>,
    pub name: Seq<char>,
    pub url: Seq<char>,
    pub timezone: Seq<char>,
    pub lang: Option<Seq<char>>,
    pub phone: Option<Seq<char>>,
    pub fare_url: Option<Seq<char>>,
}

impl View for Agency {
    type V = AgencyView;

    open spec fn view(&self) -> AgencyView {
        AgencyView {
            id: self.id@,
            name: self.name@,
            url: self.url@,
            timezone: self.timezone@,
            lang: self.lang.deep_view(),
            phone: self.phone.deep_view(),
            fare_url: self.fare_url.deep_view(),
        }
    }
}

impl DeepView for Agency {
    type V = AgencyView;

    open spec fn deep_view(&self) -> AgencyView {
        self@
    }
}

impl Clone for Agency {
    fn clone(&self) -> (r: Self)
        ensures
            r@ == self@,
    {
        Agency {
            id: self.id.clone(),
            name: self.name.clone(),
            url: self.url.clone(),
            timezone: self.timezone.clone(),
            lang: copy_text(&self.lang),
            phone: copy_text(&self.phone),
            fare_url: copy_text(&self.fare_url),
        }
    }
}

/// A place where vehicles pick up or set down riders.
#[derive(Debug, PartialEq, Eq)]
pub struct Stop {
    pub id: String,
    pub code: Option<String>,
    pub name: String,
    pub pt: Point,
    pub desc: Option<String>,
    pub zone_id: Option<String>,
    pub url: Option<String>,
    pub location_type: Option<LocationType>,
    pub parent_station: Option<String>,
    pub timezone: Option<String>,
}

/// What a [`Stop`] holds, as mathematical values.
pub struct StopView {
    pub id: Seq<char>,
    pub code: Option<Seq<char>>,
    pub name: Seq<char>,
    pub pt: Point,
    pub desc: Option<Seq<char>>,
    pub zone_id: Option<Seq<char>>,
    pub url: Option<Seq<char>>,
    pub location_type: Option<LocationType>,
    pub parent_station: Option<Seq<char>>,
    pub timezone: Option<Seq<char>>,
}

impl View for Stop {
    type V = StopView;

    open spec fn view(&self) -> StopView {
        StopView {
            id: self.id@,
            code: self.code.deep_view(),
            name: self.name@,
            pt: self.pt,
            desc: self.desc.deep_view(),
            zone_id: self.zone_id.deep_view(),
            url: self.url.deep_view(),
            location_type: self.location_type,
            parent_station: self.parent_station.deep_view(),
            timezone: self.timezone.deep_view(),
        }
    }
}

impl DeepView for Stop {
    type V = StopView;

    open spec fn deep_view(&self) -> StopView {
        self@
    }
}

impl Clone for Stop {
    fn clone(&self) -> (r: Self)
        ensures
            r@ == self@,
    {
        Stop {
            id: self.id.clone(),
            code: copy_text(&self.code),
            name: self.name.clone(),
            pt: self.pt,
            desc: copy_text(&self.desc),
            zone_id: copy_text(&self.zone_id),
            url: copy_text(&self.url),
            location_type: self.location_type,
            parent_station: copy_text(&self.parent_station),
            timezone: copy_text(&self.timezone),
        }
    }
}

/// A named line that an agency operates.
#[derive(Debug, PartialEq, Eq)]
pub struct Route {
    pub id: String,
    /// The operating agency's key; `"_"` where the feed names none.
    pub agency_id: String,
    pub short_name: String,
    pub long_name: String,
    pub desc: Option<String>,
    pub route_type: RouteType,
    pub url: Option<String>,
    pub color: Option<String>,
    pub text_color: Option<String>,
}

/// What a [`Route`] holds, as mathematical values.
pub struct RouteView {
    pub id: Seq<char>,
    pub agency_id: Seq<char>,
    pub short_name: Seq<char>,
    pub long_name: Seq<char>,
    pub desc: Option<Seq<char>>,
    pub route_type: RouteType,
    pub url: Option<Seq<char>>,
    pub color: Option<Seq<char>>,
    pub text_color: Option<Seq<char>>,
}

impl View for Route {
    type V = RouteView;

    open spec fn view(&self) -> RouteView {
        RouteView {
            id: self.id@,
            agency_id: self.agency_id@,
            short_name: self.short_name@,
            long_name: self.long_name@,
            desc: self.desc.deep_view(),
            route_type: self.route_type,
            url: self.url.deep_view(),
            color: self.color.deep_view(),
            text_color: self.text_color.deep_view(),
        }
    }
}

impl DeepView for Route {
    type V = RouteView;

    open spec fn deep_view(&self) -> RouteView {
        self@
    }
}

impl Clone for Route {
    fn clone(&self) -> (r: Self)
        ensures
            r@ == self@,
    {
        Route {
            id: self.id.clone(),
            agency_id: self.agency_id.clone(),
            short_name: self.short_name.clone(),
            long_name: self.long_name.clone(),
            desc: copy_text(&self.desc),
            route_type: self.route_type,
            url: copy_text(&self.url),
            color: copy_text(&self.color),
            text_color: copy_text(&self.text_color),
        }
    }
}

/// One run of a vehicle along a route, on one service.
#[derive(Debug, PartialEq, Eq)]
pub struct Trip {
    pub id: String,
    pub route_id: String,
    pub service_id: String,
    pub headsign: Option<String>,
    pub short_name: Option<String>,
    pub direction: Option<Direction>,
    pub block_id: Option<String>,
    pub shape_id: Option<String>,
}

/// What a [`Trip`] holds, as mathematical values.
pub struct TripView {
    pub id: Seq<char>,
    pub route_id: Seq<char>,
    pub service_id: Seq<char>,
    pub headsign: Option<Seq<char>>,
    pub short_name: Option<Seq<char>>,
    pub direction: Option<Direction>,
    pub block_id: Option<Seq<char>>,
    pub shape_id: Option<Seq<char>>,
}

impl View for Trip {
    type V = TripView;

    open spec fn view(&self) -> TripView {
        TripView {
            id: self.id@,
            route_id: self.route_id@,
            service_id: self.service_id@,
            headsign: self.headsign.deep_view(),
            short_name: self.short_name.deep_view(),
            direction: self.direction,
            block_id: self.block_id.deep_view(),
            shape_id: self.shape_id.deep_view(),
        }
    }
}

impl DeepView for Trip {
    type V = TripView;

    open spec fn deep_view(&self) -> TripView {
        self@
    }
}

impl Clone for Trip {
    fn clone(&self) -> (r: Self)
        ensures
            r@ == self@,
    {
        Trip {
            id: self.id.clone(),
            route_id: self.route_id.clone(),
            service_id: self.service_id.clone(),
            headsign: copy_text(&self.headsign),
            short_name: copy_text(&self.short_name),
            direction: self.direction,
            block_id: copy_text(&self.block_id),
            shape_id: copy_text(&self.shape_id),
        }
    }
}

/// The planned call of a trip at one stop.
#[derive(Debug, PartialEq, Eq)]
pub struct StopTime {
    pub trip_id: String,
    /// Seconds from midnight.
    pub arrival_time: u64,
    /// Seconds from midnight.
    pub departure_time: u64,
    pub stop_id: String,
    /// The call's position within its trip.
    pub sequence: u64,
    pub headsign: Option<String>,
    pub pickup_type: Option<Marshal>,
    pub drop_off_type: Option<Marshal>,
    pub shape_dist_travelled: Option<Fixed>,
}

/// What a [`StopTime`] holds, as mathematical values.
pub struct StopTimeView {
    pub trip_id: Seq<char>,
    pub arrival_time: u64,
    pub departure_time: u64,
    pub stop_id: Seq<char>,
    pub sequence: u64,
    pub headsign: Option<Seq<char>>,
    pub pickup_type: Option<Marshal>,
    pub drop_off_type: Option<Marshal>,
    pub shape_dist_travelled: Option<Fixed>,
}

impl View for StopTime {
    type V = StopTimeView;

    open spec fn view(&self) -> StopTimeView {
        StopTimeView {
            trip_id: self.trip_id@,
            arrival_time: self.arrival_time,
            departure_time: self.departure_time,
            stop_id: self.stop_id@,
            sequence: self.sequence,
            headsign: self.headsign.deep_view(),
            pickup_type: self.pickup_type,
            drop_off_type: self.drop_off_type,
            shape_dist_travelled: self.shape_dist_travelled,
        }
    }
}

impl DeepView for StopTime {
    type V = StopTimeView;

    open spec fn deep_view(&self) -> StopTimeView {
        self@
    }
}

impl Clone for StopTime {
    fn clone(&self) -> (r: Self)
        ensures
            r@ == self@,
    {
        StopTime {
            trip_id: self.trip_id.clone(),
            arrival_time: self.arrival_time,
            departure_time: self.departure_time,
            stop_id: self.stop_id.clone(),
            sequence: self.sequence,
            headsign: copy_text(&self.headsign),
            pickup_type: self.pickup_type,
            drop_off_type: self.drop_off_type,
            shape_dist_travelled: self.shape_dist_travelled,
        }
    }
}

/// The weekly pattern of one service.
#[derive(Debug, PartialEq, Eq)]
pub struct Calendar {
    pub service_id: String,
    pub weekdays: Weekdays,
    pub start_date: Date,
    pub end_date: Date,
}

/// What a [`Calendar`] holds, as mathematical values.
pub struct CalendarView {
    pub service_id: Seq<char>,
    pub weekdays: Weekdays,
    pub start_date: Date,
    pub end_date: Date,
}

impl View for Calendar {
    type V = CalendarView;

    open spec fn view(&self) -> CalendarView {
        CalendarView {
            service_id: self.service_id@,
            weekdays: self.weekdays,
            start_date: self.start_date,
            end_date: self.end_date,
        }
    }
}

impl DeepView for Calendar {
    type V = CalendarView;

    open spec fn deep_view(&self) -> CalendarView {
        self@
    }
}

impl Clone for Calendar {
    fn clone(&self) -> (r: Self)
        ensures
            r@ == self@,
    {
        Calendar {
            service_id: self.service_id.clone(),
            weekdays: self.weekdays,
            start_date: self.start_date,
            end_date: self.end_date,
        }
    }
}

/// One dated exception to a service's weekly pattern.
#[derive(Debug, PartialEq, Eq)]
pub struct CalendarDate {
    pub service_id: String,
    pub date: Date,
    pub exception_type: Exception,
}

/// What a [`CalendarDate`] holds, as mathematical values.
pub struct CalendarDateView {
    pub service_id: Seq<char>,
    pub date: Date,
    pub exception_type: Exception,
}

impl View for CalendarDate {
    type V = CalendarDateView;

    open spec fn view(&self) -> CalendarDateView {
        CalendarDateView {
            service_id: self.service_id@,
            date: self.date,
            exception_type: self.exception_type,
        }
    }
}

impl DeepView for CalendarDate {
    type V = CalendarDateView;

    open spec fn deep_view(&self) -> CalendarDateView {
        self@
    }
}

impl Clone for CalendarDate {
    fn clone(&self) -> (r: Self)
        ensures
            r@ == self@,
    {
        CalendarDate {
            service_id: self.service_id.clone(),
            date: self.date,
            exception_type: self.exception_type,
        }
    }
}

} // verus!
