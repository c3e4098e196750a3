//! The feed: the records of the seven files, keyed, and how it is loaded.

use crate::model::{
    Agency, AgencyView, Calendar, CalendarDate, CalendarDateView, CalendarView, Route, RouteView,
    Stop, StopTime, StopTimeView, StopView, Trip, TripView,
};
use crate::reader::{read_table, table_of};
use crate::sort::{ascending, lemma_stable_sort, sort_ranked, stable_sort, Ranked};
use crate::schema::column_of;
use crate::table::{
    bound_columns, grouped_table, has_key, lemma_groups_upto_well_grouped, lemma_records_upto,
    load_grouped, load_unique,
    unique_table, well_grouped, well_keyed, FileKind, Group, GroupView, LoadError, Record,
    RowFault,
};
use vstd::prelude::*;

verus! {

impl Ranked for StopTime {
    open spec fn rank(v: StopTimeView) -> int {
        v.sequence as int
    }

    fn rank_value(&self) -> (r: u64) {
        self.sequence
    }
}

/// The text of each file of a feed, where the file is there.
#[derive(Debug, PartialEq, Eq)]
pub struct FeedFiles {
    pub agency: Option<String>,
    pub stops: Option<String>,
    pub routes: Option<String>,
    pub trips: Option<String>,
    pub stop_times: Option<String>,
    pub calendar: Option<String>,
    pub calendar_dates: Option<String>,
}

/// The table of each file of a feed: its header row, then its data rows.
#[derive(Debug, PartialEq, Eq)]
pub struct Tables {
    pub agency: Vec<Vec<String>>,
    pub stops: Vec<Vec<String>>,
    pub routes: Vec<Vec<String>>,
    pub trips: Vec<Vec<String>>,
    pub stop_times: Vec<Vec<String>>,
    pub calendar: Vec<Vec<String>>,
    pub calendar_dates: Vec<Vec<String>>,
}

/// For each file of a feed, its table, or why there is none.
pub struct Sources {
    pub agency: Result<Seq<Seq<Seq<char>>>, LoadError>,
    pub stops: Result<Seq<Seq<Seq<char>>>, LoadError>,
    pub routes: Result<Seq<Seq<Seq<char>>>, LoadError>,
    pub trips: Result<Seq<Seq<Seq<char>>>, LoadError>,
    pub stop_times: Result<Seq<Seq<Seq<char>>>, LoadError>,
    pub calendar: Result<Seq<Seq<Seq<char>>>, LoadError>,
    pub calendar_dates: Result<Seq<Seq<Seq<char>>>, LoadError>,
}

impl FeedFiles {
    /// The tables that the files hold.
    pub open spec fn sources(&self) -> Sources {
        Sources {
            agency: table_of(FileKind::Agency, self.agency.deep_view()),
            stops: table_of(FileKind::Stops, self.stops.deep_view()),
            routes: table_of(FileKind::Routes, self.routes.deep_view()),
            trips: table_of(FileKind::Trips, self.trips.deep_view()),
            stop_times: table_of(FileKind::StopTimes, self.stop_times.deep_view()),
            calendar: table_of(FileKind::Calendar, self.calendar.deep_view()),
            calendar_dates: table_of(FileKind::CalendarDates, self.calendar_dates.deep_view()),
        }
    }
}

impl Tables {
    /// The tables, each one there.
    pub open spec fn sources(&self) -> Sources {
        Sources {
            agency: Ok(self.agency.deep_view()),
            stops: Ok(self.stops.deep_view()),
            routes: Ok(self.routes.deep_view()),
            trips: Ok(self.trips.deep_view()),
            stop_times: Ok(self.stop_times.deep_view()),
            calendar: Ok(self.calendar.deep_view()),
            calendar_dates: Ok(self.calendar_dates.deep_view()),
        }
    }
}

/// What a [`Feed`] holds, as mathematical values. Every list is in the order
/// of the rows of its file; the groups of a list are in the order in which
/// their keys first occur.
pub struct FeedView {
    pub agencies: Seq<AgencyView>,
    pub stops: Seq<StopView>,
    pub routes: Seq<RouteView>,
    pub trips: Seq<TripView>,
    /// The calls of each trip, in ascending order of sequence.
    pub stop_times: Seq<GroupView<StopTimeView>>,
    pub calendars: Seq<CalendarView>,
    /// The dated exceptions of each service, in the order of the rows.
    pub calendar_dates: Seq<GroupView<CalendarDateView>>,
}

/// The records of a file in which every key occurs once.
pub open spec fn records<T: Record>(source: Result<Seq<Seq<Seq<char>>>, LoadError>) -> Result<
    Seq<T::V>,
    LoadError,
> {
    match source {
        Err(e) => Err(e),
        Ok(table) => unique_table::<T>(table),
    }
}

/// The groups of records of a file whose records are gathered by key.
pub open spec fn groups<T: Record>(source: Result<Seq<Seq<Seq<char>>>, LoadError>) -> Result<
    Seq<GroupView<T::V>>,
    LoadError,
> {
    match source {
        Err(e) => Err(e),
        Ok(table) => grouped_table::<T>(table),
    }
}

/// The calls of each trip put in ascending order of sequence, calls of one
/// sequence staying in the order of their rows.
pub open spec fn in_sequence(groups: Seq<GroupView<StopTimeView>>) -> Seq<GroupView<StopTimeView>> {
    Seq::new(
        groups.len(),
        |i: int| GroupView { key: groups[i].key, items: stable_sort::<StopTime>(groups[i].items) },
    )
}

/// The feed that the sources hold. The files are read in the order agency,
/// stops, routes, trips, stop times, calendar, calendar dates, and the first
/// fault met in that order is the fault of the feed.
pub open spec fn feed_of(s: Sources) -> Result<FeedView, LoadError> {
    let agencies = records::<Agency>(s.agency);
    let stops = records::<Stop>(s.stops);
    let routes = records::<Route>(s.routes);
    let trips = records::<Trip>(s.trips);
    let stop_times = groups::<StopTime>(s.stop_times);
    let calendars = records::<Calendar>(s.calendar);
    let calendar_dates = groups::<CalendarDate>(s.calendar_dates);
    if agencies is Err {
        Err(agencies->Err_0)
    } else if stops is Err {
        Err(stops->Err_0)
    } else if routes is Err {
        Err(routes->Err_0)
    } else if trips is Err {
        Err(trips->Err_0)
    } else if stop_times is Err {
        Err(stop_times->Err_0)
    } else if calendars is Err {
        Err(calendars->Err_0)
    } else if calendar_dates is Err {
        Err(calendar_dates->Err_0)
    } else {
        Ok(
            FeedView {
                agencies: agencies->Ok_0,
                stops: stops->Ok_0,
                routes: routes->Ok_0,
                trips: trips->Ok_0,
                stop_times: in_sequence(stop_times->Ok_0),
                calendars: calendars->Ok_0,
                calendar_dates: calendar_dates->Ok_0,
            },
        )
    }
}

/// Whether the calls of every trip are in ascending order of sequence.
pub open spec fn all_in_sequence(groups: Seq<GroupView<StopTimeView>>) -> bool {
    forall|i: int| 0 <= i < groups.len() ==> ascending::<StopTime>((#[trigger] groups[i]).items)
}

/// What holds of every feed: within a file no key occurs twice, the calls
/// and the exceptions lie in the group of their trip and service, the calls
/// of every trip are in ascending order of sequence, and every date has the
/// shape of a date.
pub open spec fn well_formed(v: FeedView) -> bool {
    &&& well_keyed::<Agency>(v.agencies)
    &&& well_keyed::<Stop>(v.stops)
    &&& well_keyed::<Route>(v.routes)
    &&& well_keyed::<Trip>(v.trips)
    &&& well_grouped::<StopTime>(v.stop_times)
    &&& all_in_sequence(v.stop_times)
    &&& well_keyed::<Calendar>(v.calendars)
    &&& well_grouped::<CalendarDate>(v.calendar_dates)
}

/// Putting the calls of each trip in sequence keeps the groups well formed.
pub proof fn lemma_in_sequence(groups: Seq<GroupView<StopTimeView>>)
    requires
        well_grouped::<StopTime>(groups),
    ensures
        well_grouped::<StopTime>(in_sequence(groups)),
        all_in_sequence(in_sequence(groups)),
{
    broadcast use vstd::seq_lib::group_to_multiset_ensures;

    let after = in_sequence(groups);
    assert forall|i: int| 0 <= i < after.len() implies ascending::<StopTime>(
        (#[trigger] after[i]).items,
    ) && after[i].items.len() > 0 by {
        lemma_stable_sort::<StopTime>(groups[i].items);
    }
    assert forall|i: int, k: int|
        0 <= i < after.len() && 0 <= k < after[i].items.len() implies StopTime::key_of(
        #[trigger] after[i].items[k],
    ) == after[i].key && StopTime::sound(after[i].items[k]) by {
        lemma_stable_sort::<StopTime>(groups[i].items);
        let item = after[i].items[k];
        assert(after[i].items.contains(item));
        assert(after[i].items.to_multiset().count(item) > 0);
        assert(groups[i].items.contains(item));
        let k0 = choose|k0: int| 0 <= k0 < groups[i].items.len() && groups[i].items[k0] == item;
        assert(StopTime::key_of(groups[i].items[k0]) == groups[i].key);
    }
    assert forall|i: int, j: int| 0 <= i < j < after.len() implies (#[trigger] after[i]).key != (
    #[trigger] after[j]).key by {
        assert(groups[i].key != groups[j].key);
    }
}

/// Every feed that sources hold is well formed.
pub proof fn lemma_feed_of_well_formed(s: Sources)
    requires
        feed_of(s) is Ok,
    ensures
        well_formed(feed_of(s)->Ok_0),
{
    let agency = s.agency->Ok_0;
    let stops = s.stops->Ok_0;
    let routes = s.routes->Ok_0;
    let trips = s.trips->Ok_0;
    let stop_times = s.stop_times->Ok_0;
    let calendar = s.calendar->Ok_0;
    let calendar_dates = s.calendar_dates->Ok_0;
    lemma_records_upto::<Agency>(bound_columns::<Agency>(agency[0])->Ok_0, agency, agency.len() as int);
    lemma_records_upto::<Stop>(bound_columns::<Stop>(stops[0])->Ok_0, stops, stops.len() as int);
    lemma_records_upto::<Route>(bound_columns::<Route>(routes[0])->Ok_0, routes, routes.len() as int);
    lemma_records_upto::<Trip>(bound_columns::<Trip>(trips[0])->Ok_0, trips, trips.len() as int);
    lemma_records_upto::<Calendar>(
        bound_columns::<Calendar>(calendar[0])->Ok_0,
        calendar,
        calendar.len() as int,
    );
    lemma_groups_upto_well_grouped::<StopTime>(
        bound_columns::<StopTime>(stop_times[0])->Ok_0,
        stop_times,
        stop_times.len() as int,
    );
    lemma_groups_upto_well_grouped::<CalendarDate>(
        bound_columns::<CalendarDate>(calendar_dates[0])->Ok_0,
        calendar_dates,
        calendar_dates.len() as int,
    );
    lemma_in_sequence(grouped_table::<StopTime>(stop_times)->Ok_0);
}

/// In a feed, the calls of every trip are in the order of their sequence
/// numbers: a later call has no lower number than an earlier one, and a
/// higher one where no two calls of the trip share a number.
pub proof fn lemma_calls_in_sequence(v: FeedView, g: int)
    requires
        well_formed(v),
        0 <= g < v.stop_times.len(),
    ensures
        forall|i: int, j: int|
            0 <= i <= j < v.stop_times[g].items.len() ==> (#[trigger] v.stop_times[g].items[i]).sequence
                <= (#[trigger] v.stop_times[g].items[j]).sequence,
        (forall|i: int, j: int|
            0 <= i < j < v.stop_times[g].items.len() ==> (#[trigger] v.stop_times[g].items[i]).sequence
                != (#[trigger] v.stop_times[g].items[j]).sequence) ==> forall|i: int, j: int|
            0 <= i < j < v.stop_times[g].items.len() ==> (#[trigger] v.stop_times[g].items[i]).sequence
                < (#[trigger] v.stop_times[g].items[j]).sequence,
{
    let calls = v.stop_times[g].items;
    assert(ascending::<StopTime>(calls));
    assert forall|i: int, j: int| 0 <= i <= j < calls.len() implies (#[trigger] calls[i]).sequence <= (
    #[trigger] calls[j]).sequence by {
        assert(StopTime::rank(calls[i]) <= StopTime::rank(calls[j]));
    }
}

/// Two loads of the same sources give feeds that hold the same.
pub proof fn lemma_same_sources_same_feed(s: Sources, a: Feed, b: Feed)
    requires
        feed_of(s) == Ok::<FeedView, LoadError>(a@),
        feed_of(s) == Ok::<FeedView, LoadError>(b@),
    ensures
        a@ == b@,
{
}

/// Where neither the agencies nor the routes have a column for the key of
/// the agency, a feed has at most one agency, keyed `_`, and every route is
/// a route of that key: with the one agency there, every route is run by an
/// agency of the feed.
pub proof fn lemma_sole_agency(s: Sources)
    requires
        feed_of(s) is Ok,
        s.agency is Ok,
        s.routes is Ok,
        column_of(s.agency->Ok_0[0], "agency_id"@) is None,
        column_of(s.routes->Ok_0[0], "agency_id"@) is None,
    ensures
        feed_of(s)->Ok_0.agencies.len() <= 1,
        forall|i: int|
            0 <= i < feed_of(s)->Ok_0.agencies.len() ==> (#[trigger] feed_of(s)->Ok_0.agencies[i]).id
                == "_"@,
        forall|i: int|
            0 <= i < feed_of(s)->Ok_0.routes.len() ==> (
            #[trigger] feed_of(s)->Ok_0.routes[i]).agency_id == "_"@,
        feed_of(s)->Ok_0.agencies.len() == 1 ==> forall|i: int|
            0 <= i < feed_of(s)->Ok_0.routes.len() ==> has_key::<Agency>(
                feed_of(s)->Ok_0.agencies,
                (#[trigger] feed_of(s)->Ok_0.routes[i]).agency_id,
            ),
{
    let v = feed_of(s)->Ok_0;
    let agency = s.agency->Ok_0;
    let routes = s.routes->Ok_0;
    assert(unique_table::<Agency>(agency) is Ok);
    assert(unique_table::<Route>(routes) is Ok);
    let ac = bound_columns::<Agency>(agency[0])->Ok_0;
    let rc = bound_columns::<Route>(routes[0])->Ok_0;
    assert(Agency::optional_columns()[0] == "agency_id"@);
    assert(Route::optional_columns()[0] == "agency_id"@);
    assert(ac.optional[0] is None);
    assert(rc.optional[0] is None);
    lemma_records_upto::<Agency>(ac, agency, agency.len() as int);
    lemma_records_upto::<Route>(rc, routes, routes.len() as int);
    assert forall|i: int| 0 <= i < v.agencies.len() implies (#[trigger] v.agencies[i]).id == "_"@ by {
        assert(Agency::of_row(ac, agency[i + 1]) == Ok::<AgencyView, RowFault>(v.agencies[i]));
    }
    assert forall|i: int| 0 <= i < v.routes.len() implies (#[trigger] v.routes[i]).agency_id == "_"@ by {
        assert(Route::of_row(rc, routes[i + 1]) == Ok::<RouteView, RowFault>(v.routes[i]));
    }
    if v.agencies.len() > 1 {
        assert(Agency::key_of(v.agencies[0]) != Agency::key_of(v.agencies[1]));
    }
    if v.agencies.len() == 1 {
        assert forall|i: int| 0 <= i < v.routes.len() implies has_key::<Agency>(
            v.agencies,
            (#[trigger] v.routes[i]).agency_id,
        ) by {
            assert(Agency::key_of(v.agencies[0]) == v.routes[i].agency_id);
        }
    }
}

/// Puts the calls of each trip in ascending order of sequence.
fn put_in_sequence(groups: &mut Vec<Group<StopTime>>)
    ensures
        final(groups).deep_view() == in_sequence(old(groups).deep_view()),
{
    let ghost before = groups.deep_view();
    let n: usize = groups.len();
    let mut i: usize = 0;
    while i < n
        invariant
            i <= n == groups.len(),
            before.len() == n,
            forall|j: int|
                0 <= j < i ==> (#[trigger] groups.deep_view()[j]) == in_sequence(before)[j],
            forall|j: int| i <= j < n ==> (#[trigger] groups.deep_view()[j]) == before[j],
        decreases n - i,
    {
        let ghost now = groups.deep_view();
        assert(now[i as int] == groups@[i as int].deep_view());
        sort_ranked::<StopTime>(&mut groups[i].items);
        proof {
            let next = groups.deep_view();
            assert(next[i as int] == groups@[i as int].deep_view());
            assert forall|j: int| 0 <= j < n && j != i implies #[trigger] next[j] == now[j] by {
                assert(next[j] == groups@[j].deep_view());
            }
        }
        i = i + 1;
    }
    assert(groups.deep_view() =~= in_sequence(before));
}

/// A feed, loaded and from then on unchanged.
#[derive(Debug, PartialEq, Eq)]
pub struct Feed {
    agencies: Vec<Agency>,
    stops: Vec<Stop>,
    routes: Vec<Route>,
    trips: Vec<Trip>,
    stop_times: Vec<Group<StopTime>>,
    calendars: Vec<Calendar>,
    calendar_dates: Vec<Group<CalendarDate>>,
}

impl View for Feed {
    type V = FeedView;

    closed spec fn view(&self) -> FeedView {
        FeedView {
            agencies: self.agencies.deep_view(),
            stops: self.stops.deep_view(),
            routes: self.routes.deep_view(),
            trips: self.trips.deep_view(),
            stop_times: self.stop_times.deep_view(),
            calendars: self.calendars.deep_view(),
            calendar_dates: self.calendar_dates.deep_view(),
        }
    }
}

impl Feed {
    #[verifier::type_invariant]
    closed spec fn sound(&self) -> bool {
        well_formed(self@)
    }

    /// Recalls that every feed is well formed. It does nothing when run.
    pub fn well_formedness(&self)
        ensures
            well_formed(self@),
    {
        proof {
            use_type_invariant(self);
        }
    }

    /// The agencies.
    pub fn agencies(&self) -> (r: &Vec<Agency>)
        ensures
            r.deep_view() == self@.agencies,
    {
        &self.agencies
    }

    /// The stops.
    pub fn stops(&self) -> (r: &Vec<Stop>)
        ensures
            r.deep_view() == self@.stops,
    {
        &self.stops
    }

    /// The routes.
    pub fn routes(&self) -> (r: &Vec<Route>)
        ensures
            r.deep_view() == self@.routes,
    {
        &self.routes
    }

    /// The trips.
    pub fn trips(&self) -> (r: &Vec<Trip>)
        ensures
            r.deep_view() == self@.trips,
    {
        &self.trips
    }

    /// The calls, gathered by trip.
    pub fn stop_times(&self) -> (r: &Vec<Group<StopTime>>)
        ensures
            r.deep_view() == self@.stop_times,
    {
        &self.stop_times
    }

    /// The weekly patterns of the services.
    pub fn calendars(&self) -> (r: &Vec<Calendar>)
        ensures
            r.deep_view() == self@.calendars,
    {
        &self.calendars
    }

    /// The dated exceptions, gathered by service.
    pub fn calendar_dates(&self) -> (r: &Vec<Group<CalendarDate>>)
        ensures
            r.deep_view() == self@.calendar_dates,
    {
        &self.calendar_dates
    }
}

/// Loads a feed from the tables of its files.
pub fn load_tables(tables: &Tables) -> (r: Result<Feed, LoadError>)
    ensures
        match r {
            Ok(feed) => feed_of(tables.sources()) == Ok::<FeedView, LoadError>(feed@)
                && well_formed(feed@),
            Err(e) => feed_of(tables.sources()) == Err::<FeedView, LoadError>(e),
        },
{
    let agencies = load_unique::<Agency>(&tables.agency)?;
    let stops = load_unique::<Stop>(&tables.stops)?;
    let routes = load_unique::<Route>(&tables.routes)?;
    let trips = load_unique::<Trip>(&tables.trips)?;
    let mut stop_times = load_grouped::<StopTime>(&tables.stop_times)?;
    proof {
        lemma_in_sequence(stop_times.deep_view());
    }
    put_in_sequence(&mut stop_times);
    let calendars = load_unique::<Calendar>(&tables.calendar)?;
    let calendar_dates = load_grouped::<CalendarDate>(&tables.calendar_dates)?;
    Ok(Feed { agencies, stops, routes, trips, stop_times, calendars, calendar_dates })
}

/// Loads a feed from the texts of its files. The seven files are read in
/// their order, each when its turn comes: the first fault ends the load, and
/// a fault in one file comes before a later file that is not there.
pub fn gtfs_load(files: &FeedFiles) -> (r: Result<Feed, LoadError>)
    ensures
        match r {
            Ok(feed) => feed_of(files.sources()) == Ok::<FeedView, LoadError>(feed@)
                && well_formed(feed@),
            Err(e) => feed_of(files.sources()) == Err::<FeedView, LoadError>(e),
        },
{
    let agencies = {
        let table = read_table(FileKind::Agency, &files.agency)?;
        load_unique::<Agency>(&table)?
    };
    let stops = {
        let table = read_table(FileKind::Stops, &files.stops)?;
        load_unique::<Stop>(&table)?
    };
    let routes = {
        let table = read_table(FileKind::Routes, &files.routes)?;
        load_unique::<Route>(&table)?
    };
    let trips = {
        let table = read_table(FileKind::Trips, &files.trips)?;
        load_unique::<Trip>(&table)?
    };
    let mut stop_times = {
        let table = read_table(FileKind::StopTimes, &files.stop_times)?;
        load_grouped::<StopTime>(&table)?
    };
    proof {
        lemma_in_sequence(stop_times.deep_view());
    }
    put_in_sequence(&mut stop_times);
    let calendars = {
        let table = read_table(FileKind::Calendar, &files.calendar)?;
        load_unique::<Calendar>(&table)?
    };
    let calendar_dates = {
        let table = read_table(FileKind::CalendarDates, &files.calendar_dates)?;
        load_grouped::<CalendarDate>(&table)?
    };
    Ok(Feed { agencies, stops, routes, trips, stop_times, calendars, calendar_dates })
}

} // verus!
