//! The events of a service day: which trips of an agency run on the day,
//! and the stream of their starts, arrivals and ends in the order of time.

use crate::feed::{well_formed, Feed, FeedView};
use crate::model::{Date, StopTime, StopTimeView, Trip, TripView, Weekday};
use crate::seqs::{lemma_filter_from, lemma_filter_has, lemma_filter_next};
use crate::table::{lemma_first_where_group, well_grouped};
use crate::sort::{ascending, lemma_stable_sort, sort_ranked, stable_sort, Ranked};
use crate::text::{contains_text, is_text};
use vstd::prelude::*;

verus! {

/// What happens on a service day.
#[derive(Debug, PartialEq, Eq)]
pub enum Event {
    /// The stream opens: so many services run on the day, and so many trips
    /// of the agency.
    StartEvents(usize, usize),
    /// The stream closes.
    EndEvents,
    /// A trip starts at this time.
    StartTrip(u64, Trip),
    /// A trip ends at this time.
    EndTrip(u64, Trip),
    /// A trip arrives at a stop at this time.
    StopArrival(u64, Trip, StopTime),
}

/// What an [`Event`] holds, as mathematical values.
pub enum EventView {
    StartEvents(usize, usize),
    EndEvents,
    StartTrip(u64, TripView),
    EndTrip(u64, TripView),
    StopArrival(u64, TripView, StopTimeView),
}

impl DeepView for Event {
    type V = EventView;

    open spec fn deep_view(&self) -> EventView {
        match self {
            Event::StartEvents(services, trips) => EventView::StartEvents(*services, *trips),
            Event::EndEvents => EventView::EndEvents,
            Event::StartTrip(time, trip) => EventView::StartTrip(*time, trip@),
            Event::EndTrip(time, trip) => EventView::EndTrip(*time, trip@),
            Event::StopArrival(time, trip, call) => EventView::StopArrival(*time, trip@, call@),
        }
    }
}

/// Why the events of a day could not be told.
#[derive(Clone, Copy, Debug, PartialEq, Eq, Structural)]
pub enum ScheduleError {
    /// A trip of the day names a route that the feed does not have.
    UnknownRoute,
    /// A trip of the agency has no calls.
    NoStopTimes,
    /// The calls of a trip of the agency, in their sequence, go back in
    /// time.
    ArrivalsOutOfOrder,
}

/// A trip that runs on the day, with its calls and the time of the first.
#[derive(Debug)]
pub struct Run<'a> {
    pub trip: &'a Trip,
    pub first_arrival: u64,
    pub calls: &'a Vec<StopTime>,
}

/// What a [`Run`] holds, as mathematical values.
pub struct RunView {
    pub trip: TripView,
    pub first_arrival: u64,
    pub calls: Seq<StopTimeView>,
}

impl<'a> DeepView for Run<'a> {
    type V = RunView;

    open spec fn deep_view(&self) -> RunView {
        RunView {
            trip: self.trip@,
            first_arrival: self.first_arrival,
            calls: self.calls.deep_view(),
        }
    }
}

impl<'a> Ranked for Run<'a> {
    open spec fn rank(v: RunView) -> int {
        v.first_arrival as int
    }

    fn rank_value(&self) -> (r: u64) {
        self.first_arrival
    }
}

/// Whether the arrival times of `calls` never fall.
pub open spec fn arrivals_ascend(calls: Seq<StopTimeView>) -> bool {
    forall|i: int, j: int|
        0 <= i <= j < calls.len() ==> (#[trigger] calls[i]).arrival_time <= (
        #[trigger] calls[j]).arrival_time
}

impl RunView {
    /// The shape of a run: it has calls, whose arrival times never fall, and
    /// it starts when the first call arrives.
    pub open spec fn well_formed(self) -> bool {
        &&& self.calls.len() > 0
        &&& self.first_arrival == self.calls[0].arrival_time
        &&& arrivals_ascend(self.calls)
    }
}

/// The shape of a roster: every run is well formed, and the first arrivals
/// never fall.
pub open spec fn well_rostered(roster: Seq<RunView>) -> bool {
    &&& forall|i: int| 0 <= i < roster.len() ==> (#[trigger] roster[i]).well_formed()
    &&& ascending::<Run>(roster)
}

/// Whether a trip runs on `date`, a `day`.
pub open spec fn in_service(v: FeedView, day: Weekday, date: Date) -> spec_fn(TripView) -> bool {
    |t: TripView| v.runs(t.service_id, day, date)
}

/// Whether a trip runs on `date`, a `day`, on a route of the agency
/// `agency`.
pub open spec fn selected(v: FeedView, agency: Seq<char>, day: Weekday, date: Date) -> spec_fn(
    TripView,
) -> bool {
    |t: TripView|
        v.runs(t.service_id, day, date) && match v.route(t.route_id) {
            Some(r) => r.agency_id == agency,
            None => false,
        }
}

/// The run of a trip.
pub open spec fn run_of(v: FeedView) -> spec_fn(TripView) -> RunView {
    |t: TripView|
        RunView {
            trip: t,
            first_arrival: v.calls(t.id)->0[0].arrival_time,
            calls: v.calls(t.id)->0,
        }
}

impl FeedView {
    /// The trips that run on `date`, a `day`, in the order of the feed.
    pub open spec fn day_trips(self, day: Weekday, date: Date) -> Seq<TripView> {
        self.trips.filter(in_service(self, day, date))
    }

    /// The trips of the agency `agency` that run on `date`, a `day`, in the
    /// order of the feed.
    pub open spec fn agency_trips(self, agency: Seq<char>, day: Weekday, date: Date) -> Seq<TripView> {
        self.trips.filter(selected(self, agency, day, date))
    }

    /// The runs of the agency's trips of the day, in the order of their
    /// first arrivals; runs that start together are in the order of the
    /// feed.
    pub open spec fn roster(self, agency: Seq<char>, day: Weekday, date: Date) -> Seq<RunView> {
        stable_sort::<Run>(self.agency_trips(agency, day, date).map_values(run_of(self)))
    }

    /// Why the roster of the day cannot be made, where it cannot: a trip of
    /// the day is on no route of the feed; or else a trip of the agency has
    /// no calls; or else the calls of one go back in time.
    pub open spec fn roster_fault(self, agency: Seq<char>, day: Weekday, date: Date) -> Option<
        ScheduleError,
    > {
        let day_trips = self.day_trips(day, date);
        let trips = self.agency_trips(agency, day, date);
        if exists|i: int| 0 <= i < day_trips.len() && self.route(#[trigger] day_trips[i].route_id) is None {
            Some(ScheduleError::UnknownRoute)
        } else if exists|i: int| 0 <= i < trips.len() && self.calls(#[trigger] trips[i].id) is None {
            Some(ScheduleError::NoStopTimes)
        } else if exists|i: int|
            0 <= i < trips.len() && !arrivals_ascend(self.calls(#[trigger] trips[i].id)->0) {
            Some(ScheduleError::ArrivalsOutOfOrder)
        } else {
            None
        }
    }
}

/// Where the roster of a day can be made, every run of it has calls,
/// whose arrival times never fall, and the runs are in the order of their
/// first arrivals.
pub proof fn lemma_roster_well_formed(v: FeedView, agency: Seq<char>, day: Weekday, date: Date)
    requires
        well_formed(v),
        v.roster_fault(agency, day, date) is None,
    ensures
        well_rostered(v.roster(agency, day, date)),
{
    let trips = v.agency_trips(agency, day, date);
    let runs = trips.map_values(run_of(v));
    let roster = v.roster(agency, day, date);
    lemma_stable_sort::<Run>(runs);
    assert forall|i: int| 0 <= i < roster.len() implies (#[trigger] roster[i]).well_formed() by {
        assert(runs.contains(roster[i]));
        let j = choose|j: int| 0 <= j < runs.len() && runs[j] == roster[i];
        assert(runs[j] == run_of(v)(trips[j]));
        assert(v.calls(trips[j].id) is Some);
        assert(arrivals_ascend(v.calls(trips[j].id)->0));
        lemma_first_where_group(v.stop_times, trips[j].id);
    }
}

/// Whether the arrival times of `calls` never fall.
pub fn arrivals_in_order(calls: &Vec<StopTime>) -> (r: bool)
    ensures
        r == arrivals_ascend(calls.deep_view()),
{
    let ghost views = calls.deep_view();
    if calls.len() == 0 {
        return true;
    }
    let mut i: usize = 1;
    while i < calls.len()
        invariant
            1 <= i <= calls.len(),
            views == calls.deep_view(),
            forall|a: int, b: int|
                0 <= a <= b < i ==> (#[trigger] views[a]).arrival_time <= (
                #[trigger] views[b]).arrival_time,
        decreases calls.len() - i,
    {
        assert(views[i - 1] == calls@[i - 1].deep_view());
        assert(views[i as int] == calls@[i as int].deep_view());
        if calls[i - 1].arrival_time > calls[i].arrival_time {
            return false;
        }
        assert forall|a: int, b: int| 0 <= a <= b < i + 1 implies (#[trigger] views[a]).arrival_time
            <= (#[trigger] views[b]).arrival_time by {
            if b == i && a < i {
                assert(views[a].arrival_time <= views[i - 1].arrival_time);
            }
        }
        i = i + 1;
    }
    true
}

/// The trips of the agency `agency_id` that run on one of `services`, in
/// the order of the feed; or nothing, where a trip that runs on one of them
/// names a route that the feed does not have.
fn pick_trips<'a>(
    feed: &'a Feed,
    services: &Vec<String>,
    agency_id: &str,
    Ghost(day): Ghost<Weekday>,
    Ghost(date): Ghost<Date>,
) -> (r: Option<Vec<&'a Trip>>)
    requires
        forall|service: Seq<char>|
            #[trigger] services.deep_view().contains(service) <==> feed@.runs(service, day, date),
    ensures
        match r {
            Some(trips) => {
                &&& trips.deep_view() == feed@.agency_trips(agency_id@, day, date)
                &&& forall|i: int|
                    0 <= i < feed@.day_trips(day, date).len() ==> feed@.route(
                        (#[trigger] feed@.day_trips(day, date)[i]).route_id,
                    ) is Some
            },
            None => exists|i: int|
                0 <= i < feed@.day_trips(day, date).len() && feed@.route(
                    (#[trigger] feed@.day_trips(day, date)[i]).route_id,
                ) is None,
        },
{
    let trips = feed.trips();
    let ghost views = trips.deep_view();
    let ghost wanted = selected(feed@, agency_id@, day, date);
    let ghost running = in_service(feed@, day, date);
    let mut out: Vec<&'a Trip> = Vec::new();
    let mut i: usize = 0;
    proof {
        reveal(Seq::filter);
        assert(views.take(0).filter(wanted) =~= Seq::<TripView>::empty());
    }
    while i < trips.len()
        invariant
            i <= trips.len(),
            views == trips.deep_view(),
            views == feed@.trips,
            wanted == selected(feed@, agency_id@, day, date),
            running == in_service(feed@, day, date),
            forall|service: Seq<char>|
                #[trigger] services.deep_view().contains(service) <==> feed@.runs(service, day, date),
            out.deep_view() =~= views.take(i as int).filter(wanted),
            forall|j: int| 0 <= j < i && running(views[j]) ==> feed@.route(
                (#[trigger] views[j]).route_id,
            ) is Some,
        decreases trips.len() - i,
    {
        let trip = &trips[i];
        proof {
            assert(views[i as int] == trips@[i as int].deep_view());
            lemma_filter_next(views, wanted, i as int);
        }
        if contains_text(services, trip.service_id.as_str()) {
            match feed.find_route(trip.route_id.as_str()) {
                Some(route) => {
                    if is_text(route.agency_id.as_str(), agency_id) {
                        out.push(trip);
                    }
                },
                None => {
                    proof {
                        lemma_filter_has(views, running, i as int);
                        let picked = feed@.day_trips(day, date);
                        let k = choose|k: int| 0 <= k < picked.len() && picked[k] == views[i as int];
                        assert(feed@.route(picked[k].route_id) is None);
                    }
                    return None;
                },
            }
        }
        i = i + 1;
    }
    proof {
        assert(views.take(trips.len() as int) =~= views);
        let picked = feed@.day_trips(day, date);
        assert forall|k: int| 0 <= k < picked.len() implies feed@.route(
            (#[trigger] picked[k]).route_id,
        ) is Some by {
            lemma_filter_from(views, running, k);
            let j = choose|j: int| 0 <= j < views.len() && views[j] == picked[k];
            assert(running(views[j]));
        }
    }
    Some(out)
}

/// The runs of `trips`, in their order; or why there are none: a trip has
/// no calls, or else the calls of one go back in time.
fn runs_of<'a>(feed: &'a Feed, trips: &Vec<&'a Trip>) -> (r: Result<Vec<Run<'a>>, ScheduleError>)
    ensures
        match r {
            Ok(runs) => {
                &&& runs.deep_view() == trips.deep_view().map_values(run_of(feed@))
                &&& forall|i: int|
                    0 <= i < trips.len() ==> feed@.calls((#[trigger] trips.deep_view()[i]).id) is Some
                        && arrivals_ascend(feed@.calls(trips.deep_view()[i].id)->0)
                &&& forall|i: int| 0 <= i < runs.len() ==> (#[trigger] runs.deep_view()[i]).well_formed()
            },
            Err(e) => if exists|i: int|
                0 <= i < trips.len() && feed@.calls((#[trigger] trips.deep_view()[i]).id) is None {
                e == ScheduleError::NoStopTimes
            } else {
                e == ScheduleError::ArrivalsOutOfOrder && exists|i: int|
                    0 <= i < trips.len() && !arrivals_ascend(
                        feed@.calls((#[trigger] trips.deep_view()[i]).id)->0,
                    )
            },
        },
{
    feed.well_formedness();
    let ghost views = trips.deep_view();
    let ghost make = run_of(feed@);
    let mut out: Vec<Run<'a>> = Vec::new();
    let mut ordered: bool = true;
    let mut k: usize = 0;
    while k < trips.len()
        invariant
            k <= trips.len(),
            views == trips.deep_view(),
            make == run_of(feed@),
            well_grouped::<StopTime>(feed@.stop_times),
            out.deep_view() =~= views.take(k as int).map_values(make),
            forall|j: int| 0 <= j < k ==> feed@.calls((#[trigger] views[j]).id) is Some,
            ordered <==> forall|j: int|
                0 <= j < k ==> arrivals_ascend(feed@.calls((#[trigger] views[j]).id)->0),
            forall|j: int|
                0 <= j < k ==> (#[trigger] out.deep_view()[j]).calls.len() > 0 && out.deep_view()[j].first_arrival
                    == out.deep_view()[j].calls[0].arrival_time,
        decreases trips.len() - k,
    {
        let trip: &'a Trip = trips[k];
        let ghost before = out.deep_view();
        proof {
            assert(views[k as int] == trips@[k as int].deep_view());
            lemma_first_where_group(feed@.stop_times, trip.id@);
        }
        match feed.find_stop_times(trip.id.as_str()) {
            None => {
                return Err(ScheduleError::NoStopTimes);
            },
            Some(calls) => {
                assert(calls.len() > 0);
                if !arrivals_in_order(calls) {
                    ordered = false;
                }
                assert(calls.deep_view()[0] == calls@[0].deep_view());
                let run = Run { trip, first_arrival: calls[0].arrival_time, calls };
                assert(run.deep_view() == make(views[k as int]));
                out.push(run);
                assert(out.deep_view() =~= before.push(make(views[k as int])));
                assert(views.take(k + 1).map_values(make) =~= views.take(k as int).map_values(
                    make,
                ).push(make(views[k as int])));
            },
        }
        k = k + 1;
    }
    assert(views.take(trips.len() as int) =~= views);
    if !ordered {
        return Err(ScheduleError::ArrivalsOutOfOrder);
    }
    proof {
        assert forall|i: int| 0 <= i < out.len() implies (#[trigger] out.deep_view()[i]).well_formed() by {
            assert(out.deep_view()[i] == make(views[i]));
        }
    }
    Ok(out)
}

/// The roster of a day: how many services run on `date`, a `day`, and the
/// runs of the trips of the agency `agency_id` among theirs, in the order of
/// their first arrivals.
pub fn day_roster<'a>(feed: &'a Feed, agency_id: &str, day: Weekday, date: Date) -> (r: Result<
    (usize, Vec<Run<'a>>),
    ScheduleError,
>)
    ensures
        match r {
            Ok((services, roster)) => {
                &&& feed@.roster_fault(agency_id@, day, date) is None
                &&& services == feed@.services_on(day, date).len()
                &&& roster.deep_view() == feed@.roster(agency_id@, day, date)
                &&& well_rostered(roster.deep_view())
            },
            Err(e) => feed@.roster_fault(agency_id@, day, date) == Some(e),
        },
{
    let services = feed.active_service_ids(day, date);
    let trips = match pick_trips(feed, &services, agency_id, Ghost(day), Ghost(date)) {
        Some(trips) => trips,
        None => {
            return Err(ScheduleError::UnknownRoute);
        },
    };
    let mut roster = match runs_of(feed, &trips) {
        Ok(runs) => runs,
        Err(e) => {
            return Err(e);
        },
    };
    proof {
        lemma_stable_sort::<Run>(roster.deep_view());
        let before = roster.deep_view();
        let after = stable_sort::<Run>(before);
        assert forall|i: int| 0 <= i < after.len() implies (#[trigger] after[i]).well_formed() by {
            assert(before.contains(after[i]));
        }
    }
    sort_ranked::<Run>(&mut roster);
    Ok((services.len(), roster))
}

} // verus!
