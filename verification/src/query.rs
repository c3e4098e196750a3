//! What a feed answers: records by their keys, the routes and stops of an
//! agency, the services that run on a day and their trips, and the box that
//! holds a set of stops.

use crate::feed::{Feed, FeedView};
use crate::model::{
    Agency, AgencyView, Calendar, CalendarDate, CalendarDateView, CalendarView, Date, Exception,
    Route, RouteView, Stop, StopTime, StopTimeView, StopView, Trip, TripView, Weekday,
};
use crate::seqs::{
    lemma_filter_agree, lemma_filter_map_agree, lemma_filter_next, lemma_first_where,
    lemma_first_where_agree,
};
use crate::table::{
    find, find_group, group_of, grouped_under, lemma_keyed_group, lemma_keyed_record,
    lemma_position, lookup_list, position, record, well_grouped, well_keyed, GroupView, Record,
};
use crate::text::{contains_text, is_text};
use vstd::prelude::*;

verus! {

/// The part of a feed's shape that the services rest on.
pub open spec fn well_formed_calendar(v: FeedView) -> bool {
    well_keyed::<Calendar>(v.calendars) && well_grouped::<CalendarDate>(v.calendar_dates)
}

impl FeedView {
    /// The agency with the key `id`.
    pub open spec fn agency(self, id: Seq<char>) -> Option<AgencyView> {
        record::<Agency>(self.agencies, id)
    }

    /// The stop with the key `id`.
    pub open spec fn stop(self, id: Seq<char>) -> Option<StopView> {
        record::<Stop>(self.stops, id)
    }

    /// The route with the key `id`.
    pub open spec fn route(self, id: Seq<char>) -> Option<RouteView> {
        record::<Route>(self.routes, id)
    }

    /// The trip with the key `id`.
    pub open spec fn trip(self, id: Seq<char>) -> Option<TripView> {
        record::<Trip>(self.trips, id)
    }

    /// The calls of the trip with the key `id`, in ascending order of
    /// sequence.
    pub open spec fn calls(self, id: Seq<char>) -> Option<Seq<StopTimeView>> {
        match group_of(self.stop_times, id) {
            Some(i) => Some(self.stop_times[i].items),
            None => None,
        }
    }
}

/// Whether a route is run by the agency `agency`.
pub open spec fn run_by(agency: Seq<char>) -> spec_fn(RouteView) -> bool {
    |r: RouteView| r.agency_id == agency
}

/// Whether a trip runs on one of `services`.
pub open spec fn runs_on(services: Seq<Seq<char>>) -> spec_fn(TripView) -> bool {
    |t: TripView| services.contains(t.service_id)
}

/// The key of a trip.
pub open spec fn trip_id() -> spec_fn(TripView) -> Seq<char> {
    |t: TripView| t.id
}

/// What the exceptions `dates` say of the day `date`: what the last of them
/// that is dated so does, where there is one.
pub open spec fn verdict(dates: Seq<CalendarDateView>, date: Date) -> Option<Exception>
    decreases dates.len(),
{
    if dates.len() == 0 {
        None
    } else if dates.last().date == date {
        Some(dates.last().exception_type)
    } else {
        verdict(dates.drop_last(), date)
    }
}

/// Whether a weekly pattern has the weekday `day`, and no exception of its
/// service removes the day `date`.
pub open spec fn pattern_runs(v: FeedView, day: Weekday, date: Date) -> spec_fn(CalendarView) -> bool {
    |c: CalendarView| c.weekdays.has(day) && v.excepted(c.service_id, date) != Some(Exception::Removed)
}

/// Whether the exceptions of a service add the day `date`, while no weekly
/// pattern of the service has the weekday `day`.
pub open spec fn only_added(v: FeedView, day: Weekday, date: Date) -> spec_fn(
    GroupView<CalendarDateView>,
) -> bool {
    |g: GroupView<CalendarDateView>|
        verdict(g.items, date) == Some(Exception::Added) && !v.scheduled(g.key, day)
}

/// The service of a weekly pattern.
pub open spec fn service_id() -> spec_fn(CalendarView) -> Seq<char> {
    |c: CalendarView| c.service_id
}

/// The service of a group of exceptions.
pub open spec fn group_key() -> spec_fn(GroupView<CalendarDateView>) -> Seq<char> {
    |g: GroupView<CalendarDateView>| g.key
}

impl FeedView {
    /// The services that run on `date`, a `day`: first those with a weekly
    /// pattern that has the weekday, but for those that an exception
    /// removes, in the order of the feed; then those that only an exception
    /// adds, in the order of the feed.
    pub open spec fn services_on(self, day: Weekday, date: Date) -> Seq<Seq<char>> {
        self.calendars.filter(pattern_runs(self, day, date)).map_values(service_id())
            + self.calendar_dates.filter(only_added(self, day, date)).map_values(group_key())
    }

    /// The routes that the agency `agency` runs, in the order of the feed.
    pub open spec fn routes_of(self, agency: Seq<char>) -> Seq<RouteView> {
        self.routes.filter(run_by(agency))
    }

    /// The keys of the trips that run on one of `services`, in the order of
    /// the feed.
    pub open spec fn trips_on(self, services: Seq<Seq<char>>) -> Seq<Seq<char>> {
        self.trips.filter(runs_on(services)).map_values(trip_id())
    }

    /// Whether the weekly pattern of `service` has the weekday `day`. The
    /// first and last dates of the pattern are not consulted.
    pub open spec fn scheduled(self, service: Seq<char>, day: Weekday) -> bool {
        match record::<Calendar>(self.calendars, service) {
            Some(c) => c.weekdays.has(day),
            None => false,
        }
    }

    /// What the exceptions of `service` say of the day `date`.
    pub open spec fn excepted(self, service: Seq<char>, date: Date) -> Option<Exception> {
        match group_of(self.calendar_dates, service) {
            Some(i) => verdict(self.calendar_dates[i].items, date),
            None => None,
        }
    }

    /// Whether `service` runs on `date`, a `day`: where its exceptions speak
    /// of the date, the last of them decides; where they do not, its weekly
    /// pattern does.
    pub open spec fn runs(self, service: Seq<char>, day: Weekday, date: Date) -> bool {
        match self.excepted(service, date) {
            Some(Exception::Added) => true,
            Some(Exception::Removed) => false,
            None => self.scheduled(service, day),
        }
    }
}

/// An exception written twice in a row says what it says written once.
pub proof fn lemma_verdict_repeated(dates: Seq<CalendarDateView>, i: int, date: Date)
    requires
        0 <= i < dates.len(),
    ensures
        verdict(dates.insert(i + 1, dates[i]), date) == verdict(dates, date),
    decreases dates.len(),
{
    let twice = dates.insert(i + 1, dates[i]);
    if i + 1 == dates.len() {
        assert(twice.drop_last() =~= dates);
        assert(twice.last() == dates.last());
    } else {
        assert(twice.last() == dates.last());
        assert(twice.drop_last() =~= dates.drop_last().insert(i + 1, dates.drop_last()[i]));
        lemma_verdict_repeated(dates.drop_last(), i, date);
    }
}

/// An exception that adds a day and a later one that removes it leave the
/// day removed, whatever stands before them.
pub proof fn lemma_verdict_added_then_removed(
    dates: Seq<CalendarDateView>,
    service: Seq<char>,
    date: Date,
)
    ensures
        verdict(
            dates.push(
                CalendarDateView { service_id: service, date, exception_type: Exception::Added },
            ).push(
                CalendarDateView { service_id: service, date, exception_type: Exception::Removed },
            ),
            date,
        ) == Some(Exception::Removed),
{
}

/// The feed `v` with the `i`-th exception of its `g`-th group written twice
/// in a row.
pub open spec fn with_repeated(v: FeedView, g: int, i: int) -> FeedView {
    FeedView {
        calendar_dates: v.calendar_dates.update(
            g,
            GroupView {
                key: v.calendar_dates[g].key,
                items: v.calendar_dates[g].items.insert(i + 1, v.calendar_dates[g].items[i]),
            },
        ),
        ..v
    }
}

/// The services that run on a day stay the same where an exception is
/// written twice in a row.
pub proof fn lemma_repeated_exception(v: FeedView, g: int, i: int, day: Weekday, date: Date)
    requires
        0 <= g < v.calendar_dates.len(),
        0 <= i < v.calendar_dates[g].items.len(),
    ensures
        with_repeated(v, g, i).services_on(day, date) == v.services_on(day, date),
        forall|service: Seq<char>|
            with_repeated(v, g, i).runs(service, day, date) == v.runs(service, day, date),
{
    let w = with_repeated(v, g, i);
    lemma_verdict_repeated(v.calendar_dates[g].items, i, date);
    assert forall|service: Seq<char>|
        w.excepted(service, date) == v.excepted(service, date) && w.scheduled(service, day) == v.scheduled(
            service,
            day,
        ) by {
        let p = grouped_under::<CalendarDateView>(service);
        assert forall|j: int| 0 <= j < w.calendar_dates.len() implies p(
            #[trigger] w.calendar_dates[j],
        ) == p(v.calendar_dates[j]) by {}
        lemma_first_where_agree(w.calendar_dates, v.calendar_dates, p, p);
        lemma_first_where(v.calendar_dates, p);
    }
    assert forall|j: int| 0 <= j < v.calendars.len() implies pattern_runs(w, day, date)(
        #[trigger] v.calendars[j],
    ) == pattern_runs(v, day, date)(v.calendars[j]) by {
        assert(w.excepted(v.calendars[j].service_id, date) == v.excepted(
            v.calendars[j].service_id,
            date,
        ));
    }
    lemma_filter_agree(v.calendars, pattern_runs(w, day, date), pattern_runs(v, day, date));
    assert forall|j: int| 0 <= j < w.calendar_dates.len() implies only_added(w, day, date)(
        #[trigger] w.calendar_dates[j],
    ) == only_added(v, day, date)(v.calendar_dates[j]) && group_key()(w.calendar_dates[j])
        == group_key()(v.calendar_dates[j]) by {
        assert(w.scheduled(v.calendar_dates[j].key, day) == v.scheduled(v.calendar_dates[j].key, day));
    }
    lemma_filter_map_agree(
        w.calendar_dates,
        v.calendar_dates,
        only_added(w, day, date),
        only_added(v, day, date),
        group_key(),
    );
    assert forall|service: Seq<char>| w.runs(service, day, date) == v.runs(service, day, date) by {
        assert(w.excepted(service, date) == v.excepted(service, date));
        assert(w.scheduled(service, day) == v.scheduled(service, day));
    }
}

/// What the exceptions `dates` say of the day `date`.
pub fn last_exception(dates: &Vec<CalendarDate>, date: Date) -> (r: Option<Exception>)
    ensures
        r == verdict(dates.deep_view(), date),
{
    let ghost views = dates.deep_view();
    let mut i: usize = dates.len();
    assert(views.take(i as int) =~= views);
    while i > 0
        invariant
            i <= dates.len(),
            views == dates.deep_view(),
            verdict(views, date) == verdict(views.take(i as int), date),
        decreases i,
    {
        assert(views.take(i as int).drop_last() =~= views.take(i - 1));
        assert(views.take(i as int).last() == dates@[i - 1].deep_view());
        i = i - 1;
        if dates[i].date == date {
            return Some(dates[i].exception_type);
        }
    }
    None
}

impl Feed {
    /// The routes that the agency `id` runs, in the order of the feed.
    pub fn routes_for_agency(&self, id: &str) -> (r: Vec<&Route>)
        ensures
            r.deep_view() == self@.routes_of(id@),
    {
        let routes = self.routes();
        let ghost views = routes.deep_view();
        let mut out: Vec<&Route> = Vec::new();
        let mut i: usize = 0;
        assert(views.take(0).filter(run_by(id@)) =~= Seq::<RouteView>::empty()) by {
            reveal(Seq::filter);
        }
        while i < routes.len()
            invariant
                i <= routes.len(),
                views == routes.deep_view(),
                views == self@.routes,
                out.deep_view() =~= views.take(i as int).filter(run_by(id@)),
            decreases routes.len() - i,
        {
            proof {
                lemma_filter_next(views, run_by(id@), i as int);
                assert(views[i as int] == routes@[i as int].deep_view());
            }
            if is_text(routes[i].agency_id.as_str(), id) {
                out.push(&routes[i]);
            }
            i = i + 1;
        }
        assert(views.take(routes.len() as int) =~= views);
        out
    }

    /// The keys of the trips that run on one of the services `service_ids`,
    /// in the order of the feed.
    pub fn trip_ids_for_service_ids(&self, service_ids: &Vec<String>) -> (r: Vec<String>)
        ensures
            r.deep_view() == self@.trips_on(service_ids.deep_view()),
    {
        let trips = self.trips();
        let ghost views = trips.deep_view();
        let ghost wanted = runs_on(service_ids.deep_view());
        let mut out: Vec<String> = Vec::new();
        let mut i: usize = 0;
        assert(views.take(0).filter(wanted) =~= Seq::<TripView>::empty()) by {
            reveal(Seq::filter);
        }
        while i < trips.len()
            invariant
                i <= trips.len(),
                views == trips.deep_view(),
                views == self@.trips,
                wanted == runs_on(service_ids.deep_view()),
                out.deep_view() =~= views.take(i as int).filter(wanted).map_values(trip_id()),
            decreases trips.len() - i,
        {
            proof {
                lemma_filter_next(views, wanted, i as int);
                assert(views[i as int] == trips@[i as int].deep_view());
            }
            let ghost before = views.take(i as int).filter(wanted);
            if contains_text(service_ids, trips[i].service_id.as_str()) {
                out.push(trips[i].id.clone());
                assert(before.push(views[i as int]).map_values(trip_id()) =~= before.map_values(
                    trip_id(),
                ).push(views[i as int].id));
            }
            i = i + 1;
        }
        assert(views.take(trips.len() as int) =~= views);
        out
    }

    /// The keys of the services that run on `date`, a `day`: first those
    /// with a weekly pattern, in the order of the feed, then those that only
    /// an exception adds. No key comes twice.
    pub fn active_service_ids(&self, day: Weekday, date: Date) -> (r: Vec<String>)
        ensures
            r.deep_view() == self@.services_on(day, date),
            r.deep_view().no_duplicates(),
            forall|service: Seq<char>|
                #[trigger] r.deep_view().contains(service) <==> self@.runs(service, day, date),
    {
        self.well_formedness();
        let calendars = self.calendars();
        let groups = self.calendar_dates();
        let ghost cals = calendars.deep_view();
        let ghost dated = groups.deep_view();
        let ghost by_pattern = pattern_runs(self@, day, date);
        let ghost by_exception = only_added(self@, day, date);
        let mut out: Vec<String> = Vec::new();
        let mut i: usize = 0;
        proof {
            reveal(Seq::filter);
            assert(cals.take(0).filter(by_pattern) =~= Seq::<CalendarView>::empty());
            assert(dated.take(0).filter(by_exception) =~= Seq::<GroupView<CalendarDateView>>::empty());
        }
        while i < calendars.len()
            invariant
                i <= calendars.len(),
                cals == calendars.deep_view(),
                cals == self@.calendars,
                dated == groups.deep_view(),
                dated == self@.calendar_dates,
                well_formed_calendar(self@),
                by_pattern == pattern_runs(self@, day, date),
                out.deep_view() =~= cals.take(i as int).filter(by_pattern).map_values(service_id()),
                out.deep_view().no_duplicates(),
                forall|service: Seq<char>|
                    #[trigger] out.deep_view().contains(service) <==> (exists|j: int|
                        0 <= j < i && cals[j].service_id == service) && self@.scheduled(
                        service,
                        day,
                    ) && self@.runs(service, day, date),
            decreases calendars.len() - i,
        {
            let ghost before = out.deep_view();
            let c = &calendars[i];
            let ghost key = c.service_id@;
            let ghost kept = cals.take(i as int).filter(by_pattern);
            proof {
                assert(cals[i as int] == calendars@[i as int].deep_view());
                lemma_keyed_record::<Calendar>(cals, i as int);
                lemma_filter_next(cals, by_pattern, i as int);
                assert(kept.push(cals[i as int]).map_values(service_id()) =~= kept.map_values(
                    service_id(),
                ).push(key));
            }
            if c.weekdays.contains(day) {
                let excepted = match find_group::<CalendarDate>(groups, c.service_id.as_str()) {
                    Some(g) => {
                        assert(dated[g as int] == groups@[g as int].deep_view());
                        last_exception(&groups[g].items, date)
                    },
                    None => None,
                };
                match excepted {
                    Some(Exception::Removed) => {},
                    _ => {
                        out.push(c.service_id.clone());
                        assert(out.deep_view() =~= before.push(key));
                        assert(!before.contains(key)) by {
                            if before.contains(key) {
                                let j = choose|j: int| 0 <= j < i && cals[j].service_id == key;
                                assert(Calendar::key_of(cals[j]) == Calendar::key_of(cals[i as int]));
                            }
                        }
                    },
                }
            }
            proof {
                let after = out.deep_view();
                assert forall|service: Seq<char>| #[trigger]
                    after.contains(service) <==> (exists|j: int|
                        0 <= j < i + 1 && cals[j].service_id == service) && self@.scheduled(
                        service,
                        day,
                    ) && self@.runs(service, day, date) by {
                    if after.contains(service) {
                        if before.contains(service) {
                        } else {
                            let k = choose|k: int| 0 <= k < after.len() && after[k] == service;
                            assert(service == key);
                            assert(cals[i as int].service_id == service);
                        }
                    }
                    if (exists|j: int| 0 <= j < i + 1 && cals[j].service_id == service)
                        && self@.scheduled(service, day) && self@.runs(service, day, date) {
                        let j = choose|j: int| 0 <= j < i + 1 && cals[j].service_id == service;
                        if j < i {
                            assert(before.contains(service));
                            let k = choose|k: int| 0 <= k < before.len() && before[k] == service;
                            assert(after[k] == service);
                        } else {
                            assert(after[after.len() - 1] == service);
                        }
                    }
                }
            }
            i = i + 1;
        }
        proof {
            let first = out.deep_view();
            assert forall|service: Seq<char>| #[trigger]
                first.contains(service) <==> self@.scheduled(service, day) && self@.runs(
                    service,
                    day,
                    date,
                ) by {
                lemma_position::<Calendar>(cals, service);
                if self@.scheduled(service, day) {
                    let j = position::<Calendar>(cals, service)->0;
                    assert(cals[j].service_id == service);
                }
            }
        }
        let ghost first = out.deep_view();
        assert(cals.take(calendars.len() as int) =~= cals);
        let mut g: usize = 0;
        while g < groups.len()
            invariant
                g <= groups.len(),
                cals == calendars.deep_view(),
                cals == self@.calendars,
                dated == groups.deep_view(),
                dated == self@.calendar_dates,
                well_formed_calendar(self@),
                by_exception == only_added(self@, day, date),
                first == cals.filter(pattern_runs(self@, day, date)).map_values(service_id()),
                out.deep_view() =~= first + dated.take(g as int).filter(by_exception).map_values(
                    group_key(),
                ),
                out.deep_view().no_duplicates(),
                forall|service: Seq<char>|
                    #[trigger] out.deep_view().contains(service) <==> (self@.scheduled(service, day)
                        || exists|j: int| 0 <= j < g && dated[j].key == service) && self@.runs(
                        service,
                        day,
                        date,
                    ),
            decreases groups.len() - g,
        {
            let ghost before = out.deep_view();
            let group = &groups[g];
            let ghost key = group.key@;
            let ghost kept = dated.take(g as int).filter(by_exception);
            proof {
                assert(dated[g as int] == groups@[g as int].deep_view());
                lemma_keyed_group::<CalendarDate>(dated, g as int);
                lemma_position::<Calendar>(cals, key);
                lemma_filter_next(dated, by_exception, g as int);
                assert(kept.push(dated[g as int]).map_values(group_key()) =~= kept.map_values(
                    group_key(),
                ).push(key));
            }
            let added = match last_exception(&group.items, date) {
                Some(Exception::Added) => true,
                _ => false,
            };
            let scheduled = match find::<Calendar>(calendars, group.key.as_str()) {
                Some(j) => {
                    assert(cals[j as int] == calendars@[j as int].deep_view());
                    calendars[j].weekdays.contains(day)
                },
                None => false,
            };
            if added && !scheduled {
                out.push(group.key.clone());
                assert(out.deep_view() =~= before.push(key));
                assert(!before.contains(key)) by {
                    if before.contains(key) {
                        let j = choose|j: int| 0 <= j < g && dated[j].key == key;
                        assert(dated[j].key != dated[g as int].key);
                    }
                }
            }
            proof {
                let after = out.deep_view();
                assert forall|service: Seq<char>| #[trigger]
                    after.contains(service) <==> (self@.scheduled(service, day) || exists|j: int|
                        0 <= j < g + 1 && dated[j].key == service) && self@.runs(
                        service,
                        day,
                        date,
                    ) by {
                    if after.contains(service) {
                        if before.contains(service) {
                        } else {
                            let k = choose|k: int| 0 <= k < after.len() && after[k] == service;
                            assert(service == key);
                            assert(dated[g as int].key == service);
                        }
                    }
                    if (self@.scheduled(service, day) || exists|j: int|
                        0 <= j < g + 1 && dated[j].key == service) && self@.runs(
                        service,
                        day,
                        date,
                    ) {
                        if self@.scheduled(service, day) || exists|j: int|
                            0 <= j < g && dated[j].key == service {
                            assert(before.contains(service));
                            let k = choose|k: int| 0 <= k < before.len() && before[k] == service;
                            assert(after[k] == service);
                        } else {
                            assert(dated[g as int].key == service);
                            assert(after[after.len() - 1] == service);
                        }
                    }
                }
            }
            g = g + 1;
        }
        proof {
            let fin = out.deep_view();
            assert(dated.take(groups.len() as int) =~= dated);
            assert forall|service: Seq<char>| #[trigger]
                fin.contains(service) <==> self@.runs(service, day, date) by {
                if self@.runs(service, day, date) && !self@.scheduled(service, day) {
                    lemma_first_where(dated, grouped_under::<CalendarDateView>(service));
                    let j = group_of(dated, service)->0;
                    assert(dated[j].key == service);
                }
            }
        }
        out
    }

    /// The agency with the key `id`.
    pub fn find_agency(&self, id: &str) -> (r: Option<&Agency>)
        ensures
            r.deep_view() == self@.agency(id@),
    {
        let items = self.agencies();
        match find::<Agency>(items, id) {
            Some(i) => {
                assert(items.deep_view()[i as int] == items@[i as int].deep_view());
                Some(&items[i])
            },
            None => None,
        }
    }

    /// The stop with the key `id`.
    pub fn find_stop(&self, id: &str) -> (r: Option<&Stop>)
        ensures
            r.deep_view() == self@.stop(id@),
    {
        let items = self.stops();
        match find::<Stop>(items, id) {
            Some(i) => {
                assert(items.deep_view()[i as int] == items@[i as int].deep_view());
                Some(&items[i])
            },
            None => None,
        }
    }

    /// The route with the key `id`.
    pub fn find_route(&self, id: &str) -> (r: Option<&Route>)
        ensures
            r.deep_view() == self@.route(id@),
    {
        let items = self.routes();
        match find::<Route>(items, id) {
            Some(i) => {
                assert(items.deep_view()[i as int] == items@[i as int].deep_view());
                Some(&items[i])
            },
            None => None,
        }
    }

    /// The trip with the key `id`.
    pub fn find_trip(&self, id: &str) -> (r: Option<&Trip>)
        ensures
            r.deep_view() == self@.trip(id@),
    {
        let items = self.trips();
        match find::<Trip>(items, id) {
            Some(i) => {
                assert(items.deep_view()[i as int] == items@[i as int].deep_view());
                Some(&items[i])
            },
            None => None,
        }
    }

    /// The calls of the trip with the key `id`, in ascending order of
    /// sequence.
    pub fn find_stop_times(&self, id: &str) -> (r: Option<&Vec<StopTime>>)
        ensures
            r.deep_view() == self@.calls(id@),
    {
        self.well_formedness();
        let groups = self.stop_times();
        match find_group::<StopTime>(groups, id) {
            Some(i) => {
                assert(groups.deep_view()[i as int] == groups@[i as int].deep_view());
                Some(&groups[i].items)
            },
            None => None,
        }
    }

    /// The stops with the keys `ids`, in the order of the keys.
    pub fn lookup_stops(&self, ids: &Vec<String>) -> (r: Vec<&Stop>)
        requires
            forall|i: int| 0 <= i < ids.len() ==> self@.stop(#[trigger] ids@[i]@) is Some,
        ensures
            r.len() == ids.len(),
            forall|i: int| 0 <= i < ids.len() ==> self@.stop(ids@[i]@) == Some(#[trigger] r@[i]@),
    {
        lookup_list::<Stop>(self.stops(), ids)
    }

    /// The trips with the keys `ids`, in the order of the keys.
    pub fn lookup_trips(&self, ids: &Vec<String>) -> (r: Vec<&Trip>)
        requires
            forall|i: int| 0 <= i < ids.len() ==> self@.trip(#[trigger] ids@[i]@) is Some,
        ensures
            r.len() == ids.len(),
            forall|i: int| 0 <= i < ids.len() ==> self@.trip(ids@[i]@) == Some(#[trigger] r@[i]@),
    {
        lookup_list::<Trip>(self.trips(), ids)
    }

    /// The routes with the keys `ids`, in the order of the keys.
    pub fn lookup_routes(&self, ids: &Vec<String>) -> (r: Vec<&Route>)
        requires
            forall|i: int| 0 <= i < ids.len() ==> self@.route(#[trigger] ids@[i]@) is Some,
        ensures
            r.len() == ids.len(),
            forall|i: int| 0 <= i < ids.len() ==> self@.route(ids@[i]@) == Some(#[trigger] r@[i]@),
    {
        lookup_list::<Route>(self.routes(), ids)
    }

    /// The calls of the trips with the keys `ids`, in the order of the keys.
    pub fn lookup_stop_times(&self, ids: &Vec<String>) -> (r: Vec<&Vec<StopTime>>)
        requires
            forall|i: int| 0 <= i < ids.len() ==> self@.calls(#[trigger] ids@[i]@) is Some,
        ensures
            r.len() == ids.len(),
            forall|i: int|
                0 <= i < ids.len() ==> self@.calls(ids@[i]@) == Some(
                    (#[trigger] r@[i]).deep_view(),
                ),
    {
        let mut out: Vec<&Vec<StopTime>> = Vec::new();
        let mut i: usize = 0;
        while i < ids.len()
            invariant
                i <= ids.len(),
                out.len() == i,
                forall|j: int| 0 <= j < ids.len() ==> self@.calls(#[trigger] ids@[j]@) is Some,
                forall|j: int|
                    0 <= j < i ==> self@.calls(ids@[j]@) == Some((#[trigger] out@[j]).deep_view()),
            decreases ids.len() - i,
        {
            assert(self@.calls(ids@[i as int]@) is Some);
            match self.find_stop_times(ids[i].as_str()) {
                Some(found) => {
                    out.push(found);
                },
                None => {},
            }
            i = i + 1;
        }
        out
    }
}

impl FeedView {
    /// The agency of the trip whose calls are the `g`-th group: that of the
    /// trip's route, where the feed has the trip and the route.
    pub open spec fn group_agency(self, g: int) -> Option<Seq<char>> {
        match self.trip(self.stop_times[g].key) {
            Some(t) => match self.route(t.route_id) {
                Some(r) => Some(r.agency_id),
                None => None,
            },
            None => None,
        }
    }

    /// Whether every trip that has calls is a trip of the feed, on a route
    /// of the feed.
    pub open spec fn trips_resolve(self) -> bool {
        forall|g: int| 0 <= g < self.stop_times.len() ==> (#[trigger] self.group_agency(g)) is Some
    }

    /// The stops that the trips of the agency `agency` call at, call by
    /// call, among the first `g` groups of calls.
    pub open spec fn named_upto(self, agency: Seq<char>, g: int) -> Seq<Seq<char>>
        decreases g,
    {
        if g <= 0 {
            Seq::empty()
        } else if self.group_agency(g - 1) == Some(agency) {
            self.named_upto(agency, g - 1) + stop_ids(self.stop_times[g - 1].items)
        } else {
            self.named_upto(agency, g - 1)
        }
    }

    /// The keys of the stops at which the trips of the agency `agency`
    /// call, each once, in the order in which the calls of the feed first
    /// name them.
    pub open spec fn stops_of(self, agency: Seq<char>) -> Seq<Seq<char>> {
        distinct(self.named_upto(agency, self.stop_times.len() as int))
    }
}

/// The stops of `calls`, call by call.
pub open spec fn stop_ids(calls: Seq<StopTimeView>) -> Seq<Seq<char>> {
    Seq::new(calls.len(), |k: int| calls[k].stop_id)
}

/// The texts of `s`, each once, in the order in which they first occur.
pub open spec fn distinct(s: Seq<Seq<char>>) -> Seq<Seq<char>>
    decreases s.len(),
{
    if s.len() == 0 {
        s
    } else if distinct(s.drop_last()).contains(s.last()) {
        distinct(s.drop_last())
    } else {
        distinct(s.drop_last()).push(s.last())
    }
}

/// The distinct texts of a list hold no text twice, and hold the texts of
/// the list and no others.
pub proof fn lemma_distinct(s: Seq<Seq<char>>)
    ensures
        distinct(s).no_duplicates(),
        forall|x: Seq<char>| #[trigger] distinct(s).contains(x) <==> s.contains(x),
    decreases s.len(),
{
    if s.len() > 0 {
        let front = s.drop_last();
        let d = distinct(front);
        lemma_distinct(front);
        assert forall|x: Seq<char>| #[trigger] distinct(s).contains(x) <==> s.contains(x) by {
            if distinct(s).contains(x) {
                let i = choose|i: int| 0 <= i < distinct(s).len() && distinct(s)[i] == x;
                if i < d.len() {
                    assert(d[i] == x);
                    assert(d.contains(x));
                    assert(front.contains(x));
                    let j = choose|j: int| 0 <= j < front.len() && front[j] == x;
                    assert(s[j] == x);
                } else {
                    assert(s[s.len() - 1] == x);
                }
            }
            if s.contains(x) {
                let j = choose|j: int| 0 <= j < s.len() && s[j] == x;
                if j < front.len() {
                    assert(front[j] == x);
                    assert(front.contains(x));
                    assert(d.contains(x));
                    let i = choose|i: int| 0 <= i < d.len() && d[i] == x;
                    assert(distinct(s)[i] == x);
                } else if d.contains(x) {
                } else {
                    assert(distinct(s)[d.len() as int] == x);
                }
            }
        }
    }
}

impl Feed {
    /// The agency of the trip whose calls are the `g`-th group.
    fn agency_of_group(&self, g: usize) -> (r: Option<&String>)
        requires
            g < self@.stop_times.len(),
        ensures
            r.deep_view() == self@.group_agency(g as int),
    {
        let groups = self.stop_times();
        assert(groups.deep_view()[g as int] == groups@[g as int].deep_view());
        match self.find_trip(groups[g].key.as_str()) {
            Some(trip) => match self.find_route(trip.route_id.as_str()) {
                Some(route) => Some(&route.agency_id),
                None => None,
            },
            None => None,
        }
    }

    /// Whether every trip that has calls is a trip of the feed, on a route
    /// of the feed.
    pub fn trips_resolve(&self) -> (r: bool)
        ensures
            r == self@.trips_resolve(),
    {
        let n: usize = self.stop_times().len();
        let mut g: usize = 0;
        while g < n
            invariant
                g <= n == self@.stop_times.len(),
                forall|a: int| 0 <= a < g ==> (#[trigger] self@.group_agency(a)) is Some,
            decreases n - g,
        {
            if self.agency_of_group(g).is_none() {
                return false;
            }
            g = g + 1;
        }
        true
    }

    /// The keys of the stops at which the trips of the agency `id` call,
    /// each once, in the order in which the calls of the feed first name
    /// them.
    pub fn stops_for_agency(&self, id: &str) -> (r: Vec<String>)
        requires
            self@.trips_resolve(),
        ensures
            r.deep_view() == self@.stops_of(id@),
            r.deep_view().no_duplicates(),
    {
        let groups = self.stop_times();
        let ghost views = groups.deep_view();
        let n: usize = groups.len();
        let mut out: Vec<String> = Vec::new();
        let mut g: usize = 0;
        assert(out.deep_view() =~= Seq::<Seq<char>>::empty());
        while g < n
            invariant
                g <= n == groups.len(),
                views == groups.deep_view(),
                views == self@.stop_times,
                out.deep_view() == distinct(self@.named_upto(id@, g as int)),
            decreases n - g,
        {
            assert(views[g as int] == groups@[g as int].deep_view());
            let mine = match self.agency_of_group(g) {
                Some(agency) => is_text(agency.as_str(), id),
                None => false,
            };
            if mine {
                let calls = &groups[g].items;
                let ghost names = stop_ids(views[g as int].items);
                let ghost before = self@.named_upto(id@, g as int);
                let mut k: usize = 0;
                assert(before + names.take(0) =~= before);
                while k < calls.len()
                    invariant
                        k <= calls.len(),
                        names == stop_ids(calls.deep_view()),
                        out.deep_view() == distinct(before + names.take(k as int)),
                    decreases calls.len() - k,
                {
                    let ghost sofar = out.deep_view();
                    proof {
                        assert(names[k as int] == calls@[k as int].deep_view().stop_id);
                        let next = before + names.take(k + 1);
                        assert(next.drop_last() =~= before + names.take(k as int));
                        assert(next.last() == names[k as int]);
                    }
                    if !contains_text(&out, calls[k].stop_id.as_str()) {
                        out.push(calls[k].stop_id.clone());
                        assert(out.deep_view() =~= sofar.push(names[k as int]));
                    }
                    k = k + 1;
                }
                assert(names.take(calls.len() as int) =~= names);
            }
            g = g + 1;
        }
        proof {
            lemma_distinct(self@.named_upto(id@, n as int));
        }
        out
    }
}

} // verus!
