//! What holds of every stream of a day.

use crate::events::{
    lemma_roster_well_formed, run_of, selected, well_rostered, EventView, Run, RunView,
    ScheduleError,
};
use crate::feed::{well_formed, FeedView};
use crate::model::{Date, Trip, Weekday};
use crate::replay::schedule_of;
use crate::seqs::{lemma_filter_from, lemma_filter_has};
use crate::sort::{lemma_place_of, lemma_stable_sort, place_of, stable_sort};
use crate::table::{well_keyed, Record};
use crate::model::{StopTimeView, TripView};
use crate::replay::{
    arrivals_upto, day_events, events_until, lemma_events_quiet, progress_of, progress_upto,
    starts_upto, tick_events,
};
use vstd::prelude::*;

verus! {

/// The time of an event, where it has one: the opening and the close have
/// none.
pub open spec fn time_of(e: EventView) -> Option<u64> {
    match e {
        EventView::StartEvents(_, _) => None,
        EventView::EndEvents => None,
        EventView::StartTrip(t, _) => Some(t),
        EventView::EndTrip(t, _) => Some(t),
        EventView::StopArrival(t, _, _) => Some(t),
    }
}

/// Whether every event of `s` happens at the instant `t`.
pub open spec fn all_at(s: Seq<EventView>, t: int) -> bool {
    forall|i: int| 0 <= i < s.len() ==> time_of(#[trigger] s[i]) == Some(t as u64)
}

/// Whether the times of `s` never fall.
pub open spec fn in_time_order(s: Seq<EventView>) -> bool {
    forall|i: int, j: int|
        0 <= i <= j < s.len() && time_of(s[i]) is Some && time_of(s[j]) is Some ==> time_of(
            #[trigger] s[i],
        )->0 <= time_of(#[trigger] s[j])->0
}

/// Whether every event of `s` has a time, before the instant `t`.
pub open spec fn all_before(s: Seq<EventView>, t: int) -> bool {
    forall|i: int| 0 <= i < s.len() ==> time_of(#[trigger] s[i]) is Some && time_of(s[i])->0 < t
}

/// The starts of an instant happen at the instant.
proof fn lemma_starts_at(roster: Seq<RunView>, t: int, n: int)
    requires
        0 <= t <= u64::MAX,
    ensures
        all_at(starts_upto(roster, t, n), t),
    decreases n,
{
    if n > 0 {
        lemma_starts_at(roster, t, n - 1);
    }
}

/// The arrivals of an instant happen at the instant.
proof fn lemma_arrivals_at(run: RunView, t: int, n: int)
    requires
        0 <= t <= u64::MAX,
    ensures
        all_at(arrivals_upto(run, t, n), t),
    decreases n,
{
    if n > 0 {
        lemma_arrivals_at(run, t, n - 1);
    }
}

/// What the runs do at an instant happens at the instant.
proof fn lemma_progress_at(roster: Seq<RunView>, t: int, n: int)
    requires
        0 <= t <= u64::MAX,
    ensures
        all_at(progress_upto(roster, t, n), t),
    decreases n,
{
    if n > 0 {
        lemma_progress_at(roster, t, n - 1);
        lemma_arrivals_at(roster[n - 1], t, roster[n - 1].calls.len() as int);
    }
}

/// The events of an instant happen at the instant.
pub proof fn lemma_tick_at(roster: Seq<RunView>, t: int)
    requires
        0 <= t <= u64::MAX,
    ensures
        all_at(tick_events(roster, t), t),
{
    lemma_starts_at(roster, t, roster.len() as int);
    lemma_progress_at(roster, t, roster.len() as int);
}

/// The events before an instant are in the order of time.
pub proof fn lemma_events_in_time_order(roster: Seq<RunView>, t: int)
    requires
        0 <= t <= u64::MAX + 1,
    ensures
        in_time_order(events_until(roster, t)),
        all_before(events_until(roster, t), t),
    decreases t,
{
    if t > 0 {
        lemma_events_in_time_order(roster, t - 1);
        lemma_tick_at(roster, t - 1);
        let front = events_until(roster, t - 1);
        let tick = tick_events(roster, t - 1);
        let all = events_until(roster, t);
        assert forall|i: int| 0 <= i < all.len() implies time_of(#[trigger] all[i]) is Some && time_of(
            all[i],
        )->0 < t by {
            if i < front.len() {
                assert(all[i] == front[i]);
            } else {
                assert(all[i] == tick[i - front.len()]);
            }
        }
        assert forall|i: int, j: int|
            0 <= i <= j < all.len() && time_of(all[i]) is Some && time_of(all[j]) is Some implies time_of(
            #[trigger] all[i],
        )->0 <= time_of(#[trigger] all[j])->0 by {
            if j < front.len() {
                assert(all[i] == front[i] && all[j] == front[j]);
            } else if i < front.len() {
                assert(all[i] == front[i] && all[j] == tick[j - front.len()]);
            } else {
                assert(all[i] == tick[i - front.len()] && all[j] == tick[j - front.len()]);
            }
        }
    }
}

/// The times of the events of a day never fall, from the first event of the
/// stream to the last.
pub proof fn lemma_day_in_time_order(services: usize, roster: Seq<RunView>)
    ensures
        in_time_order(day_events(services, roster)),
{
    lemma_events_in_time_order(roster, u64::MAX + 1);
    let middle = events_until(roster, u64::MAX + 1);
    let all = day_events(services, roster);
    assert forall|i: int, j: int|
        0 <= i <= j < all.len() && time_of(all[i]) is Some && time_of(all[j]) is Some implies time_of(
        #[trigger] all[i],
    )->0 <= time_of(#[trigger] all[j])->0 by {
        assert(all[0] == EventView::StartEvents(services, roster.len() as usize));
        assert(all[all.len() - 1] == EventView::EndEvents);
        assert(all[i] == middle[i - 1]);
        assert(all[j] == middle[j - 1]);
    }
}

/// The stream of a day opens with the two counts and closes with the close,
/// and has nothing else where no trip runs.
pub proof fn lemma_day_frame(services: usize, roster: Seq<RunView>)
    ensures
        day_events(services, roster).len() >= 2,
        day_events(services, roster).first() == EventView::StartEvents(
            services,
            roster.len() as usize,
        ),
        day_events(services, roster).last() == EventView::EndEvents,
        roster.len() == 0 ==> day_events(services, roster) == seq![
            EventView::StartEvents(services, 0),
            EventView::EndEvents,
        ],
{
    if roster.len() == 0 {
        lemma_events_quiet(roster, 0, u64::MAX + 1);
        assert(day_events(services, roster) =~= seq![
            EventView::StartEvents(services, 0),
            EventView::EndEvents,
        ]);
    }
}

/// How many elements of `s` satisfy `p`.
pub open spec fn count<T>(s: Seq<T>, p: spec_fn(T) -> bool) -> nat
    decreases s.len(),
{
    if s.len() == 0 {
        0
    } else if p(s.last()) {
        count(s.drop_last(), p) + 1
    } else {
        count(s.drop_last(), p)
    }
}

/// Counting two lists one after the other adds their counts.
pub proof fn lemma_count_add<T>(a: Seq<T>, b: Seq<T>, p: spec_fn(T) -> bool)
    ensures
        count(a + b, p) == count(a, p) + count(b, p),
    decreases b.len(),
{
    if b.len() == 0 {
        assert(a + b =~= a);
    } else {
        lemma_count_add(a, b.drop_last(), p);
        assert((a + b).drop_last() =~= a + b.drop_last());
        assert((a + b).last() == b.last());
    }
}

/// The three kinds of event of a trip.
pub enum Kind {
    Start,
    End,
    Arrival,
}

/// Whether an event is of the kind `kind` and of the trip `trip`.
pub open spec fn of_kind(kind: Kind, trip: TripView) -> spec_fn(EventView) -> bool {
    |e: EventView|
        match e {
            EventView::StartTrip(_, t) => kind is Start && t == trip,
            EventView::EndTrip(_, t) => kind is End && t == trip,
            EventView::StopArrival(_, t, _) => kind is Arrival && t == trip,
            _ => false,
        }
}

/// How many of the first `n` of `calls` arrive at the instant `t`.
pub open spec fn calls_at(calls: Seq<StopTimeView>, t: int, n: int) -> nat
    decreases n,
{
    if n <= 0 {
        0
    } else if calls[n - 1].arrival_time == t {
        calls_at(calls, t, n - 1) + 1
    } else {
        calls_at(calls, t, n - 1)
    }
}

/// How many of the first `n` of `calls` arrive before the instant `t`.
pub open spec fn calls_before(calls: Seq<StopTimeView>, t: int, n: int) -> nat
    decreases n,
{
    if n <= 0 {
        0
    } else if calls[n - 1].arrival_time < t {
        calls_before(calls, t, n - 1) + 1
    } else {
        calls_before(calls, t, n - 1)
    }
}

/// How many events of a kind a run has at the instant `t`, where it is a run
/// of the trip `trip`.
pub open spec fn at(kind: Kind, run: RunView, trip: TripView, t: int) -> nat {
    if run.trip != trip {
        0
    } else {
        match kind {
            Kind::Start => if run.first_arrival == t {
                1
            } else {
                0
            },
            Kind::End => if run.calls.len() > 0 && run.calls.last().arrival_time == t {
                1
            } else {
                0
            },
            Kind::Arrival => calls_at(run.calls, t, run.calls.len() as int),
        }
    }
}

/// How many events of a kind a run has before the instant `t`, where it is
/// a run of the trip `trip`.
pub open spec fn before(kind: Kind, run: RunView, trip: TripView, t: int) -> nat {
    if run.trip != trip {
        0
    } else {
        match kind {
            Kind::Start => if run.first_arrival < t {
                1
            } else {
                0
            },
            Kind::End => if run.calls.len() > 0 && run.calls.last().arrival_time < t {
                1
            } else {
                0
            },
            Kind::Arrival => calls_before(run.calls, t, run.calls.len() as int),
        }
    }
}

/// How many events of a kind the first `n` runs have at the instant `t`.
pub open spec fn sum_at(kind: Kind, roster: Seq<RunView>, trip: TripView, t: int, n: int) -> nat
    decreases n,
{
    if n <= 0 {
        0
    } else {
        sum_at(kind, roster, trip, t, n - 1) + at(kind, roster[n - 1], trip, t)
    }
}

/// How many events of a kind the first `n` runs have before the instant
/// `t`.
pub open spec fn sum_before(kind: Kind, roster: Seq<RunView>, trip: TripView, t: int, n: int) -> nat
    decreases n,
{
    if n <= 0 {
        0
    } else {
        sum_before(kind, roster, trip, t, n - 1) + before(kind, roster[n - 1], trip, t)
    }
}

/// How many of the first `n` runs are runs of the trip `trip`.
pub open spec fn runs_of_trip(roster: Seq<RunView>, trip: TripView, n: int) -> nat
    decreases n,
{
    if n <= 0 {
        0
    } else if roster[n - 1].trip == trip {
        runs_of_trip(roster, trip, n - 1) + 1
    } else {
        runs_of_trip(roster, trip, n - 1)
    }
}

/// How many calls the runs of the trip `trip` among the first `n` runs
/// have.
pub open spec fn calls_of_trip(roster: Seq<RunView>, trip: TripView, n: int) -> nat
    decreases n,
{
    if n <= 0 {
        0
    } else if roster[n - 1].trip == trip {
        calls_of_trip(roster, trip, n - 1) + roster[n - 1].calls.len()
    } else {
        calls_of_trip(roster, trip, n - 1)
    }
}

/// The calls before the next instant are those before this one and those at it.
proof fn lemma_calls_step(calls: Seq<StopTimeView>, t: int, n: int)
    ensures
        calls_before(calls, t + 1, n) == calls_before(calls, t, n) + calls_at(calls, t, n),
    decreases n,
{
    if n > 0 {
        lemma_calls_step(calls, t, n - 1);
    }
}

/// Every call arrives before the end of time.
proof fn lemma_calls_all(calls: Seq<StopTimeView>, n: int)
    requires
        0 <= n,
    ensures
        calls_before(calls, u64::MAX + 1, n) == n,
    decreases n,
{
    if n > 0 {
        lemma_calls_all(calls, n - 1);
    }
}

/// The events before the next instant are those before this one and those at it.
proof fn lemma_sum_step(kind: Kind, roster: Seq<RunView>, trip: TripView, t: int, n: int)
    ensures
        sum_before(kind, roster, trip, t + 1, n) == sum_before(kind, roster, trip, t, n) + sum_at(
            kind,
            roster,
            trip,
            t,
            n,
        ),
    decreases n,
{
    if n > 0 {
        lemma_sum_step(kind, roster, trip, t, n - 1);
        lemma_calls_step(roster[n - 1].calls, t, roster[n - 1].calls.len() as int);
    }
}

/// The starts of an instant are counted among the starts alone, one for each
/// run of the trip that starts then.
proof fn lemma_count_starts(kind: Kind, roster: Seq<RunView>, trip: TripView, t: int, n: int)
    ensures
        count(starts_upto(roster, t, n), of_kind(kind, trip)) == if kind is Start {
            sum_at(kind, roster, trip, t, n)
        } else {
            0
        },
    decreases n,
{
    if n > 0 {
        lemma_count_starts(kind, roster, trip, t, n - 1);
        if roster[n - 1].first_arrival == t {
            let front = starts_upto(roster, t, n - 1);
            let e = EventView::StartTrip(t as u64, roster[n - 1].trip);
            assert(front.push(e).drop_last() =~= front);
        }
    }
}

/// The arrivals of a run at an instant are counted among the arrivals alone,
/// one for each call of the trip that arrives then.
proof fn lemma_count_arrivals(kind: Kind, run: RunView, trip: TripView, t: int, n: int)
    ensures
        count(arrivals_upto(run, t, n), of_kind(kind, trip)) == if kind is Arrival && run.trip == trip {
            calls_at(run.calls, t, n)
        } else {
            0
        },
    decreases n,
{
    if n > 0 {
        lemma_count_arrivals(kind, run, trip, t, n - 1);
        if run.calls[n - 1].arrival_time == t {
            let front = arrivals_upto(run, t, n - 1);
            let e = EventView::StopArrival(t as u64, run.trip, run.calls[n - 1]);
            assert(front.push(e).drop_last() =~= front);
        }
    }
}

/// What a run does at an instant holds no start, and as many ends and
/// arrivals as the run has then.
proof fn lemma_count_progress_of(kind: Kind, run: RunView, trip: TripView, t: int)
    ensures
        count(progress_of(run, t), of_kind(kind, trip)) == if kind is Start {
            0
        } else {
            at(kind, run, trip, t)
        },
{
    let arrivals = arrivals_upto(run, t, run.calls.len() as int);
    lemma_count_arrivals(kind, run, trip, t, run.calls.len() as int);
    if run.calls.len() > 0 && run.calls.last().arrival_time == t {
        let e = EventView::EndTrip(t as u64, run.trip);
        assert(arrivals.push(e).drop_last() =~= arrivals);
    }
}

/// What the runs do at an instant holds no start, and as many ends and
/// arrivals as the runs have then.
proof fn lemma_count_progress(kind: Kind, roster: Seq<RunView>, trip: TripView, t: int, n: int)
    ensures
        count(progress_upto(roster, t, n), of_kind(kind, trip)) == if kind is Start {
            0
        } else {
            sum_at(kind, roster, trip, t, n)
        },
    decreases n,
{
    if n > 0 {
        lemma_count_progress(kind, roster, trip, t, n - 1);
        lemma_count_progress_of(kind, roster[n - 1], trip, t);
        lemma_count_add(progress_upto(roster, t, n - 1), progress_of(roster[n - 1], t), of_kind(kind, trip));
    }
}

/// How many events of a kind the stream has before an instant.
pub proof fn lemma_count_until(kind: Kind, roster: Seq<RunView>, trip: TripView, t: int)
    requires
        0 <= t,
    ensures
        count(events_until(roster, t), of_kind(kind, trip)) == sum_before(
            kind,
            roster,
            trip,
            t,
            roster.len() as int,
        ),
    decreases t,
{
    let n = roster.len() as int;
    if t > 0 {
        lemma_count_until(kind, roster, trip, t - 1);
        lemma_count_starts(kind, roster, trip, t - 1, n);
        lemma_count_progress(kind, roster, trip, t - 1, n);
        lemma_count_add(starts_upto(roster, t - 1, n), progress_upto(roster, t - 1, n), of_kind(kind, trip));
        lemma_count_add(events_until(roster, t - 1), tick_events(roster, t - 1), of_kind(kind, trip));
        lemma_sum_step(kind, roster, trip, t - 1, n);
    } else {
        lemma_sum_none(kind, roster, trip, n);
    }
}

/// No event comes before the first instant.
proof fn lemma_sum_none(kind: Kind, roster: Seq<RunView>, trip: TripView, n: int)
    ensures
        sum_before(kind, roster, trip, 0, n) == 0,
    decreases n,
{
    if n > 0 {
        lemma_sum_none(kind, roster, trip, n - 1);
        lemma_calls_none(roster[n - 1].calls, roster[n - 1].calls.len() as int);
    }
}

/// No call arrives before the first instant.
proof fn lemma_calls_none(calls: Seq<StopTimeView>, n: int)
    ensures
        calls_before(calls, 0, n) == 0,
    decreases n,
{
    if n > 0 {
        lemma_calls_none(calls, n - 1);
    }
}

/// By the end of time every run has started and ended, and every call has
/// arrived.
proof fn lemma_sum_all(kind: Kind, roster: Seq<RunView>, trip: TripView, n: int)
    requires
        0 <= n <= roster.len(),
        forall|i: int| 0 <= i < roster.len() ==> (#[trigger] roster[i]).calls.len() > 0,
    ensures
        sum_before(kind, roster, trip, u64::MAX + 1, n) == if kind is Arrival {
            calls_of_trip(roster, trip, n)
        } else {
            runs_of_trip(roster, trip, n)
        },
    decreases n,
{
    if n > 0 {
        lemma_sum_all(kind, roster, trip, n - 1);
        assert(roster[n - 1].calls.len() > 0);
        lemma_calls_all(roster[n - 1].calls, roster[n - 1].calls.len() as int);
    }
}

/// In the stream of a day, every trip starts as often as the roster has a
/// run of it, ends as often, and arrives as often as its runs have calls:
/// with each trip once in the roster, the trip starts once, ends once, and
/// makes each of its calls once.
pub proof fn lemma_day_counts(services: usize, roster: Seq<RunView>, trip: TripView)
    requires
        well_rostered(roster),
    ensures
        count(day_events(services, roster), of_kind(Kind::Start, trip)) == runs_of_trip(
            roster,
            trip,
            roster.len() as int,
        ),
        count(day_events(services, roster), of_kind(Kind::End, trip)) == runs_of_trip(
            roster,
            trip,
            roster.len() as int,
        ),
        count(day_events(services, roster), of_kind(Kind::Arrival, trip)) == calls_of_trip(
            roster,
            trip,
            roster.len() as int,
        ),
{
    let n = roster.len() as int;
    let opening = seq![EventView::StartEvents(services, roster.len() as usize)];
    let middle = events_until(roster, u64::MAX + 1);
    let close = seq![EventView::EndEvents];
    assert forall|i: int| 0 <= i < roster.len() implies (#[trigger] roster[i]).calls.len() > 0 by {
        assert(roster[i].well_formed());
    }
    assert(opening.drop_last() =~= Seq::<EventView>::empty());
    assert(close.drop_last() =~= Seq::<EventView>::empty());
    lemma_kind_counts(Kind::Start, opening, middle, close, trip);
    lemma_kind_counts(Kind::End, opening, middle, close, trip);
    lemma_kind_counts(Kind::Arrival, opening, middle, close, trip);
    lemma_count_until(Kind::Start, roster, trip, u64::MAX + 1);
    lemma_count_until(Kind::End, roster, trip, u64::MAX + 1);
    lemma_count_until(Kind::Arrival, roster, trip, u64::MAX + 1);
    lemma_sum_all(Kind::Start, roster, trip, n);
    lemma_sum_all(Kind::End, roster, trip, n);
    lemma_sum_all(Kind::Arrival, roster, trip, n);
}

/// The opening and the close are events of no trip.
proof fn lemma_kind_counts(
    kind: Kind,
    opening: Seq<EventView>,
    middle: Seq<EventView>,
    close: Seq<EventView>,
    trip: TripView,
)
    requires
        opening.len() == 1,
        close.len() == 1,
        opening[0] is StartEvents,
        close[0] is EndEvents,
    ensures
        count(opening + middle + close, of_kind(kind, trip)) == count(middle, of_kind(kind, trip)),
{
    let p = of_kind(kind, trip);
    lemma_count_add(opening, middle, p);
    lemma_count_add(opening + middle, close, p);
    assert(opening.drop_last() =~= Seq::<EventView>::empty());
    assert(close.drop_last() =~= Seq::<EventView>::empty());
    assert(count(opening.drop_last(), p) == 0);
    assert(count(close.drop_last(), p) == 0);
}

/// Every run starts and ends in the stream of its day, and does not end
/// before it starts.
pub proof fn lemma_day_has_run(services: usize, roster: Seq<RunView>, i: int)
    requires
        well_rostered(roster),
        0 <= i < roster.len(),
    ensures
        roster[i].first_arrival <= roster[i].calls.last().arrival_time,
        day_events(services, roster).contains(
            EventView::StartTrip(roster[i].first_arrival, roster[i].trip),
        ),
        day_events(services, roster).contains(
            EventView::EndTrip(roster[i].calls.last().arrival_time, roster[i].trip),
        ),
{
    let run = roster[i];
    assert(run.well_formed());
    assert(run.calls[0].arrival_time <= run.calls[run.calls.len() - 1].arrival_time);
    let n = roster.len() as int;
    let day = day_events(services, roster);
    let middle = events_until(roster, u64::MAX + 1);
    let first = run.first_arrival as int;
    let last = run.calls.last().arrival_time as int;
    let start = EventView::StartTrip(run.first_arrival, run.trip);
    let end = EventView::EndTrip(run.calls.last().arrival_time, run.trip);
    lemma_starts_hold(roster, first, n, i);
    lemma_progress_holds(roster, last, n, i);
    let k = choose|k: int| 0 <= k < starts_upto(roster, first, n).len() && starts_upto(roster, first, n)[k]
        == start;
    assert(tick_events(roster, first)[k] == start);
    lemma_until_holds(roster, u64::MAX + 1, first, start);
    let k = choose|k: int|
        0 <= k < progress_upto(roster, last, n).len() && progress_upto(roster, last, n)[k] == end;
    assert(tick_events(roster, last)[starts_upto(roster, last, n).len() + k] == end);
    lemma_until_holds(roster, u64::MAX + 1, last, end);
    let a = choose|a: int| 0 <= a < middle.len() && middle[a] == start;
    assert(day[a + 1] == start);
    let b = choose|b: int| 0 <= b < middle.len() && middle[b] == end;
    assert(day[b + 1] == end);
}

/// The starts of an instant hold the start of every run that starts then.
proof fn lemma_starts_hold(roster: Seq<RunView>, t: int, n: int, i: int)
    requires
        0 <= i < n <= roster.len(),
        roster[i].first_arrival == t,
    ensures
        starts_upto(roster, t, n).contains(EventView::StartTrip(t as u64, roster[i].trip)),
    decreases n,
{
    let e = EventView::StartTrip(t as u64, roster[i].trip);
    let all = starts_upto(roster, t, n);
    if i == n - 1 {
        assert(all[all.len() - 1] == e);
    } else {
        lemma_starts_hold(roster, t, n - 1, i);
        let front = starts_upto(roster, t, n - 1);
        let k = choose|k: int| 0 <= k < front.len() && front[k] == e;
        assert(all[k] == e);
    }
}

/// What the runs do at an instant holds the end of every run whose last
/// call arrives then.
proof fn lemma_progress_holds(roster: Seq<RunView>, t: int, n: int, i: int)
    requires
        0 <= i < n <= roster.len(),
        roster[i].calls.len() > 0,
        roster[i].calls.last().arrival_time == t,
    ensures
        progress_upto(roster, t, n).contains(EventView::EndTrip(t as u64, roster[i].trip)),
    decreases n,
{
    let e = EventView::EndTrip(t as u64, roster[i].trip);
    let all = progress_upto(roster, t, n);
    let front = progress_upto(roster, t, n - 1);
    if i == n - 1 {
        let own = progress_of(roster[i], t);
        assert(own[own.len() - 1] == e);
        assert(all[front.len() + own.len() - 1] == e);
    } else {
        lemma_progress_holds(roster, t, n - 1, i);
        let k = choose|k: int| 0 <= k < front.len() && front[k] == e;
        assert(all[k] == e);
    }
}

/// The events before an instant hold the events of every earlier instant.
proof fn lemma_until_holds(roster: Seq<RunView>, t: int, at: int, e: EventView)
    requires
        0 <= at < t,
        tick_events(roster, at).contains(e),
    ensures
        events_until(roster, t).contains(e),
    decreases t,
{
    let all = events_until(roster, t);
    let front = events_until(roster, t - 1);
    if at == t - 1 {
        let tick = tick_events(roster, at);
        let k = choose|k: int| 0 <= k < tick.len() && tick[k] == e;
        assert(all[front.len() + k] == e);
    } else {
        lemma_until_holds(roster, t - 1, at, e);
        let k = choose|k: int| 0 <= k < front.len() && front[k] == e;
        assert(all[k] == e);
    }
}

/// Rosters that begin alike have the same totals over their beginnings.
proof fn lemma_totals_agree(a: Seq<RunView>, b: Seq<RunView>, trip: TripView, n: int)
    requires
        n <= a.len(),
        n <= b.len(),
        forall|i: int| 0 <= i < n ==> a[i] == b[i],
    ensures
        runs_of_trip(a, trip, n) == runs_of_trip(b, trip, n),
        calls_of_trip(a, trip, n) == calls_of_trip(b, trip, n),
    decreases n,
{
    if n > 0 {
        lemma_totals_agree(a, b, trip, n - 1);
    }
}

/// A run put into a roster adds itself to the totals of its trip.
proof fn lemma_totals_insert(x: Seq<RunView>, p: int, e: RunView, trip: TripView)
    requires
        0 <= p <= x.len(),
    ensures
        runs_of_trip(x.insert(p, e), trip, x.len() as int + 1) == runs_of_trip(x, trip, x.len() as int) + (if e.trip
            == trip {
            1nat
        } else {
            0nat
        }),
        calls_of_trip(x.insert(p, e), trip, x.len() as int + 1) == calls_of_trip(x, trip, x.len() as int) + (if e.trip
            == trip {
            e.calls.len()
        } else {
            0nat
        }),
    decreases x.len() - p,
{
    let y = x.insert(p, e);
    let n = x.len() as int;
    if p == n {
        assert(y[n] == e);
        lemma_totals_agree(y, x, trip, n);
    } else {
        let front = x.drop_last();
        lemma_totals_insert(front, p, e, trip);
        assert(y[n] == x[n - 1]);
        lemma_totals_agree(y, front.insert(p, e), trip, n);
        lemma_totals_agree(x, front, trip, n - 1);
    }
}

/// Sorting a roster leaves the totals of every trip as they are.
proof fn lemma_totals_sorted(s: Seq<RunView>, trip: TripView)
    ensures
        stable_sort::<Run>(s).len() == s.len(),
        runs_of_trip(stable_sort::<Run>(s), trip, s.len() as int) == runs_of_trip(s, trip, s.len() as int),
        calls_of_trip(stable_sort::<Run>(s), trip, s.len() as int) == calls_of_trip(
            s,
            trip,
            s.len() as int,
        ),
    decreases s.len(),
{
    lemma_stable_sort::<Run>(s);
    if s.len() > 0 {
        let front = s.drop_last();
        let sorted = stable_sort::<Run>(front);
        lemma_totals_sorted(front, trip);
        lemma_stable_sort::<Run>(front);
        lemma_place_of::<Run>(sorted, s.last());
        lemma_totals_insert(sorted, place_of::<Run>(sorted, s.last()), s.last(), trip);
        lemma_totals_agree(s, front, trip, s.len() - 1);
    }
}

/// Among the runs of trips that are all different, a trip has one run and
/// the calls of that run where it is one of them, and none else.
proof fn lemma_totals_of_trips(
    v: FeedView,
    trips: Seq<TripView>,
    test: spec_fn(TripView) -> bool,
    trip: TripView,
)
    requires
        trips.no_duplicates(),
    ensures
        runs_of_trip(
            trips.filter(test).map_values(run_of(v)),
            trip,
            trips.filter(test).len() as int,
        ) == (if trips.contains(trip) && test(trip) {
            1nat
        } else {
            0nat
        }),
        calls_of_trip(
            trips.filter(test).map_values(run_of(v)),
            trip,
            trips.filter(test).len() as int,
        ) == (if trips.contains(trip) && test(trip) {
            v.calls(trip.id)->0.len()
        } else {
            0nat
        }),
    decreases trips.len(),
{
    reveal(Seq::filter);
    if trips.len() > 0 {
        let front = trips.drop_last();
        let last = trips.last();
        assert forall|i: int, j: int| 0 <= i < front.len() && 0 <= j < front.len() && i != j implies front[i]
            != front[j] by {
            assert(front[i] == trips[i] && front[j] == trips[j]);
        }
        lemma_totals_of_trips(v, front, test, trip);
        let kept = front.filter(test);
        let runs = kept.map_values(run_of(v));
        assert(!front.contains(last)) by {
            if front.contains(last) {
                let i = choose|i: int| 0 <= i < front.len() && front[i] == last;
                assert(trips[i] == trips[trips.len() - 1]);
            }
        }
        assert(front.contains(trip) || last == trip <==> trips.contains(trip)) by {
            if front.contains(trip) {
                let i = choose|i: int| 0 <= i < front.len() && front[i] == trip;
                assert(trips[i] == trip);
            }
            if last == trip {
                assert(trips[trips.len() - 1] == trip);
            }
            if trips.contains(trip) {
                let i = choose|i: int| 0 <= i < trips.len() && trips[i] == trip;
                if i < front.len() {
                    assert(front[i] == trip);
                }
            }
        }
        if test(last) {
            let all = trips.filter(test).map_values(run_of(v));
            assert(all =~= runs.push(run_of(v)(last)));
            lemma_totals_agree(all, runs, trip, runs.len() as int);
        }
    } else {
        assert(trips.filter(test) =~= Seq::<TripView>::empty());
    }
}

/// In the stream of a day, every trip of the agency that runs on the day
/// starts once, ends once, and arrives once for each of its calls; no other
/// trip starts, ends or arrives.
pub proof fn lemma_schedule_counts(
    v: FeedView,
    agency: Seq<char>,
    day: Weekday,
    date: Date,
    trip: TripView,
)
    requires
        well_formed(v),
        v.roster_fault(agency, day, date) is None,
    ensures
        schedule_of(v, agency, day, date) is Ok,
        count(schedule_of(v, agency, day, date)->Ok_0, of_kind(Kind::Start, trip)) == (if v.agency_trips(
            agency,
            day,
            date,
        ).contains(trip) {
            1nat
        } else {
            0nat
        }),
        count(schedule_of(v, agency, day, date)->Ok_0, of_kind(Kind::End, trip)) == (if v.agency_trips(
            agency,
            day,
            date,
        ).contains(trip) {
            1nat
        } else {
            0nat
        }),
        count(schedule_of(v, agency, day, date)->Ok_0, of_kind(Kind::Arrival, trip)) == (
        if v.agency_trips(agency, day, date).contains(trip) {
            v.calls(trip.id)->0.len()
        } else {
            0nat
        }),
{
    let test = selected(v, agency, day, date);
    let trips = v.agency_trips(agency, day, date);
    let runs = trips.map_values(run_of(v));
    let roster = v.roster(agency, day, date);
    let services = v.services_on(day, date).len() as usize;
    lemma_roster_well_formed(v, agency, day, date);
    lemma_day_counts(services, roster, trip);
    lemma_totals_sorted(runs, trip);
    assert(v.trips.no_duplicates()) by {
        assert forall|i: int, j: int| 0 <= i < v.trips.len() && 0 <= j < v.trips.len() && i != j implies v.trips[i]
            != v.trips[j] by {
            if i < j {
                assert(Trip::key_of(v.trips[i]) != Trip::key_of(v.trips[j]));
            } else {
                assert(Trip::key_of(v.trips[j]) != Trip::key_of(v.trips[i]));
            }
        }
    }
    lemma_totals_of_trips(v, v.trips, test, trip);
    assert(trips.contains(trip) <==> v.trips.contains(trip) && test(trip)) by {
        if trips.contains(trip) {
            let k = choose|k: int| 0 <= k < trips.len() && trips[k] == trip;
            lemma_filter_from(v.trips, test, k);
        }
        if v.trips.contains(trip) && test(trip) {
            let i = choose|i: int| 0 <= i < v.trips.len() && v.trips[i] == trip;
            lemma_filter_has(v.trips, test, i);
        }
    }
}

/// On a day on which no trip of the feed runs, the stream of every agency is
/// the opening and the close, and nothing else; so it is on a day on which
/// trips run, none of them a trip of the agency, where all of them are on
/// routes of the feed.
pub proof fn lemma_schedule_without_trips(v: FeedView, agency: Seq<char>, day: Weekday, date: Date)
    requires
        v.agency_trips(agency, day, date).len() == 0,
        v.day_trips(day, date).len() == 0 || v.roster_fault(agency, day, date) is None,
    ensures
        schedule_of(v, agency, day, date) == Ok::<Seq<EventView>, ScheduleError>(
            seq![
                EventView::StartEvents(v.services_on(day, date).len() as usize, 0),
                EventView::EndEvents,
            ],
        ),
{
    let trips = v.agency_trips(agency, day, date);
    assert(trips.map_values(run_of(v)) =~= Seq::<RunView>::empty());
    assert(v.roster(agency, day, date) =~= Seq::<RunView>::empty());
    lemma_day_frame(v.services_on(day, date).len() as usize, v.roster(agency, day, date));
}

} // verus!
