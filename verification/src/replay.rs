//! Replaying a roster: the stream of events of the day, instant by
//! instant.
//!
//! At an instant, first every run that starts then is started, in the
//! order of the roster. Then every run under way, in the order of the
//! roster, makes the calls that arrive then, and ends where the last of its
//! calls has arrived.

use crate::events::{day_roster, well_rostered, Event, EventView, Run, RunView, ScheduleError};
use crate::feed::{Feed, FeedView};
use crate::model::{Date, Weekday};
use crate::stream::{in_time_order, lemma_day_in_time_order};
use vstd::prelude::*;

verus! {

/// The starts at the instant `t` among the first `n` runs of the roster.
pub open spec fn starts_upto(roster: Seq<RunView>, t: int, n: int) -> Seq<EventView>
    decreases n,
{
    if n <= 0 {
        Seq::empty()
    } else if roster[n - 1].first_arrival == t {
        starts_upto(roster, t, n - 1).push(EventView::StartTrip(t as u64, roster[n - 1].trip))
    } else {
        starts_upto(roster, t, n - 1)
    }
}

/// The arrivals at the instant `t` among the first `n` calls of a run.
pub open spec fn arrivals_upto(run: RunView, t: int, n: int) -> Seq<EventView>
    decreases n,
{
    if n <= 0 {
        Seq::empty()
    } else if run.calls[n - 1].arrival_time == t {
        arrivals_upto(run, t, n - 1).push(
            EventView::StopArrival(t as u64, run.trip, run.calls[n - 1]),
        )
    } else {
        arrivals_upto(run, t, n - 1)
    }
}

/// What a run does at the instant `t`: the calls that arrive then, and its
/// end where the last call is one of them.
pub open spec fn progress_of(run: RunView, t: int) -> Seq<EventView> {
    let arrivals = arrivals_upto(run, t, run.calls.len() as int);
    if run.calls.len() > 0 && run.calls.last().arrival_time == t {
        arrivals.push(EventView::EndTrip(t as u64, run.trip))
    } else {
        arrivals
    }
}

/// What the first `n` runs of the roster do at the instant `t`.
pub open spec fn progress_upto(roster: Seq<RunView>, t: int, n: int) -> Seq<EventView>
    decreases n,
{
    if n <= 0 {
        Seq::empty()
    } else {
        progress_upto(roster, t, n - 1) + progress_of(roster[n - 1], t)
    }
}

/// The events of the instant `t`: the starts, then what the runs do.
pub open spec fn tick_events(roster: Seq<RunView>, t: int) -> Seq<EventView> {
    starts_upto(roster, t, roster.len() as int) + progress_upto(roster, t, roster.len() as int)
}

/// The events of all instants before `t`, in the order of time.
pub open spec fn events_until(roster: Seq<RunView>, t: int) -> Seq<EventView>
    decreases t,
{
    if t <= 0 {
        Seq::empty()
    } else {
        events_until(roster, t - 1) + tick_events(roster, t - 1)
    }
}

/// The stream of a day: the opening with the two counts, the events of
/// every instant in the order of time, and the close.
pub open spec fn day_events(services: usize, roster: Seq<RunView>) -> Seq<EventView> {
    seq![EventView::StartEvents(services, roster.len() as usize)] + events_until(
        roster,
        u64::MAX + 1,
    ) + seq![EventView::EndEvents]
}

/// Whether no call of `run` arrives at the instant `t`.
pub open spec fn quiet(run: RunView, t: int) -> bool {
    forall|k: int| 0 <= k < run.calls.len() ==> (#[trigger] run.calls[k]).arrival_time != t
}

/// Whether no call of any run arrives at the instant `t`.
pub open spec fn all_quiet(roster: Seq<RunView>, t: int) -> bool {
    forall|i: int| 0 <= i < roster.len() ==> quiet(#[trigger] roster[i], t)
}

/// Calls that arrive at other instants add no arrival.
pub proof fn lemma_arrivals_quiet(run: RunView, t: int, a: int, b: int)
    requires
        0 <= a <= b <= run.calls.len(),
        forall|k: int| a <= k < b ==> (#[trigger] run.calls[k]).arrival_time != t,
    ensures
        arrivals_upto(run, t, b) == arrivals_upto(run, t, a),
    decreases b - a,
{
    if a < b {
        lemma_arrivals_quiet(run, t, a, b - 1);
    }
}

/// A run of which no call arrives at an instant does nothing then.
pub proof fn lemma_progress_of_quiet(run: RunView, t: int)
    requires
        quiet(run, t),
    ensures
        progress_of(run, t) == Seq::<EventView>::empty(),
{
    lemma_arrivals_quiet(run, t, 0, run.calls.len() as int);
}

/// Runs of which no call arrives at an instant add nothing then.
pub proof fn lemma_progress_quiet(roster: Seq<RunView>, t: int, a: int, b: int)
    requires
        0 <= a <= b <= roster.len(),
        forall|i: int| a <= i < b ==> quiet(#[trigger] roster[i], t),
    ensures
        progress_upto(roster, t, b) == progress_upto(roster, t, a),
    decreases b - a,
{
    if a < b {
        lemma_progress_quiet(roster, t, a, b - 1);
        lemma_progress_of_quiet(roster[b - 1], t);
        assert(progress_upto(roster, t, b - 1) + Seq::<EventView>::empty() =~= progress_upto(
            roster,
            t,
            b - 1,
        ));
    }
}

/// Runs that start at other instants add no start.
pub proof fn lemma_starts_quiet(roster: Seq<RunView>, t: int, a: int, b: int)
    requires
        0 <= a <= b <= roster.len(),
        forall|i: int| a <= i < b ==> (#[trigger] roster[i]).first_arrival != t,
    ensures
        starts_upto(roster, t, b) == starts_upto(roster, t, a),
    decreases b - a,
{
    if a < b {
        lemma_starts_quiet(roster, t, a, b - 1);
    }
}

/// An instant at which no call arrives has no events.
pub proof fn lemma_tick_quiet(roster: Seq<RunView>, t: int)
    requires
        all_quiet(roster, t),
        forall|i: int| 0 <= i < roster.len() ==> (#[trigger] roster[i]).well_formed(),
    ensures
        tick_events(roster, t) == Seq::<EventView>::empty(),
{
    assert forall|i: int| 0 <= i < roster.len() implies (#[trigger] roster[i]).first_arrival != t by {
        assert(roster[i].well_formed());
        assert(quiet(roster[i], t));
        assert(roster[i].calls[0].arrival_time != t);
    }
    lemma_starts_quiet(roster, t, 0, roster.len() as int);
    lemma_progress_quiet(roster, t, 0, roster.len() as int);
    assert(Seq::<EventView>::empty() + Seq::<EventView>::empty() =~= Seq::<EventView>::empty());
}

/// Instants at which no call arrives add no events.
pub proof fn lemma_events_quiet(roster: Seq<RunView>, a: int, b: int)
    requires
        0 <= a <= b,
        forall|t: int| a <= t < b ==> all_quiet(roster, t),
        forall|i: int| 0 <= i < roster.len() ==> (#[trigger] roster[i]).well_formed(),
    ensures
        events_until(roster, b) == events_until(roster, a),
    decreases b - a,
{
    if a < b {
        lemma_events_quiet(roster, a, b - 1);
        assert(all_quiet(roster, b - 1));
        lemma_tick_quiet(roster, b - 1);
        assert(events_until(roster, b - 1) + Seq::<EventView>::empty() =~= events_until(
            roster,
            b - 1,
        ));
    }
}

/// Whether `done` calls of `run` arrive before the instant `t`, and the
/// others do not.
pub open spec fn cut_at(run: RunView, done: int, t: int) -> bool {
    &&& 0 <= done <= run.calls.len()
    &&& forall|k: int| 0 <= k < done ==> (#[trigger] run.calls[k]).arrival_time < t
    &&& forall|k: int| done <= k < run.calls.len() ==> (#[trigger] run.calls[k]).arrival_time >= t
}

/// A run under way: its place in the roster, and how many of its calls
/// have arrived.
#[derive(Clone, Copy, Debug, PartialEq, Eq)]
pub struct Progress {
    pub index: usize,
    pub offset: usize,
}

/// Whether `running` lists the runs below `bound` that have calls to come,
/// in the order of the roster, each with the number of its calls that have
/// arrived.
pub open spec fn lists(
    running: Seq<Progress>,
    done: Seq<int>,
    roster: Seq<RunView>,
    bound: int,
) -> bool {
    &&& forall|j: int|
        0 <= j < running.len() ==> 0 <= (#[trigger] running[j]).index < bound && running[j].offset
            == done[running[j].index as int] && running[j].offset
            < roster[running[j].index as int].calls.len()
    &&& forall|a: int, b: int|
        0 <= a < b < running.len() ==> (#[trigger] running[a]).index < (#[trigger] running[b]).index
    &&& forall|i: int|
        0 <= i < bound && #[trigger] done[i] < roster[i].calls.len() ==> exists|j: int|
            0 <= j < running.len() && (#[trigger] running[j]).index == i
}

/// Makes the calls of `run` that arrive at the instant `now`, from the
/// call at `offset` on, and ends the run where its last call is one of them.
/// What comes back is the number of calls that have arrived by then.
fn advance(run: &Run, offset: usize, now: u64, out: &mut Vec<Event>) -> (next: usize)
    requires
        run.deep_view().well_formed(),
        offset < run.calls.len(),
        cut_at(run.deep_view(), offset as int, now as int),
    ensures
        final(out).deep_view() == old(out).deep_view() + progress_of(run.deep_view(), now as int),
        offset <= next <= run.calls.len(),
        cut_at(run.deep_view(), next as int, now + 1),
{
    let ghost rv = run.deep_view();
    let ghost base = out.deep_view();
    let n: usize = run.calls.len();
    let mut off: usize = offset;
    proof {
        lemma_arrivals_quiet(rv, now as int, 0, offset as int);
        assert(base + Seq::<EventView>::empty() =~= base);
    }
    while off < n && run.calls[off].arrival_time == now
        invariant
            offset <= off <= n == run.calls.len(),
            rv == run.deep_view(),
            rv.well_formed(),
            cut_at(rv, offset as int, now as int),
            out.deep_view() == base + arrivals_upto(rv, now as int, off as int),
            forall|k: int| offset <= k < off ==> (#[trigger] rv.calls[k]).arrival_time == now,
        decreases n - off,
    {
        let ghost before = out.deep_view();
        assert(rv.calls[off as int] == run.calls@[off as int].deep_view());
        let event = Event::StopArrival(now, run.trip.clone(), run.calls[off].clone());
        out.push(event);
        assert(out.deep_view() =~= before.push(
            EventView::StopArrival(now, rv.trip, rv.calls[off as int]),
        ));
        assert(out.deep_view() =~= base + arrivals_upto(rv, now as int, off + 1));
        off = off + 1;
    }
    proof {
        if off < n {
            assert(rv.calls[off as int] == run.calls@[off as int].deep_view());
            assert(rv.calls[off as int].arrival_time > now);
            assert forall|k: int| off <= k < n implies (#[trigger] rv.calls[k]).arrival_time > now by {
                assert(rv.calls[off as int].arrival_time <= rv.calls[k].arrival_time);
            }
        }
        lemma_arrivals_quiet(rv, now as int, off as int, n as int);
    }
    if off == n {
        let ghost before = out.deep_view();
        out.push(Event::EndTrip(now, run.trip.clone()));
        assert(out.deep_view() =~= before.push(EventView::EndTrip(now, rv.trip)));
        assert(rv.calls[n - 1].arrival_time == now);
    } else {
        assert(rv.calls[n - 1].arrival_time > now);
    }
    off
}

/// What holds between two instants: of every run, `done[i]` calls arrive
/// before the instant `now`; the first `started` runs start before it, the
/// others do not; and `running` lists the runs that are under way.
pub open spec fn on_time(
    roster: Seq<RunView>,
    done: Seq<int>,
    running: Seq<Progress>,
    started: int,
    now: int,
) -> bool {
    &&& done.len() == roster.len()
    &&& 0 <= started <= roster.len()
    &&& forall|i: int| 0 <= i < roster.len() ==> cut_at(#[trigger] roster[i], done[i], now)
    &&& forall|i: int| 0 <= i < started ==> (#[trigger] roster[i]).first_arrival < now
    &&& started < roster.len() ==> roster[started].first_arrival >= now
    &&& lists(running, done, roster, started)
}

/// Starts the runs whose first call arrives at the instant `now`. What
/// comes back is the number of runs that have started by then.
fn commence(
    roster: &Vec<Run>,
    now: u64,
    started: usize,
    running: &mut Vec<Progress>,
    out: &mut Vec<Event>,
    Ghost(done): Ghost<Seq<int>>,
) -> (next: usize)
    requires
        well_rostered(roster.deep_view()),
        on_time(roster.deep_view(), done, old(running)@, started as int, now as int),
    ensures
        started <= next <= roster.len(),
        final(out).deep_view() == old(out).deep_view() + starts_upto(
            roster.deep_view(),
            now as int,
            roster.len() as int,
        ),
        lists(final(running)@, done, roster.deep_view(), next as int),
        forall|i: int| 0 <= i < next ==> (#[trigger] roster.deep_view()[i]).first_arrival <= now,
        forall|i: int|
            next <= i < roster.len() ==> (#[trigger] roster.deep_view()[i]).first_arrival > now,
{
    let ghost rv = roster.deep_view();
    let ghost base = out.deep_view();
    let n: usize = roster.len();
    let mut s: usize = started;
    proof {
        lemma_starts_quiet(rv, now as int, 0, started as int);
        assert(base + Seq::<EventView>::empty() =~= base);
    }
    while s < n && roster[s].first_arrival == now
        invariant
            started <= s <= n == roster.len(),
            rv == roster.deep_view(),
            well_rostered(rv),
            done.len() == n,
            forall|i: int| 0 <= i < n ==> cut_at(#[trigger] rv[i], done[i], now as int),
            s < n ==> rv[s as int].first_arrival >= now,
            out.deep_view() == base + starts_upto(rv, now as int, s as int),
            lists(running@, done, rv, s as int),
            forall|i: int| 0 <= i < s ==> (#[trigger] rv[i]).first_arrival <= now,
        decreases n - s,
    {
        let ghost before = out.deep_view();
        let ghost listed = running@;
        proof {
            assert(rv[s as int] == roster@[s as int].deep_view());
            assert(rv[s as int].well_formed());
            assert(cut_at(rv[s as int], done[s as int], now as int));
            if done[s as int] > 0 {
                assert(rv[s as int].calls[0].arrival_time < now);
            }
        }
        out.push(Event::StartTrip(now, roster[s].trip.clone()));
        running.push(Progress { index: s, offset: 0 });
        proof {
            assert(out.deep_view() =~= before.push(EventView::StartTrip(now, rv[s as int].trip)));
            assert(out.deep_view() =~= base + starts_upto(rv, now as int, s + 1));
            let after = running@;
            assert forall|j: int| 0 <= j < after.len() implies 0 <= (#[trigger] after[j]).index < s
                + 1 && after[j].offset == done[after[j].index as int] && after[j].offset
                < rv[after[j].index as int].calls.len() by {
                if j < listed.len() {
                    assert(after[j] == listed[j]);
                }
            }
            assert forall|a: int, b: int| 0 <= a < b < after.len() implies (#[trigger] after[a]).index
                < (#[trigger] after[b]).index by {
                assert(after[a] == listed[a]);
                if b < listed.len() {
                    assert(after[b] == listed[b]);
                }
            }
            assert forall|i: int| 0 <= i < s + 1 && #[trigger] done[i] < rv[i].calls.len() implies exists|
                j: int,
            |
                0 <= j < after.len() && (#[trigger] after[j]).index == i by {
                if i < s {
                    let j = choose|j: int| 0 <= j < listed.len() && (#[trigger] listed[j]).index == i;
                    assert(after[j] == listed[j]);
                } else {
                    assert(after[listed.len() as int].index == s);
                }
            }
            if s + 1 < n {
                assert(rv[s as int].first_arrival <= rv[s + 1].first_arrival);
            }
        }
        s = s + 1;
    }
    proof {
        if s < n {
            assert(rv[s as int] == roster@[s as int].deep_view());
            assert forall|i: int| s <= i < n implies (#[trigger] rv[i]).first_arrival > now by {
                assert(rv[s as int].first_arrival <= rv[i].first_arrival);
            }
        }
        lemma_starts_quiet(rv, now as int, s as int, n as int);
    }
    s
}

/// The earlier of an instant that may not be there and another.
fn sooner(a: Option<u64>, b: u64) -> (r: u64)
    ensures
        r <= b,
        a is Some ==> r <= a->0,
        r == b || a == Some(r),
{
    match a {
        Some(t) => if t < b {
            t
        } else {
            b
        },
        None => b,
    }
}

/// Whether every call to come is due at the instant `t` or later.
pub open spec fn due_from(roster: Seq<RunView>, done: Seq<int>, bound: int, t: int) -> bool {
    forall|i: int, k: int|
        0 <= i < bound && done[i] <= k < roster[i].calls.len() ==> (
        #[trigger] roster[i].calls[k]).arrival_time >= t
}

/// Whether the runs from `from` up to `to` have no calls to come.
pub open spec fn all_done(roster: Seq<RunView>, done: Seq<int>, from: int, to: int) -> bool {
    forall|i: int| from <= i < to ==> #[trigger] done[i] == roster[i].calls.len()
}

/// A run that `running` does not list between two that it lists, or before
/// its first or after its last, has no calls to come.
proof fn lemma_unlisted_done(
    running: Seq<Progress>,
    done: Seq<int>,
    roster: Seq<RunView>,
    started: int,
    j: int,
    from: int,
    to: int,
)
    requires
        lists(running, done, roster, started),
        done.len() == roster.len(),
        forall|i: int| 0 <= i < roster.len() ==> 0 <= #[trigger] done[i] <= roster[i].calls.len(),
        0 <= j <= running.len(),
        0 <= from <= to <= started <= roster.len(),
        j > 0 ==> running[j - 1].index < from,
        j < running.len() ==> to <= running[j].index,
    ensures
        all_done(roster, done, from, to),
{
    assert forall|i: int| from <= i < to implies #[trigger] done[i] == roster[i].calls.len() by {
        if done[i] < roster[i].calls.len() {
            let w = choose|w: int| 0 <= w < running.len() && (#[trigger] running[w]).index == i;
            if w < j {
                if w < j - 1 {
                    assert(running[w].index < running[j - 1].index);
                }
            } else {
                if w > j {
                    assert(running[j].index < running[w].index);
                }
            }
        }
    }
}

/// Lets every run under way make the calls that arrive at the instant
/// `now`. What comes back is the runs that are still under way, the next
/// instant at which a call arrives, where there is one, and for every run
/// the number of its calls that have arrived by then.
fn progress(
    roster: &Vec<Run>,
    running: &Vec<Progress>,
    started: usize,
    now: u64,
    out: &mut Vec<Event>,
    Ghost(done): Ghost<Seq<int>>,
) -> (r: (Vec<Progress>, Option<u64>, Ghost<Seq<int>>))
    requires
        well_rostered(roster.deep_view()),
        done.len() == roster.len(),
        started <= roster.len(),
        forall|i: int|
            0 <= i < roster.len() ==> cut_at(#[trigger] roster.deep_view()[i], done[i], now as int),
        forall|i: int| 0 <= i < started ==> (#[trigger] roster.deep_view()[i]).first_arrival <= now,
        forall|i: int|
            started <= i < roster.len() ==> (#[trigger] roster.deep_view()[i]).first_arrival > now,
        lists(running@, done, roster.deep_view(), started as int),
    ensures
        final(out).deep_view() == old(out).deep_view() + progress_upto(
            roster.deep_view(),
            now as int,
            roster.len() as int,
        ),
        r.2@.len() == roster.len(),
        forall|i: int|
            0 <= i < roster.len() ==> cut_at(#[trigger] roster.deep_view()[i], r.2@[i], now + 1),
        lists(r.0@, r.2@, roster.deep_view(), started as int),
        match r.1 {
            Some(t) => t > now && due_from(roster.deep_view(), r.2@, roster.len() as int, t as int)
                && (started < roster.len() ==> t <= roster.deep_view()[started as int].first_arrival),
            None => started == roster.len() && all_done(
                roster.deep_view(),
                r.2@,
                0,
                roster.len() as int,
            ),
        },
{
    let ghost rv = roster.deep_view();
    let ghost base = out.deep_view();
    let n: usize = roster.len();
    let mut next: Option<u64> = if started < n {
        assert(rv[started as int] == roster@[started as int].deep_view());
        Some(roster[started].first_arrival)
    } else {
        None
    };
    let mut keep: Vec<Progress> = Vec::new();
    let ghost mut after: Seq<int> = done;
    let ghost mut bound: int = 0;
    let mut j: usize = 0;
    assert(base + Seq::<EventView>::empty() =~= base);
    while j < running.len()
        invariant
            j <= running.len(),
            n == roster.len(),
            started <= n,
            rv == roster.deep_view(),
            well_rostered(rv),
            done.len() == n,
            after.len() == n,
            forall|i: int| 0 <= i < n ==> cut_at(#[trigger] rv[i], done[i], now as int),
            lists(running@, done, rv, started as int),
            0 <= bound <= started,
            j > 0 ==> running@[j - 1].index < bound,
            j < running.len() ==> bound <= running@[j as int].index,
            out.deep_view() == base + progress_upto(rv, now as int, bound),
            forall|i: int| bound <= i < n ==> #[trigger] after[i] == done[i],
            forall|i: int| 0 <= i < bound ==> cut_at(#[trigger] rv[i], after[i], now + 1),
            lists(keep@, after, rv, bound),
            match next {
                Some(t) => t > now && due_from(rv, after, bound, t as int) && (started < n ==> t
                    <= rv[started as int].first_arrival),
                None => started == n && all_done(rv, after, 0, bound),
            },
        decreases running.len() - j,
    {
        let at = running[j];
        let index: usize = at.index;
        let ghost kept = keep@;
        let ghost sofar = after;
        let ghost low = bound;
        proof {
            assert(0 <= running@[j as int].index < started);
            assert(rv[index as int] == roster@[index as int].deep_view());
            assert(rv[index as int].well_formed());
            assert(cut_at(rv[index as int], done[index as int], now as int));
            lemma_unlisted_done(running@, done, rv, started as int, j as int, low, index as int);
            assert forall|i: int| low <= i < index implies quiet(#[trigger] rv[i], now as int) by {
                assert(cut_at(rv[i], done[i], now as int));
                assert(done[i] == rv[i].calls.len());
            }
            lemma_progress_quiet(rv, now as int, low, index as int);
        }
        let run = &roster[index];
        let ghost before = out.deep_view();
        let offset: usize = advance(run, at.offset, now, out);
        proof {
            assert(out.deep_view() =~= base + progress_upto(rv, now as int, index + 1)) by {
                assert(out.deep_view() == before + progress_of(rv[index as int], now as int));
                assert(before == base + progress_upto(rv, now as int, index as int));
            }
            after = sofar.update(index as int, offset as int);
            bound = index + 1;
            assert forall|i: int| 0 <= i < bound implies cut_at(#[trigger] rv[i], after[i], now + 1) by {
                if i < low {
                    assert(after[i] == sofar[i]);
                } else if i < index {
                    assert(cut_at(rv[i], done[i], now as int));
                    assert(after[i] == done[i]);
                    assert(done[i] == rv[i].calls.len());
                }
            }
        }
        if offset < run.calls.len() {
            assert(rv[index as int].calls[offset as int] == run.calls@[offset as int].deep_view());
            let due: u64 = run.calls[offset].arrival_time;
            let ghost waited = next;
            next = Some(sooner(next, due));
            keep.push(Progress { index, offset });
            proof {
                let t = next->0;
                assert(cut_at(rv[index as int], offset as int, now + 1));
                assert(rv[index as int].calls[offset as int].arrival_time >= now + 1);
                assert forall|i: int, k: int|
                    0 <= i < bound && after[i] <= k < rv[i].calls.len() implies (
                #[trigger] rv[i].calls[k]).arrival_time >= t by {
                    if i < low {
                        assert(after[i] == sofar[i]);
                        assert(waited is Some);
                        assert(rv[i].calls[k].arrival_time >= waited->0);
                    } else if i < index {
                        assert(after[i] == done[i]);
                        assert(done[i] == rv[i].calls.len());
                    } else {
                        assert(rv[i].calls[offset as int].arrival_time <= rv[i].calls[k].arrival_time);
                    }
                }
            }
        } else {
            proof {
                match next {
                    Some(t) => {
                        assert forall|i: int, k: int|
                            0 <= i < bound && after[i] <= k < rv[i].calls.len() implies (
                        #[trigger] rv[i].calls[k]).arrival_time >= t by {
                            if i < low {
                                assert(after[i] == sofar[i]);
                            } else if i < index {
                                assert(after[i] == done[i]);
                                assert(done[i] == rv[i].calls.len());
                            }
                        }
                    },
                    None => {
                        assert forall|i: int| 0 <= i < bound implies #[trigger] after[i]
                            == rv[i].calls.len() by {
                            if i < low {
                                assert(after[i] == sofar[i]);
                            } else if i < index {
                                assert(after[i] == done[i]);
                                assert(done[i] == rv[i].calls.len());
                            }
                        }
                    },
                }
            }
        }
        proof {
            let listed = keep@;
            assert forall|w: int| 0 <= w < listed.len() implies 0 <= (#[trigger] listed[w]).index
                < bound && listed[w].offset == after[listed[w].index as int] && listed[w].offset
                < rv[listed[w].index as int].calls.len() by {
                if w < kept.len() {
                    assert(listed[w] == kept[w]);
                    assert(kept[w].index < low);
                }
            }
            assert forall|a: int, b: int| 0 <= a < b < listed.len() implies (
            #[trigger] listed[a]).index < (#[trigger] listed[b]).index by {
                assert(listed[a] == kept[a]);
                if b < kept.len() {
                    assert(listed[b] == kept[b]);
                }
            }
            assert forall|i: int| 0 <= i < bound && #[trigger] after[i] < rv[i].calls.len() implies exists|
                w: int,
            |
                0 <= w < listed.len() && (#[trigger] listed[w]).index == i by {
                if i < low {
                    assert(after[i] == sofar[i]);
                    let w = choose|w: int| 0 <= w < kept.len() && (#[trigger] kept[w]).index == i;
                    assert(listed[w] == kept[w]);
                } else if i < index {
                    assert(after[i] == done[i]);
                    assert(done[i] == rv[i].calls.len());
                } else {
                    assert(listed[kept.len() as int].index == index);
                }
            }
            if j + 1 < running.len() {
                assert(running@[j as int].index < running@[j + 1].index);
            }
        }
        j = j + 1;
    }
    proof {
        let low = bound;
        lemma_unlisted_done(running@, done, rv, started as int, j as int, low, started as int);
        assert forall|i: int| low <= i < n implies quiet(#[trigger] rv[i], now as int) && cut_at(
            rv[i],
            after[i],
            now + 1,
        ) by {
            assert(cut_at(rv[i], done[i], now as int));
            assert(rv[i].well_formed());
            if i < started {
                assert(done[i] == rv[i].calls.len());
            } else {
                if done[i] > 0 {
                    assert(rv[i].calls[0].arrival_time < now);
                }
                assert forall|k: int| 0 <= k < rv[i].calls.len() implies (
                #[trigger] rv[i].calls[k]).arrival_time > now by {
                    assert(rv[i].calls[0].arrival_time <= rv[i].calls[k].arrival_time);
                }
            }
        }
        lemma_progress_quiet(rv, now as int, low, n as int);
        let listed = keep@;
        assert forall|w: int| 0 <= w < listed.len() implies 0 <= (#[trigger] listed[w]).index
            < started by {
            assert(listed[w].index < low);
        }
        match next {
            Some(t) => {
                assert forall|i: int, k: int|
                    0 <= i < n && after[i] <= k < rv[i].calls.len() implies (
                #[trigger] rv[i].calls[k]).arrival_time >= t by {
                    if i >= low {
                        if i < started {
                            assert(after[i] == done[i]);
                            assert(done[i] == rv[i].calls.len());
                        } else {
                            assert(rv[i].well_formed());
                            assert(rv[i].calls[0].arrival_time <= rv[i].calls[k].arrival_time);
                            assert(rv[started as int].first_arrival <= rv[i].first_arrival);
                        }
                    }
                }
            },
            None => {
                assert forall|i: int| 0 <= i < n implies #[trigger] after[i] == rv[i].calls.len() by {
                    if i >= low {
                        assert(after[i] == done[i]);
                        assert(done[i] == rv[i].calls.len());
                    }
                }
            },
        }
    }
    (keep, next, Ghost(after))
}

/// Replays a roster: the stream opens with the two counts, then come the
/// events of every instant at which a call arrives, in the order of time,
/// and the stream closes.
pub fn replay(services: usize, roster: &Vec<Run>) -> (events: Vec<Event>)
    requires
        well_rostered(roster.deep_view()),
    ensures
        events.deep_view() == day_events(services, roster.deep_view()),
        in_time_order(events.deep_view()),
{
    let ghost rv = roster.deep_view();
    proof {
        lemma_day_in_time_order(services, rv);
    }
    let n: usize = roster.len();
    let mut out: Vec<Event> = Vec::new();
    out.push(Event::StartEvents(services, n));
    let ghost opening = seq![EventView::StartEvents(services, n)];
    assert(out.deep_view() =~= opening);
    if n == 0 {
        proof {
            lemma_events_quiet(rv, 0, u64::MAX + 1);
        }
        let ghost before = out.deep_view();
        out.push(Event::EndEvents);
        assert(out.deep_view() =~= before.push(EventView::EndEvents));
        assert(out.deep_view() =~= day_events(services, rv));
        return out;
    }
    assert(rv[0] == roster@[0].deep_view());
    let mut now: u64 = roster[0].first_arrival;
    let mut started: usize = 0;
    let mut running: Vec<Progress> = Vec::new();
    let ghost mut done: Seq<int> = Seq::new(n as nat, |i: int| 0int);
    proof {
        assert forall|i: int| 0 <= i < n implies cut_at(#[trigger] rv[i], done[i], now as int) by {
            assert(rv[i].well_formed());
            assert(rv[0].first_arrival <= rv[i].first_arrival);
            assert forall|k: int| 0 <= k < rv[i].calls.len() implies (
            #[trigger] rv[i].calls[k]).arrival_time >= now by {
                assert(rv[i].calls[0].arrival_time <= rv[i].calls[k].arrival_time);
            }
        }
        assert forall|t: int| 0 <= t < now implies all_quiet(rv, t) by {
            assert forall|i: int| 0 <= i < rv.len() implies quiet(#[trigger] rv[i], t) by {
                assert(cut_at(rv[i], done[i], now as int));
            }
        }
        lemma_events_quiet(rv, 0, now as int);
        assert(opening + Seq::<EventView>::empty() =~= opening);
    }
    loop
        invariant_except_break
            on_time(rv, done, running@, started as int, now as int),
            out.deep_view() == opening + events_until(rv, now as int),
        invariant
            n == roster.len(),
            n > 0,
            rv == roster.deep_view(),
            well_rostered(rv),
            opening == seq![EventView::StartEvents(services, n)],
        ensures
            out.deep_view() == opening + events_until(rv, u64::MAX + 1),
        decreases u64::MAX - now,
    {
        let ghost before = out.deep_view();
        started = commence(roster, now, started, &mut running, &mut out, Ghost(done));
        let ghost middle = out.deep_view();
        let (keep, next, Ghost(after)) = progress(roster, &running, started, now, &mut out, Ghost(done));
        running = keep;
        proof {
            done = after;
            assert(out.deep_view() =~= opening + events_until(rv, now + 1)) by {
                assert(middle == before + starts_upto(rv, now as int, n as int));
                assert(out.deep_view() == middle + progress_upto(rv, now as int, n as int));
                assert(events_until(rv, now + 1) == events_until(rv, now as int) + tick_events(
                    rv,
                    now as int,
                ));
            }
        }
        match next {
            None => {
                proof {
                    assert forall|t: int| now + 1 <= t < u64::MAX + 1 implies all_quiet(rv, t) by {
                        assert forall|i: int| 0 <= i < rv.len() implies quiet(#[trigger] rv[i], t) by {
                            assert(cut_at(rv[i], done[i], now + 1));
                            assert(done[i] == rv[i].calls.len());
                        }
                    }
                    lemma_events_quiet(rv, now + 1, u64::MAX + 1);
                }
                break;
            },
            Some(t) => {
                proof {
                    assert forall|u: int| now + 1 <= u < t implies all_quiet(rv, u) by {
                        assert forall|i: int| 0 <= i < rv.len() implies quiet(#[trigger] rv[i], u) by {
                            assert(cut_at(rv[i], done[i], now + 1));
                            assert forall|k: int| 0 <= k < rv[i].calls.len() implies (
                            #[trigger] rv[i].calls[k]).arrival_time != u by {
                                if k >= done[i] {
                                    assert(rv[i].calls[k].arrival_time >= t);
                                }
                            }
                        }
                    }
                    lemma_events_quiet(rv, now + 1, t as int);
                    assert forall|i: int| 0 <= i < n implies cut_at(#[trigger] rv[i], done[i], t as int) by {
                        assert(cut_at(rv[i], done[i], now + 1));
                        assert forall|k: int| done[i] <= k < rv[i].calls.len() implies (
                        #[trigger] rv[i].calls[k]).arrival_time >= t by {}
                    }
                }
                now = t;
            },
        }
    }
    let ghost before = out.deep_view();
    out.push(Event::EndEvents);
    assert(out.deep_view() =~= before.push(EventView::EndEvents));
    assert(out.deep_view() =~= day_events(services, rv));
    out
}

/// The stream of the agency `agency` on `date`, a `day`, or why it cannot
/// be told.
pub open spec fn schedule_of(v: FeedView, agency: Seq<char>, day: Weekday, date: Date) -> Result<
    Seq<EventView>,
    ScheduleError,
> {
    match v.roster_fault(agency, day, date) {
        Some(e) => Err(e),
        None => Ok(
            day_events(v.services_on(day, date).len() as usize, v.roster(agency, day, date)),
        ),
    }
}

/// Tells the events of the agency `agency_id` on `date`, a `day`: the
/// services that run on the day are found, then their trips on the routes
/// of the agency, and the runs of these trips are replayed in the order of
/// time.
pub fn simulate_events(feed: &Feed, agency_id: &str, day: Weekday, date: Date) -> (r: Result<
    Vec<Event>,
    ScheduleError,
>)
    ensures
        match r {
            Ok(events) => schedule_of(feed@, agency_id@, day, date) == Ok::<
                Seq<EventView>,
                ScheduleError,
            >(events.deep_view()),
            Err(e) => schedule_of(feed@, agency_id@, day, date) == Err::<Seq<EventView>, ScheduleError>(
                e,
            ),
        },
        r is Ok ==> in_time_order(r->Ok_0.deep_view()),
{
    match day_roster(feed, agency_id, day, date) {
        Ok((services, roster)) => Ok(replay(services, &roster)),
        Err(e) => Err(e),
    }
}

} // verus!
