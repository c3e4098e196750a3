//! A feed told in words: how many records of each kind it holds, and for
//! each agency its routes, its stops and the box that holds them.

use crate::bounds::{is_box_of, lemma_box_any_order, places, stops_bbox};
use crate::feed::{Feed, FeedView};
use crate::model::{Agency, AgencyView, Fixed, Point, Rectangle};
use crate::query::{lemma_distinct, stop_ids};
use crate::text::{decimal_text, digit_char, push_digit, push_uint};
use vstd::prelude::*;
use vstd::string::StringExecFns;

verus! {

/// The size of a number, without its sign.
pub open spec fn size_of(f: Fixed) -> nat {
    if f.nano < 0 {
        (-f.nano) as nat
    } else {
        f.nano as nat
    }
}

/// The size of a number in hundredths, rounded to the nearest, a half
/// upwards.
pub open spec fn hundredths(f: Fixed) -> nat {
    (size_of(f) + 5_000_000) / 10_000_000
}

/// The size of a number written with two decimal places.
pub open spec fn two_places(f: Fixed) -> Seq<char> {
    let h = hundredths(f);
    decimal_text(h / 100).push('.').push(digit_char((h / 10 % 10) as int)).push(
        digit_char((h % 10) as int),
    )
}

/// A place in words: the latitude with `N` from zero northwards and `S`
/// else, a space, and the longitude with `E` east of zero and `W` else.
pub open spec fn point_text(p: Point) -> Seq<char> {
    two_places(p.lat).push(
        if p.lat.nano >= 0 {
            'N'
        } else {
            'S'
        },
    ).push(' ') + two_places(p.lon).push(
        if p.lon.nano > 0 {
            'E'
        } else {
            'W'
        },
    )
}

/// The two corners of a box in words. The box of no stops is told as the
/// corners at infinity that no stop has pulled in.
pub open spec fn corners_text(r: Option<Rectangle>) -> Seq<char> {
    match r {
        Some(b) => "SW ("@ + point_text(b.sw) + ") NE ("@ + point_text(b.ne) + ")"@,
        None => "SW (infN infE) NE (infS infW)"@,
    }
}

/// The box of `points`.
pub open spec fn box_of(points: Seq<Point>) -> Option<Rectangle> {
    choose|r: Option<Rectangle>| is_box_of(r, points)
}

impl FeedView {
    /// Whether every call is at a stop of the feed.
    pub open spec fn stops_resolve(self) -> bool {
        forall|g: int, k: int|
            0 <= g < self.stop_times.len() && 0 <= k < self.stop_times[g].items.len() ==> self.stop(
                (#[trigger] self.stop_times[g].items[k]).stop_id,
            ) is Some
    }

    /// The places of the stops with the keys `ids`.
    pub open spec fn places_of(self, ids: Seq<Seq<char>>) -> Seq<Point> {
        Seq::new(ids.len(), |i: int| self.stop(ids[i])->0.pt)
    }

    /// The first line: how many records of each kind the feed holds. Calls
    /// are counted by trip and exceptions by service.
    pub open spec fn counts_text(self) -> Seq<char> {
        decimal_text(self.agencies.len()) + " agencies, "@ + decimal_text(self.stops.len())
            + " stops, "@ + decimal_text(self.routes.len()) + " routes, "@ + decimal_text(
            self.trips.len(),
        ) + " trips, "@ + decimal_text(self.stop_times.len()) + " stop_times, "@ + decimal_text(
            self.calendars.len(),
        ) + " calendars, "@ + decimal_text(self.calendar_dates.len()) + " calendar_dates\n"@
    }

    /// The line of one agency: its key and name, how many routes it runs,
    /// at how many stops its trips call, and the box of these stops.
    pub open spec fn agency_text(self, a: AgencyView) -> Seq<char> {
        "agency id "@ + a.id + ": "@ + a.name + " ("@ + decimal_text(self.routes_of(a.id).len())
            + " routes, "@ + decimal_text(self.stops_of(a.id).len()) + " stops) "@ + corners_text(
            box_of(self.places_of(self.stops_of(a.id))),
        ) + "\n"@
    }

    /// The lines of the first `n` agencies.
    pub open spec fn agencies_text(self, n: int) -> Seq<char>
        decreases n,
    {
        if n <= 0 {
            Seq::empty()
        } else {
            self.agencies_text(n - 1) + self.agency_text(self.agencies[n - 1])
        }
    }

    /// The feed in words: the line of counts, then a line for each agency,
    /// in the order of the feed.
    pub open spec fn description(self) -> Seq<char> {
        self.counts_text() + self.agencies_text(self.agencies.len() as int)
    }
}

/// Every stop that the trips of an agency call at is the stop of a call.
pub proof fn lemma_named_are_calls(v: FeedView, agency: Seq<char>, g: int, i: int)
    requires
        0 <= g <= v.stop_times.len(),
        0 <= i < v.named_upto(agency, g).len(),
    ensures
        exists|a: int, b: int|
            0 <= a < g && 0 <= b < v.stop_times[a].items.len() && (
            #[trigger] v.stop_times[a].items[b]).stop_id == v.named_upto(agency, g)[i],
    decreases g,
{
    let before = v.named_upto(agency, g - 1);
    if i < before.len() && g > 0 {
        lemma_named_are_calls(v, agency, g - 1, i);
        let (a, b) = choose|a: int, b: int|
            0 <= a < g - 1 && 0 <= b < v.stop_times[a].items.len() && (
            #[trigger] v.stop_times[a].items[b]).stop_id == before[i];
        assert(v.stop_times[a].items[b].stop_id == v.named_upto(agency, g)[i]);
    } else {
        let b = i - before.len();
        assert(v.stop_times[g - 1].items[b].stop_id == v.named_upto(agency, g)[i]);
    }
}

/// Writes the size of `f` at the end of `s`, with two decimal places.
fn push_places(s: &mut String, f: Fixed)
    ensures
        final(s)@ == old(s)@ + two_places(f),
{
    let ghost before = s@;
    let size: u64 = if f.nano >= 0 {
        f.nano as u64
    } else if f.nano == i64::MIN {
        9223372036854775808
    } else {
        (0 - f.nano) as u64
    };
    let h: u64 = (size + 5_000_000) / 10_000_000;
    push_uint(s, h / 100);
    proof {
        reveal_strlit(".");
    }
    s.append(".");
    push_digit(s, h / 10 % 10);
    push_digit(s, h % 10);
    assert(s@ =~= before + two_places(f));
}

/// A place in words, such as `51.50N 0.12W`.
pub fn point_format(point: Point) -> (r: String)
    ensures
        r@ == point_text(point),
{
    proof {
        reveal_strlit("N");
        reveal_strlit("S");
        reveal_strlit("E");
        reveal_strlit("W");
        reveal_strlit(" ");
    }
    let mut r = String::new();
    push_places(&mut r, point.lat);
    if point.lat.nano >= 0 {
        r.append("N");
    } else {
        r.append("S");
    }
    r.append(" ");
    push_places(&mut r, point.lon);
    if point.lon.nano > 0 {
        r.append("E");
    } else {
        r.append("W");
    }
    assert(r@ =~= point_text(point));
    r
}

/// The two corners of a box in words.
pub fn corners_format(bounds: Option<Rectangle>) -> (r: String)
    ensures
        r@ == corners_text(bounds),
{
    let mut r = String::new();
    match bounds {
        Some(b) => {
            r.append("SW (");
            let sw = point_format(b.sw);
            r.append(sw.as_str());
            r.append(") NE (");
            let ne = point_format(b.ne);
            r.append(ne.as_str());
            r.append(")");
            assert(r@ =~= corners_text(bounds));
        },
        None => {
            r.append("SW (infN infE) NE (infS infW)");
            assert(r@ =~= corners_text(bounds));
        },
    }
    r
}

impl Feed {
    /// Whether every call is at a stop of the feed.
    pub fn stops_resolve(&self) -> (r: bool)
        ensures
            r == self@.stops_resolve(),
    {
        let groups = self.stop_times();
        let ghost views = groups.deep_view();
        let mut g: usize = 0;
        while g < groups.len()
            invariant
                g <= groups.len(),
                views == groups.deep_view(),
                views == self@.stop_times,
                forall|a: int, b: int|
                    0 <= a < g && 0 <= b < views[a].items.len() ==> self@.stop(
                        (#[trigger] views[a].items[b]).stop_id,
                    ) is Some,
            decreases groups.len() - g,
        {
            assert(views[g as int] == groups@[g as int].deep_view());
            let calls = &groups[g].items;
            let mut k: usize = 0;
            while k < calls.len()
                invariant
                    k <= calls.len(),
                    g < groups.len(),
                    views == self@.stop_times,
                    views.len() == groups.len(),
                    views[g as int].items == calls.deep_view(),
                    forall|b: int|
                        0 <= b < k ==> self@.stop((#[trigger] views[g as int].items[b]).stop_id) is Some,
                decreases calls.len() - k,
            {
                assert(views[g as int].items[k as int] == calls@[k as int].deep_view());
                if self.find_stop(calls[k].stop_id.as_str()).is_none() {
                    return false;
                }
                k = k + 1;
            }
            g = g + 1;
        }
        true
    }

    /// The line of one agency.
    fn agency_line(&self, agency: &Agency) -> (r: String)
        requires
            self@.trips_resolve(),
            self@.stops_resolve(),
        ensures
            r@ == self@.agency_text(agency@),
    {
        let id = agency.id.as_str();
        let stop_ids = self.stops_for_agency(id);
        let ghost ids = stop_ids.deep_view();
        proof {
            let named = self@.named_upto(id@, self@.stop_times.len() as int);
            lemma_distinct(named);
            assert forall|i: int| 0 <= i < stop_ids.len() implies self@.stop(
                #[trigger] stop_ids@[i]@,
            ) is Some by {
                assert(ids[i] == stop_ids@[i]@);
                assert(ids.contains(ids[i]));
                assert(named.contains(ids[i]));
                let j = choose|j: int| 0 <= j < named.len() && named[j] == ids[i];
                lemma_named_are_calls(self@, id@, self@.stop_times.len() as int, j);
            }
        }
        let stops = self.lookup_stops(&stop_ids);
        let bounds = stops_bbox(&stops);
        let routes = self.routes_for_agency(id);
        proof {
            let points = self@.places_of(ids);
            assert(places(stops.deep_view()) =~= points) by {
                assert forall|i: int| 0 <= i < points.len() implies places(stops.deep_view())[i]
                    == points[i] by {
                    assert(ids[i] == stop_ids@[i]@);
                    assert(self@.stop(stop_ids@[i]@) == Some(stops@[i]@));
                    assert(stops.deep_view()[i] == stops@[i]@);
                }
            }
            lemma_box_any_order(points, points, bounds, box_of(points));
        }
        let mut r = String::new();
        r.append("agency id ");
        r.append(id);
        r.append(": ");
        r.append(agency.name.as_str());
        r.append(" (");
        push_uint(&mut r, routes.len() as u64);
        r.append(" routes, ");
        push_uint(&mut r, stops.len() as u64);
        r.append(" stops) ");
        let corners = corners_format(bounds);
        r.append(corners.as_str());
        r.append("\n");
        assert(r@ =~= self@.agency_text(agency@));
        r
    }

    /// The feed in words: a line of counts, then a line for each agency
    /// with the number of its routes, the number of the stops at which its
    /// trips call, and the box of these stops.
    pub fn describe(&self) -> (r: String)
        requires
            self@.trips_resolve(),
            self@.stops_resolve(),
        ensures
            r@ == self@.description(),
    {
        let mut r = String::new();
        push_uint(&mut r, self.agencies().len() as u64);
        r.append(" agencies, ");
        push_uint(&mut r, self.stops().len() as u64);
        r.append(" stops, ");
        push_uint(&mut r, self.routes().len() as u64);
        r.append(" routes, ");
        push_uint(&mut r, self.trips().len() as u64);
        r.append(" trips, ");
        push_uint(&mut r, self.stop_times().len() as u64);
        r.append(" stop_times, ");
        push_uint(&mut r, self.calendars().len() as u64);
        r.append(" calendars, ");
        push_uint(&mut r, self.calendar_dates().len() as u64);
        r.append(" calendar_dates\n");
        assert(r@ =~= self@.counts_text());
        let agencies = self.agencies();
        let mut i: usize = 0;
        assert(r@ =~= self@.counts_text() + self@.agencies_text(0));
        while i < agencies.len()
            invariant
                i <= agencies.len(),
                agencies.deep_view() == self@.agencies,
                self@.trips_resolve(),
                self@.stops_resolve(),
                r@ == self@.counts_text() + self@.agencies_text(i as int),
            decreases agencies.len() - i,
        {
            let ghost before = r@;
            assert(agencies.deep_view()[i as int] == agencies@[i as int]@);
            let line = self.agency_line(&agencies[i]);
            r.append(line.as_str());
            assert(r@ =~= self@.counts_text() + self@.agencies_text(i + 1));
            i = i + 1;
        }
        r
    }
}

} // verus!
