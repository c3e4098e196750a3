//! The box that holds a set of stops.

use crate::feed::Feed;
use crate::model::{Fixed, Point, Rectangle, Stop, StopView};
use vstd::prelude::*;

verus! {

/// The places of `stops`, in their order.
pub open spec fn places(stops: Seq<StopView>) -> Seq<Point> {
    Seq::new(stops.len(), |i: int| stops[i].pt)
}

/// Whether `r` is the least box that holds `points`: every point lies
/// between its corners, and each of its four sides touches a point.
pub open spec fn bounds(r: Rectangle, points: Seq<Point>) -> bool {
    &&& forall|i: int|
        0 <= i < points.len() ==> r.sw.lat.nano <= (#[trigger] points[i]).lat.nano <= r.ne.lat.nano
            && r.sw.lon.nano <= points[i].lon.nano <= r.ne.lon.nano
    &&& exists|i: int| 0 <= i < points.len() && (#[trigger] points[i]).lat.nano == r.sw.lat.nano
    &&& exists|i: int| 0 <= i < points.len() && (#[trigger] points[i]).lat.nano == r.ne.lat.nano
    &&& exists|i: int| 0 <= i < points.len() && (#[trigger] points[i]).lon.nano == r.sw.lon.nano
    &&& exists|i: int| 0 <= i < points.len() && (#[trigger] points[i]).lon.nano == r.ne.lon.nano
}

/// Whether `r` is the box of `points`: none where there are no points, and
/// else the least box that holds them.
pub open spec fn is_box_of(r: Option<Rectangle>, points: Seq<Point>) -> bool {
    match r {
        None => points.len() == 0,
        Some(b) => points.len() > 0 && bounds(b, points),
    }
}

/// The least box of points that are all among other points lies within the
/// least box of those.
proof fn lemma_bounds_within(a: Seq<Point>, b: Seq<Point>, ra: Rectangle, rb: Rectangle)
    requires
        bounds(ra, a),
        bounds(rb, b),
        forall|i: int| 0 <= i < a.len() ==> b.contains(#[trigger] a[i]),
    ensures
        rb.sw.lat.nano <= ra.sw.lat.nano,
        rb.sw.lon.nano <= ra.sw.lon.nano,
        ra.ne.lat.nano <= rb.ne.lat.nano,
        ra.ne.lon.nano <= rb.ne.lon.nano,
{
    let i = choose|i: int| 0 <= i < a.len() && (#[trigger] a[i]).lat.nano == ra.sw.lat.nano;
    assert(b.contains(a[i]));
    let j = choose|j: int| 0 <= j < b.len() && b[j] == a[i];
    assert(rb.sw.lat.nano <= b[j].lat.nano);
    let i = choose|i: int| 0 <= i < a.len() && (#[trigger] a[i]).lat.nano == ra.ne.lat.nano;
    assert(b.contains(a[i]));
    let j = choose|j: int| 0 <= j < b.len() && b[j] == a[i];
    assert(rb.ne.lat.nano >= b[j].lat.nano);
    let i = choose|i: int| 0 <= i < a.len() && (#[trigger] a[i]).lon.nano == ra.sw.lon.nano;
    assert(b.contains(a[i]));
    let j = choose|j: int| 0 <= j < b.len() && b[j] == a[i];
    assert(rb.sw.lon.nano <= b[j].lon.nano);
    let i = choose|i: int| 0 <= i < a.len() && (#[trigger] a[i]).lon.nano == ra.ne.lon.nano;
    assert(b.contains(a[i]));
    let j = choose|j: int| 0 <= j < b.len() && b[j] == a[i];
    assert(rb.ne.lon.nano >= b[j].lon.nano);
}

/// The box of a set of points does not depend on the order in which the
/// points are given: two lists that hold the same points, each as often as
/// the other, have the same box.
pub proof fn lemma_box_any_order(
    a: Seq<Point>,
    b: Seq<Point>,
    ra: Option<Rectangle>,
    rb: Option<Rectangle>,
)
    requires
        a.to_multiset() == b.to_multiset(),
        is_box_of(ra, a),
        is_box_of(rb, b),
    ensures
        ra == rb,
{
    broadcast use vstd::seq_lib::group_to_multiset_ensures;

    a.to_multiset_ensures();
    b.to_multiset_ensures();
    assert(a.len() == b.len());
    if a.len() > 0 {
        assert forall|i: int| 0 <= i < a.len() implies b.contains(#[trigger] a[i]) by {
            assert(a.contains(a[i]));
            assert(a.to_multiset().count(a[i]) > 0);
        }
        assert forall|i: int| 0 <= i < b.len() implies a.contains(#[trigger] b[i]) by {
            assert(b.contains(b[i]));
            assert(b.to_multiset().count(b[i]) > 0);
        }
        lemma_bounds_within(a, b, ra->0, rb->0);
        lemma_bounds_within(b, a, rb->0, ra->0);
    }
}

/// The box of `stops`: none where there are no stops, and else the least
/// box that holds the places of them all.
pub fn stops_bbox(stops: &Vec<&Stop>) -> (r: Option<Rectangle>)
    ensures
        is_box_of(r, places(stops.deep_view())),
{
    let ghost points = places(stops.deep_view());
    if stops.len() == 0 {
        return None;
    }
    assert(points[0] == stops@[0].deep_view().pt);
    let first: Point = stops[0].pt;
    let mut lat_min: i64 = first.lat.nano;
    let mut lat_max: i64 = first.lat.nano;
    let mut lon_min: i64 = first.lon.nano;
    let mut lon_max: i64 = first.lon.nano;
    let mut i: usize = 1;
    while i < stops.len()
        invariant
            1 <= i <= stops.len(),
            points == places(stops.deep_view()),
            forall|j: int|
                0 <= j < i ==> lat_min <= (#[trigger] points[j]).lat.nano <= lat_max && lon_min
                    <= points[j].lon.nano <= lon_max,
            exists|j: int| 0 <= j < i && (#[trigger] points[j]).lat.nano == lat_min,
            exists|j: int| 0 <= j < i && (#[trigger] points[j]).lat.nano == lat_max,
            exists|j: int| 0 <= j < i && (#[trigger] points[j]).lon.nano == lon_min,
            exists|j: int| 0 <= j < i && (#[trigger] points[j]).lon.nano == lon_max,
        decreases stops.len() - i,
    {
        assert(points[i as int] == stops@[i as int].deep_view().pt);
        let ghost a = choose|j: int| 0 <= j < i && (#[trigger] points[j]).lat.nano == lat_min;
        let ghost b = choose|j: int| 0 <= j < i && (#[trigger] points[j]).lat.nano == lat_max;
        let ghost c = choose|j: int| 0 <= j < i && (#[trigger] points[j]).lon.nano == lon_min;
        let ghost d = choose|j: int| 0 <= j < i && (#[trigger] points[j]).lon.nano == lon_max;
        let pt: Point = stops[i].pt;
        if pt.lat.nano < lat_min {
            lat_min = pt.lat.nano;
        }
        if pt.lat.nano > lat_max {
            lat_max = pt.lat.nano;
        }
        if pt.lon.nano < lon_min {
            lon_min = pt.lon.nano;
        }
        if pt.lon.nano > lon_max {
            lon_max = pt.lon.nano;
        }
        proof {
            assert(points[a].lat.nano == lat_min || points[i as int].lat.nano == lat_min);
            assert(points[b].lat.nano == lat_max || points[i as int].lat.nano == lat_max);
            assert(points[c].lon.nano == lon_min || points[i as int].lon.nano == lon_min);
            assert(points[d].lon.nano == lon_max || points[i as int].lon.nano == lon_max);
        }
        i = i + 1;
    }
    Some(
        Rectangle {
            sw: Point { lat: Fixed { nano: lat_min }, lon: Fixed { nano: lon_min } },
            ne: Point { lat: Fixed { nano: lat_max }, lon: Fixed { nano: lon_max } },
        },
    )
}

impl Feed {
    /// The box of all the stops of the feed.
    pub fn bbox(&self) -> (r: Option<Rectangle>)
        ensures
            is_box_of(r, places(self@.stops)),
    {
        let stops = self.stops();
        let mut all: Vec<&Stop> = Vec::new();
        let mut i: usize = 0;
        while i < stops.len()
            invariant
                i <= stops.len(),
                all.len() == i,
                forall|j: int| 0 <= j < i ==> (#[trigger] all@[j]) == &stops@[j],
            decreases stops.len() - i,
        {
            all.push(&stops[i]);
            i = i + 1;
        }
        assert(all.deep_view() =~= stops.deep_view());
        stops_bbox(&all)
    }
}

} // verus!
