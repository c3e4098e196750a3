//! Sorting by rank, stably: records of equal rank keep their order.

use crate::seqs::{first_where, lemma_first_where, lemma_first_where_is, lemma_first_where_none};
use vstd::prelude::*;

verus! {

/// A kind of record that is ordered by a number it holds.
pub trait Ranked: DeepView + Sized {
    /// The number by which a record is ordered.
    spec fn rank(v: Self::V) -> int;

    /// The number by which this record is ordered.
    fn rank_value(&self) -> (r: u64)
        ensures
            r == Self::rank(self.deep_view()),
    ;
}

/// Whether the ranks of `s` never fall.
pub open spec fn ascending<T: Ranked>(s: Seq<T::V>) -> bool {
    forall|i: int, j: int| 0 <= i <= j < s.len() ==> T::rank(#[trigger] s[i]) <= T::rank(#[trigger] s[j])
}

/// Where `item` goes into `sorted`: before the first record that ranks
/// above it, and so behind every record of its own rank.
pub open spec fn place_of<T: Ranked>(sorted: Seq<T::V>, item: T::V) -> int {
    match first_where(sorted, |v: T::V| T::rank(v) > T::rank(item)) {
        Some(i) => i,
        None => sorted.len() as int,
    }
}

/// `s` in ascending order of rank, with the records of one rank in the
/// order in which `s` has them.
pub open spec fn stable_sort<T: Ranked>(s: Seq<T::V>) -> Seq<T::V>
    decreases s.len(),
{
    if s.len() == 0 {
        s
    } else {
        let sorted = stable_sort::<T>(s.drop_last());
        sorted.insert(place_of::<T>(sorted, s.last()), s.last())
    }
}

/// The place of a record lies within the sorted records, which rank no
/// higher before it and higher from it on.
pub proof fn lemma_place_of<T: Ranked>(sorted: Seq<T::V>, item: T::V)
    requires
        ascending::<T>(sorted),
    ensures
        0 <= place_of::<T>(sorted, item) <= sorted.len(),
        forall|j: int|
            0 <= j < place_of::<T>(sorted, item) ==> T::rank(#[trigger] sorted[j]) <= T::rank(item),
        forall|j: int|
            place_of::<T>(sorted, item) <= j < sorted.len() ==> T::rank(#[trigger] sorted[j])
                > T::rank(item),
{
    let above = |v: T::V| T::rank(v) > T::rank(item);
    lemma_first_where(sorted, above);
    let p = place_of::<T>(sorted, item);
    assert forall|j: int| p <= j < sorted.len() implies T::rank(#[trigger] sorted[j]) > T::rank(
        item,
    ) by {
        assert(T::rank(sorted[p]) <= T::rank(sorted[j]));
    }
}

/// Sorting keeps every record, and puts the ranks in ascending order.
pub proof fn lemma_stable_sort<T: Ranked>(s: Seq<T::V>)
    ensures
        stable_sort::<T>(s).len() == s.len(),
        stable_sort::<T>(s).to_multiset() == s.to_multiset(),
        ascending::<T>(stable_sort::<T>(s)),
        forall|k: int| 0 <= k < s.len() ==> s.contains(#[trigger] stable_sort::<T>(s)[k]),
        forall|k: int| 0 <= k < s.len() ==> stable_sort::<T>(s).contains(#[trigger] s[k]),
    decreases s.len(),
{
    broadcast use vstd::seq_lib::group_to_multiset_ensures;

    if s.len() == 0 {
    } else {
        let sorted = stable_sort::<T>(s.drop_last());
        let item = s.last();
        lemma_stable_sort::<T>(s.drop_last());
        lemma_place_of::<T>(sorted, item);
        let p = place_of::<T>(sorted, item);
        let out = sorted.insert(p, item);
        assert(s =~= s.drop_last().push(item));
        vstd::seq_lib::to_multiset_insert(sorted, p, item);
        assert(out.to_multiset() =~= s.to_multiset());
        assert forall|i: int, j: int| 0 <= i <= j < out.len() implies T::rank(#[trigger] out[i])
            <= T::rank(#[trigger] out[j]) by {
            if i < p && j < p {
                assert(out[i] == sorted[i] && out[j] == sorted[j]);
            } else if i < p && j == p {
                assert(out[i] == sorted[i]);
            } else if i < p && j > p {
                assert(out[i] == sorted[i] && out[j] == sorted[j - 1]);
            } else if i == p && j > p {
                assert(out[j] == sorted[j - 1]);
            } else if i > p {
                assert(out[i] == sorted[i - 1] && out[j] == sorted[j - 1]);
            }
        }
        assert forall|k: int| 0 <= k < s.len() implies s.contains(#[trigger] out[k]) by {
            assert(out.contains(out[k]));
            assert(out.to_multiset().count(out[k]) > 0);
        }
        assert forall|k: int| 0 <= k < s.len() implies out.contains(#[trigger] s[k]) by {
            assert(s.contains(s[k]));
            assert(s.to_multiset().count(s[k]) > 0);
        }
    }
}

/// For each place of the sorted records, the place in `s` of the record that
/// stands there.
pub open spec fn sorted_places<T: Ranked>(s: Seq<T::V>) -> Seq<int>
    decreases s.len(),
{
    if s.len() == 0 {
        Seq::empty()
    } else {
        let front = s.drop_last();
        sorted_places::<T>(front).insert(
            place_of::<T>(stable_sort::<T>(front), s.last()),
            s.len() - 1,
        )
    }
}

/// Sorting is stable. The sorted records are the records of `s` in another
/// order; of two of them, the one of lower rank stands first, and where
/// their ranks are equal, the one that stands first in `s`.
pub proof fn lemma_stable_sort_is_stable<T: Ranked>(s: Seq<T::V>)
    ensures
        sorted_places::<T>(s).len() == s.len(),
        stable_sort::<T>(s).len() == s.len(),
        forall|k: int|
            0 <= k < s.len() ==> 0 <= (#[trigger] sorted_places::<T>(s)[k]) < s.len()
                && stable_sort::<T>(s)[k] == s[sorted_places::<T>(s)[k]],
        forall|a: int, b: int|
            0 <= a < b < s.len() ==> T::rank(s[#[trigger] sorted_places::<T>(s)[a]]) < T::rank(
                s[#[trigger] sorted_places::<T>(s)[b]],
            ) || (T::rank(s[sorted_places::<T>(s)[a]]) == T::rank(s[sorted_places::<T>(s)[b]])
                && sorted_places::<T>(s)[a] < sorted_places::<T>(s)[b]),
    decreases s.len(),
{
    if s.len() > 0 {
        let front = s.drop_last();
        let last = s.last();
        let n = s.len() as int;
        let before = stable_sort::<T>(front);
        let places = sorted_places::<T>(front);
        lemma_stable_sort_is_stable::<T>(front);
        lemma_stable_sort::<T>(front);
        lemma_place_of::<T>(before, last);
        let p = place_of::<T>(before, last);
        let sorted = stable_sort::<T>(s);
        let now = sorted_places::<T>(s);
        assert(sorted == before.insert(p, last));
        assert(now == places.insert(p, n - 1));
        assert forall|k: int| 0 <= k < n implies 0 <= (#[trigger] now[k]) < n && sorted[k] == s[now[k]] by {
            if k < p {
                assert(now[k] == places[k]);
                assert(sorted[k] == before[k]);
                assert(front[places[k]] == s[places[k]]);
            } else if k > p {
                assert(now[k] == places[k - 1]);
                assert(sorted[k] == before[k - 1]);
                assert(front[places[k - 1]] == s[places[k - 1]]);
            }
        }
        assert forall|a: int, b: int| 0 <= a < b < n implies T::rank(s[#[trigger] now[a]]) < T::rank(
            s[#[trigger] now[b]],
        ) || (T::rank(s[now[a]]) == T::rank(s[now[b]]) && now[a] < now[b]) by {
            assert(sorted[a] == s[now[a]]);
            assert(sorted[b] == s[now[b]]);
            if b < p {
                assert(now[a] == places[a] && now[b] == places[b]);
                assert(front[places[a]] == s[places[a]] && front[places[b]] == s[places[b]]);
            } else if b == p {
                assert(now[a] == places[a]);
                assert(sorted[a] == before[a]);
                assert(T::rank(before[a]) <= T::rank(last));
            } else if a < p {
                assert(now[a] == places[a] && now[b] == places[b - 1]);
                assert(front[places[a]] == s[places[a]] && front[places[b - 1]] == s[places[b - 1]]);
            } else if a == p {
                assert(sorted[b] == before[b - 1]);
                assert(T::rank(before[b - 1]) > T::rank(last));
            } else {
                assert(now[a] == places[a - 1] && now[b] == places[b - 1]);
                assert(front[places[a - 1]] == s[places[a - 1]] && front[places[b - 1]] == s[places[b
                    - 1]]);
            }
        }
    }
}

/// Records that are in ascending order already are left as they are.
pub proof fn lemma_stable_sort_ascending<T: Ranked>(s: Seq<T::V>)
    requires
        ascending::<T>(s),
    ensures
        stable_sort::<T>(s) == s,
    decreases s.len(),
{
    if s.len() > 0 {
        let front = s.drop_last();
        assert forall|i: int, j: int| 0 <= i <= j < front.len() implies T::rank(#[trigger] front[i])
            <= T::rank(#[trigger] front[j]) by {
            assert(front[i] == s[i] && front[j] == s[j]);
        }
        lemma_stable_sort_ascending::<T>(front);
        let above = |v: T::V| T::rank(v) > T::rank(s.last());
        assert forall|j: int| 0 <= j < front.len() implies !above(#[trigger] front[j]) by {
            assert(front[j] == s[j]);
            assert(T::rank(s[j]) <= T::rank(s[s.len() - 1]));
        }
        lemma_first_where_none(front, above);
        assert(front.insert(front.len() as int, s.last()) =~= s);
    }
}

/// Sorts `v` by rank, stably.
pub fn sort_ranked<T: Ranked>(v: &mut Vec<T>)
    ensures
        final(v).deep_view() == stable_sort::<T>(old(v).deep_view()),
{
    let ghost orig = v.deep_view();
    let n: usize = v.len();
    let mut i: usize = 0;
    assert(orig.take(0) =~= Seq::<T::V>::empty());
    while i < n
        invariant
            i <= n == v.len(),
            orig.len() == n,
            v.deep_view().take(i as int) == stable_sort::<T>(orig.take(i as int)),
            v.deep_view().skip(i as int) == orig.skip(i as int),
        decreases n - i,
    {
        let ghost views = v.deep_view();
        let ghost sorted = views.take(i as int);
        let ghost item = views[i as int];
        proof {
            lemma_stable_sort::<T>(orig.take(i as int));
            assert(views.skip(i as int)[0] == orig[i as int]);
            assert(orig.take(i + 1).drop_last() =~= orig.take(i as int));
            assert(orig.take(i + 1).last() == item);
            assert(views[i as int] == v@[i as int].deep_view());
        }
        let r: u64 = v[i].rank_value();
        let mut p: usize = i;
        while p > 0 && v[p - 1].rank_value() > r
            invariant
                p <= i < n == v.len(),
                views == v.deep_view(),
                sorted == views.take(i as int),
                r == T::rank(item),
                forall|j: int| p <= j < i ==> T::rank(#[trigger] sorted[j]) > r,
            decreases p,
        {
            assert(views[p - 1] == v@[p - 1].deep_view());
            assert(sorted[p - 1] == views[p - 1]);
            p = p - 1;
        }
        proof {
            let above = |x: T::V| T::rank(x) > T::rank(item);
            if p > 0 {
                assert(views[p - 1] == v@[p - 1].deep_view());
                assert(sorted[p - 1] == views[p - 1]);
            }
            assert forall|j: int| 0 <= j < p implies !above(#[trigger] sorted[j]) by {
                assert(T::rank(sorted[j]) <= T::rank(sorted[p - 1]));
            }
            if p < i {
                lemma_first_where_is(sorted, above, p as int);
            } else {
                lemma_first_where_none(sorted, above);
            }
            assert(place_of::<T>(sorted, item) == p);
        }
        if p < i {
            let moved = v.remove(i);
            assert(moved.deep_view() == item);
            v.insert(p, moved);
            assert(v.deep_view().take(i + 1) =~= sorted.insert(p as int, item));
            assert(v.deep_view().skip(i + 1) =~= orig.skip(i + 1)) by {
                assert forall|k: int| 0 <= k < n - i - 1 implies #[trigger] v.deep_view().skip(
                    i + 1,
                )[k] == orig.skip(i + 1)[k] by {
                    assert(views.skip(i as int)[k + 1] == orig.skip(i as int)[k + 1]);
                }
            }
        } else {
            assert(v.deep_view().take(i + 1) =~= sorted.insert(p as int, item));
            assert(v.deep_view().skip(i + 1) =~= orig.skip(i + 1)) by {
                assert forall|k: int| 0 <= k < n - i - 1 implies #[trigger] v.deep_view().skip(
                    i + 1,
                )[k] == orig.skip(i + 1)[k] by {
                    assert(views.skip(i as int)[k + 1] == orig.skip(i as int)[k + 1]);
                }
            }
        }
        i = i + 1;
    }
    assert(v.deep_view().take(n as int) =~= v.deep_view());
    assert(orig.take(n as int) =~= orig);
}

} // verus!
