//! Searching a sequence for the first element of some kind.

use vstd::prelude::*;

verus! {

/// The index of the first element of `s` that satisfies `p`.
pub open spec fn first_where<T>(s: Seq<T>, p: spec_fn(T) -> bool) -> Option<int>
    decreases s.len(),
{
    if s.len() == 0 {
        None
    } else {
        match first_where(s.drop_last(), p) {
            Some(i) => Some(i),
            None => if p(s.last()) {
                Some(s.len() - 1)
            } else {
                None
            },
        }
    }
}

/// What the first such index is: it holds an element that satisfies `p`,
/// and none before it does; where there is none, no element does.
pub proof fn lemma_first_where<T>(s: Seq<T>, p: spec_fn(T) -> bool)
    ensures
        match first_where(s, p) {
            Some(i) => 0 <= i < s.len() && p(s[i]) && forall|j: int| 0 <= j < i ==> !p(#[trigger] s[j]),
            None => forall|j: int| 0 <= j < s.len() ==> !p(#[trigger] s[j]),
        },
    decreases s.len(),
{
    if s.len() > 0 {
        lemma_first_where(s.drop_last(), p);
        match first_where(s.drop_last(), p) {
            Some(i) => {
                assert(s.drop_last()[i] == s[i]);
                assert forall|j: int| 0 <= j < i implies !p(#[trigger] s[j]) by {
                    assert(s.drop_last()[j] == s[j]);
                }
            },
            None => {
                assert forall|j: int| 0 <= j < s.len() - 1 implies !p(#[trigger] s[j]) by {
                    assert(s.drop_last()[j] == s[j]);
                }
            },
        }
    }
}

/// An element that satisfies `p`, with none before it that does, is the
/// first.
pub proof fn lemma_first_where_is<T>(s: Seq<T>, p: spec_fn(T) -> bool, i: int)
    requires
        0 <= i < s.len(),
        p(s[i]),
        forall|j: int| 0 <= j < i ==> !p(#[trigger] s[j]),
    ensures
        first_where(s, p) == Some(i),
{
    lemma_first_where(s, p);
}

/// Where no element satisfies `p`, there is no first.
pub proof fn lemma_first_where_none<T>(s: Seq<T>, p: spec_fn(T) -> bool)
    requires
        forall|j: int| 0 <= j < s.len() ==> !p(#[trigger] s[j]),
    ensures
        first_where(s, p) is None,
{
    lemma_first_where(s, p);
}

/// Filtering one element more: it is kept where it satisfies `p`.
pub proof fn lemma_filter_next<T>(s: Seq<T>, p: spec_fn(T) -> bool, i: int)
    requires
        0 <= i < s.len(),
    ensures
        s.take(i + 1).filter(p) == if p(s[i]) {
            s.take(i).filter(p).push(s[i])
        } else {
            s.take(i).filter(p)
        },
{
    reveal(Seq::filter);
    assert(s.take(i + 1).drop_last() =~= s.take(i));
    assert(s.take(i + 1).last() == s[i]);
}

/// An element that satisfies `p` is among those that the filter keeps.
pub proof fn lemma_filter_has<T>(s: Seq<T>, p: spec_fn(T) -> bool, i: int)
    requires
        0 <= i < s.len(),
        p(s[i]),
    ensures
        s.filter(p).contains(s[i]),
    decreases s.len(),
{
    reveal(Seq::filter);
    let front = s.drop_last();
    if i == s.len() - 1 {
        assert(s.filter(p) == front.filter(p).push(s[i]));
        assert(s.filter(p)[front.filter(p).len() as int] == s[i]);
    } else {
        lemma_filter_has(front, p, i);
        let k = choose|k: int| 0 <= k < front.filter(p).len() && front.filter(p)[k] == front[i];
        if p(s.last()) {
            assert(s.filter(p)[k] == front.filter(p)[k]);
        }
        assert(s.filter(p)[k] == s[i]);
    }
}

/// What the filter keeps is an element of `s` that satisfies `p`.
pub proof fn lemma_filter_from<T>(s: Seq<T>, p: spec_fn(T) -> bool, k: int)
    requires
        0 <= k < s.filter(p).len(),
    ensures
        p(s.filter(p)[k]),
        s.contains(s.filter(p)[k]),
    decreases s.len(),
{
    reveal(Seq::filter);
    if s.len() > 0 {
        let front = s.drop_last();
        if k < front.filter(p).len() {
            lemma_filter_from(front, p, k);
            let i = choose|i: int| 0 <= i < front.len() && front[i] == front.filter(p)[k];
            assert(s[i] == front[i]);
            assert(s.filter(p)[k] == front.filter(p)[k]);
        } else {
            assert(s.filter(p)[k] == s[s.len() - 1]);
        }
    }
}

/// Two tests that agree on every element of `s` keep the same elements.
pub proof fn lemma_filter_agree<T>(s: Seq<T>, p: spec_fn(T) -> bool, q: spec_fn(T) -> bool)
    requires
        forall|i: int| 0 <= i < s.len() ==> p(#[trigger] s[i]) == q(s[i]),
    ensures
        s.filter(p) == s.filter(q),
    decreases s.len(),
{
    reveal(Seq::filter);
    if s.len() > 0 {
        assert forall|i: int| 0 <= i < s.drop_last().len() implies p(#[trigger] s.drop_last()[i]) == q(
            s.drop_last()[i],
        ) by {
            assert(s.drop_last()[i] == s[i]);
        }
        lemma_filter_agree(s.drop_last(), p, q);
        assert(p(s[s.len() - 1]) == q(s[s.len() - 1]));
    }
}

/// Two lists of one length on which two tests agree place by place have
/// their first such element at the same place.
pub proof fn lemma_first_where_agree<T>(
    a: Seq<T>,
    b: Seq<T>,
    p: spec_fn(T) -> bool,
    q: spec_fn(T) -> bool,
)
    requires
        a.len() == b.len(),
        forall|i: int| 0 <= i < a.len() ==> p(#[trigger] a[i]) == q(b[i]),
    ensures
        first_where(a, p) == first_where(b, q),
    decreases a.len(),
{
    if a.len() > 0 {
        assert forall|i: int| 0 <= i < a.drop_last().len() implies p(#[trigger] a.drop_last()[i]) == q(
            b.drop_last()[i],
        ) by {
            assert(a.drop_last()[i] == a[i]);
            assert(b.drop_last()[i] == b[i]);
        }
        lemma_first_where_agree(a.drop_last(), b.drop_last(), p, q);
        assert(p(a[a.len() - 1]) == q(b[b.len() - 1]));
    }
}

/// Two lists of one length on which two tests agree place by place, and
/// whose elements at each place are written alike, are written alike once
/// filtered.
pub proof fn lemma_filter_map_agree<T, U>(
    a: Seq<T>,
    b: Seq<T>,
    p: spec_fn(T) -> bool,
    q: spec_fn(T) -> bool,
    f: spec_fn(T) -> U,
)
    requires
        a.len() == b.len(),
        forall|i: int| 0 <= i < a.len() ==> p(#[trigger] a[i]) == q(b[i]) && f(a[i]) == f(b[i]),
    ensures
        a.filter(p).map_values(f) == b.filter(q).map_values(f),
    decreases a.len(),
{
    reveal(Seq::filter);
    if a.len() > 0 {
        let af = a.drop_last();
        let bf = b.drop_last();
        assert forall|i: int| 0 <= i < af.len() implies p(#[trigger] af[i]) == q(bf[i]) && f(af[i])
            == f(bf[i]) by {
            assert(af[i] == a[i]);
            assert(bf[i] == b[i]);
        }
        lemma_filter_map_agree(af, bf, p, q, f);
        assert(p(a[a.len() - 1]) == q(b[b.len() - 1]));
        assert(f(a[a.len() - 1]) == f(b[b.len() - 1]));
        if p(a.last()) {
            assert(af.filter(p).push(a.last()).map_values(f) =~= af.filter(p).map_values(f).push(
                f(a.last()),
            ));
            assert(bf.filter(q).push(b.last()).map_values(f) =~= bf.filter(q).map_values(f).push(
                f(b.last()),
            ));
        }
    } else {
        assert(a.filter(p) =~= Seq::<T>::empty());
        assert(b.filter(q) =~= Seq::<T>::empty());
        assert(a.filter(p).map_values(f) =~= b.filter(q).map_values(f));
    }
}

} // verus!
