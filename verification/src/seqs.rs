//! Sequences: models of lists, and the first item that satisfies a predicate.

use vstd::prelude::*;
use vstd::seq_lib;

verus! {

/// The models of the items of a list.
pub open spec fn views<T: View>(items: Seq<T>) -> Seq<T::V> {
    items.map_values(|t: T| t@)
}

/// Whether position `i` is the first whose item satisfies `p`.
pub open spec fn first_where<A>(s: Seq<A>, p: spec_fn(A) -> bool, i: int) -> bool {
    0 <= i < s.len() && p(s[i]) && forall|j: int| 0 <= j < i ==> !p(#[trigger] s[j])
}

/// The first item that satisfies `p`.
pub open spec fn first<A>(s: Seq<A>, p: spec_fn(A) -> bool) -> Option<A> {
    if exists|i: int| first_where(s, p, i) {
        Some(s[choose|i: int| first_where(s, p, i)])
    } else {
        None
    }
}

/// A first item at a known position.
pub proof fn lemma_first_at<A>(s: Seq<A>, p: spec_fn(A) -> bool, i: int)
    requires
        first_where(s, p, i),
    ensures
        first(s, p) == Some(s[i]),
{
    let k = choose|k: int| first_where(s, p, k);
    assert(first_where(s, p, k));
}

/// Where some item satisfies `p`, there is a first.
pub proof fn lemma_first_exists<A>(s: Seq<A>, p: spec_fn(A) -> bool, i: int)
    requires
        0 <= i < s.len(),
        p(s[i]),
    ensures
        first(s, p) is Some,
        p(first(s, p)->0),
        s.contains(first(s, p)->0),
    decreases i,
{
    if forall|j: int| 0 <= j < i ==> !p(#[trigger] s[j]) {
        assert(first_where(s, p, i));
        lemma_first_at(s, p, i);
    } else {
        let j = choose|j: int| 0 <= j < i && p(#[trigger] s[j]);
        lemma_first_exists(s, p, j);
    }
}

/// A further item is kept by a filter exactly where it satisfies the predicate.
pub proof fn lemma_filter_push<A>(s: Seq<A>, p: spec_fn(A) -> bool, v: A)
    ensures
        s.push(v).filter(p) == (if p(v) {
            s.filter(p).push(v)
        } else {
            s.filter(p)
        }),
{
    reveal(Seq::filter);
    assert(s.push(v).drop_last() =~= s);
}

/// What a filter keeps satisfies the predicate and stood in the sequence; all of that is kept.
pub proof fn lemma_filter_contains<A>(s: Seq<A>, p: spec_fn(A) -> bool, v: A)
    ensures
        s.filter(p).contains(v) <==> s.contains(v) && p(v),
    decreases s.len(),
{
    if s.len() == 0 {
        reveal(Seq::filter);
    } else {
        let before = s.drop_last();
        lemma_filter_contains(before, p, v);
        lemma_filter_push(before, p, s.last());
        assert(s =~= before.push(s.last()));
        lemma_push_contains(before, s.last(), v);
        lemma_push_contains(before.filter(p), s.last(), v);
    }
}

/// A sequence with one more item contains that item and what it contained.
pub proof fn lemma_push_contains<A>(s: Seq<A>, last: A, v: A)
    ensures
        s.push(last).contains(v) <==> s.contains(v) || v == last,
{
    if s.contains(v) {
        let i = choose|i: int| 0 <= i < s.len() && s[i] == v;
        assert(s.push(last)[i] == v);
    }
    assert(s.push(last)[s.len() as int] == last);
    if s.push(last).contains(v) {
        let i = choose|i: int| 0 <= i < s.len() + 1 && s.push(last)[i] == v;
        if i < s.len() {
            assert(s[i] == v);
        }
    }
}

/// What two sequences hold together.
pub proof fn lemma_add_contains<A>(a: Seq<A>, b: Seq<A>, x: A)
    ensures
        (a + b).contains(x) <==> a.contains(x) || b.contains(x),
{
    if a.contains(x) {
        let i = choose|i: int| 0 <= i < a.len() && a[i] == x;
        assert((a + b)[i] == x);
    }
    if b.contains(x) {
        let i = choose|i: int| 0 <= i < b.len() && b[i] == x;
        assert((a + b)[a.len() + i] == x);
    }
    if (a + b).contains(x) {
        let i = choose|i: int| 0 <= i < a.len() + b.len() && (a + b)[i] == x;
        if i < a.len() {
            assert(a[i] == x);
        } else {
            assert(b[i - a.len()] == x);
        }
    }
}

/// The positions of the items that satisfy `p`, in order.
pub open spec fn positions<A>(s: Seq<A>, p: spec_fn(A) -> bool) -> Seq<int>
    decreases s.len(),
{
    if s.len() == 0 {
        Seq::empty()
    } else if p(s.last()) {
        positions(s.drop_last(), p).push(s.len() - 1)
    } else {
        positions(s.drop_last(), p)
    }
}

/// A filter keeps the items at the positions that satisfy the predicate, in order.
pub proof fn lemma_filter_positions<A>(s: Seq<A>, p: spec_fn(A) -> bool)
    ensures
        s.filter(p).len() == positions(s, p).len(),
        forall|k: int|
            0 <= k < positions(s, p).len() ==> 0 <= #[trigger] positions(s, p)[k] < s.len() && p(
                s[positions(s, p)[k]],
            ) && s.filter(p)[k] == s[positions(s, p)[k]],
        forall|k: int, l: int|
            0 <= k < l < positions(s, p).len() ==> #[trigger] positions(s, p)[k]
                < #[trigger] positions(s, p)[l],
        forall|i: int| 0 <= i < s.len() && p(#[trigger] s[i]) ==> positions(s, p).contains(i),
    decreases s.len(),
{
    if s.len() == 0 {
        reveal(Seq::filter);
    } else {
        let before = s.drop_last();
        let at = positions(before, p);
        lemma_filter_positions(before, p);
        lemma_filter_push(before, p, s.last());
        assert(s =~= before.push(s.last()));
        assert forall|k: int| 0 <= k < positions(s, p).len() implies 0 <= #[trigger] positions(
            s,
            p,
        )[k] < s.len() && p(s[positions(s, p)[k]]) && s.filter(p)[k] == s[positions(s, p)[k]] by {
            if k < at.len() {
                assert(0 <= at[k] < before.len());
            }
        }
        assert forall|i: int| 0 <= i < s.len() && p(#[trigger] s[i]) implies positions(
            s,
            p,
        ).contains(i) by {
            if i < before.len() {
                assert(p(before[i]));
                let k = choose|k: int| 0 <= k < at.len() && at[k] == i;
                assert(positions(s, p)[k] == i);
            } else {
                assert(positions(s, p)[at.len() as int] == i);
            }
        }
    }
}

/// An item of a sequence stands in every sequence with the same items.
pub proof fn lemma_permuted<A>(a: Seq<A>, b: Seq<A>, i: int)
    requires
        a.to_multiset() == b.to_multiset(),
        0 <= i < a.len(),
    ensures
        exists|k: int| 0 <= k < b.len() && b[k] == a[i],
{
    seq_lib::to_multiset_contains(a, a[i]);
    seq_lib::to_multiset_contains(b, a[i]);
    assert(a.contains(a[i]));
    assert(b.contains(a[i]));
}

/// Beside an item that two sequences with the same items share, the other items of one stand in the
/// other, at other positions.
pub proof fn lemma_permuted_other<A>(a: Seq<A>, b: Seq<A>, i: int, k: int, l: int)
    requires
        a.to_multiset() == b.to_multiset(),
        0 <= i < a.len(),
        0 <= k < b.len(),
        0 <= l < b.len(),
        l != k,
        a[i] == b[k],
    ensures
        exists|j: int| 0 <= j < a.len() && j != i && a[j] == b[l],
{
    let (c, d) = (a.remove(i), b.remove(k));
    seq_lib::to_multiset_remove(a, i);
    seq_lib::to_multiset_remove(b, k);
    let at = if l < k {
        l
    } else {
        l - 1
    };
    assert(d[at] == b[l]);
    lemma_permuted(d, c, at);
    let m = choose|m: int| 0 <= m < c.len() && c[m] == d[at];
    let j = if m < i {
        m
    } else {
        m + 1
    };
    assert(a[j] == c[m]);
}

/// Types whose values can be compared.
pub trait Same: View + Sized {
    /// Whether two values have the same model.
    fn same(&self, other: &Self) -> (r: bool)
        ensures
            r == (self@ == other@),
    ;
}

/// Whether two lists are equal.
pub fn same_items<T: Same>(a: &Vec<T>, b: &Vec<T>) -> (r: bool)
    ensures
        r == (views(a@) == views(b@)),
{
    if a.len() != b.len() {
        assert(views(a@).len() != views(b@).len());
        return false;
    }
    for i in 0..a.len()
        invariant
            a@.len() == b@.len(),
            forall|j: int| 0 <= j < i ==> (#[trigger] a@[j])@ == b@[j]@,
    {
        if !a[i].same(&b[i]) {
            assert(views(a@)[i as int] != views(b@)[i as int]);
            return false;
        }
    }
    assert(views(a@) =~= views(b@));
    true
}

// ---- Laws of sequences ----

/// The models of a list are those of its items, one by one.
pub proof fn law_models_are_those_of_the_items<T: View>(items: Seq<T>)
    ensures
        views(items).len() == items.len(),
        forall|i: int| 0 <= i < items.len() ==> #[trigger] views(items)[i] == items[i]@,
{
}

/// The first item that satisfies a predicate satisfies it, and none before it does; where there is no
/// such item, no item satisfies it.
pub proof fn law_first_is_first<A>(s: Seq<A>, p: spec_fn(A) -> bool)
    ensures
        first(s, p) matches Some(x) ==> exists|i: int|
            0 <= i < s.len() && #[trigger] s[i] == x && p(x) && forall|j: int|
                0 <= j < i ==> !p(#[trigger] s[j]),
        first(s, p) is None ==> forall|i: int| 0 <= i < s.len() ==> !p(#[trigger] s[i]),
{
    if first(s, p) is Some {
        let i = choose|i: int| first_where(s, p, i);
        assert(first_where(s, p, i));
        assert(s[i] == first(s, p)->0);
    } else {
        assert forall|i: int| 0 <= i < s.len() implies !p(#[trigger] s[i]) by {
            if p(s[i]) {
                lemma_first_exists(s, p, i);
            }
        }
    }
}

} // verus!
