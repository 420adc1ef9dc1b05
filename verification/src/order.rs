//! The order of texts, and sorted lists of them.

use vstd::prelude::*;
use vstd::relations;
use vstd::seq_lib;
use crate::text::{self, chars_of};

verus! {

/// Whether `a` stands before `b` or is `b`: texts are ordered by the first character in which they
/// differ, and a text stands before what it is a prefix of.
pub open spec fn at_most(a: Seq<char>, b: Seq<char>) -> bool
    decreases a.len(),
{
    if a.len() == 0 {
        true
    } else if b.len() == 0 {
        false
    } else if a[0] != b[0] {
        a[0] < b[0]
    } else {
        at_most(a.drop_first(), b.drop_first())
    }
}

/// The order of texts as a relation.
pub open spec fn by_text() -> spec_fn(Seq<char>, Seq<char>) -> bool {
    |a: Seq<char>, b: Seq<char>| at_most(a, b)
}

/// A list of texts in order.
pub open spec fn sorted(list: Seq<Seq<char>>) -> Seq<Seq<char>> {
    list.sort_by(by_text())
}

/// A text stands before itself.
proof fn lemma_reflexive(a: Seq<char>)
    ensures
        at_most(a, a),
    decreases a.len(),
{
    if a.len() > 0 {
        lemma_reflexive(a.drop_first());
    }
}

/// Of two texts one stands before the other.
proof fn lemma_total(a: Seq<char>, b: Seq<char>)
    ensures
        at_most(a, b) || at_most(b, a),
    decreases a.len(),
{
    if a.len() > 0 && b.len() > 0 && a[0] == b[0] {
        lemma_total(a.drop_first(), b.drop_first());
    }
}

/// Two texts that stand before each other are the same.
proof fn lemma_antisymmetric(a: Seq<char>, b: Seq<char>)
    requires
        at_most(a, b),
        at_most(b, a),
    ensures
        a == b,
    decreases a.len(),
{
    if a.len() > 0 && b.len() > 0 {
        lemma_antisymmetric(a.drop_first(), b.drop_first());
        assert(a =~= seq![a[0]] + a.drop_first());
        assert(b =~= seq![b[0]] + b.drop_first());
    } else {
        assert(a =~= b);
    }
}

/// What stands before a text stands before what follows that text.
proof fn lemma_transitive(a: Seq<char>, b: Seq<char>, c: Seq<char>)
    requires
        at_most(a, b),
        at_most(b, c),
    ensures
        at_most(a, c),
    decreases a.len(),
{
    if a.len() > 0 && a[0] == b[0] && b[0] == c[0] {
        lemma_transitive(a.drop_first(), b.drop_first(), c.drop_first());
    }
}

/// The order of texts is total.
pub proof fn lemma_by_text_is_total()
    ensures
        relations::total_ordering(by_text()),
{
    let r = by_text();
    assert forall|a: Seq<char>| #[trigger] r(a, a) by {
        lemma_reflexive(a);
    }
    assert forall|a: Seq<char>, b: Seq<char>| #[trigger] r(a, b) && #[trigger] r(b, a) implies a
        == b by {
        lemma_antisymmetric(a, b);
    }
    assert forall|a: Seq<char>, b: Seq<char>, c: Seq<char>| #[trigger]
        r(a, b) && #[trigger] r(b, c) implies r(a, c) by {
        lemma_transitive(a, b, c);
    }
    assert forall|a: Seq<char>, b: Seq<char>| #[trigger] r(a, b) || #[trigger] r(b, a) by {
        lemma_total(a, b);
    }
}

/// Whether `a` stands before `b` or is `b`.
fn text_at_most(a: &str, b: &str) -> (r: bool)
    ensures
        r == at_most(a@, b@),
{
    let x = chars_of(a);
    let y = chars_of(b);
    let mut i: usize = 0;
    assert(x@.skip(0) =~= x@);
    assert(y@.skip(0) =~= y@);
    while i < x.len() && i < y.len()
        invariant
            x@ == a@,
            y@ == b@,
            i <= x@.len(),
            i <= y@.len(),
            at_most(x@, y@) == at_most(x@.skip(i as int), y@.skip(i as int)),
        decreases x@.len() - i,
    {
        assert(x@.skip(i as int)[0] == x@[i as int] && y@.skip(i as int)[0] == y@[i as int]);
        if x[i] != y[i] {
            return x[i] < y[i];
        }
        assert(x@.skip(i as int).drop_first() =~= x@.skip(i + 1));
        assert(y@.skip(i as int).drop_first() =~= y@.skip(i + 1));
        i += 1;
    }
    i == x.len()
}

/// Puts a string where it belongs in a list that is in order.
fn insert_sorted(list: &mut Vec<String>, s: String)
    requires
        relations::sorted_by(text::texts(old(list)@), by_text()),
    ensures
        relations::sorted_by(text::texts(final(list)@), by_text()),
        text::texts(final(list)@).to_multiset() == text::texts(old(list)@).to_multiset().insert(
            s@,
        ),
{
    let ghost before = text::texts(list@);
    let ghost x = s@;
    let mut i: usize = 0;
    while i < list.len() && text_at_most(&list[i], &s)
        invariant
            list@ == old(list)@,
            before == text::texts(list@),
            i <= list@.len(),
            forall|j: int| 0 <= j < i ==> at_most(#[trigger] before[j], s@),
        decreases list@.len() - i,
    {
        i += 1;
    }
    proof {
        let r = before.insert(i as int, x);
        seq_lib::to_multiset_insert(before, i as int, x);
        assert forall|j: int, k: int| 0 <= j < k < r.len() implies #[trigger] by_text()(
            r[j],
            r[k],
        ) by {
            if j == i {
                lemma_total(x, before[i as int]);
                if k - 1 > i {
                    assert(by_text()(before[i as int], before[k - 1]));
                    lemma_transitive(x, before[i as int], before[k - 1]);
                }
            } else if k == i {
                assert(at_most(before[j], x));
            } else {
                let p = if j < i { j } else { j - 1 };
                let q = if k < i { k } else { k - 1 };
                assert(by_text()(before[p], before[q]));
            }
        }
    }
    list.insert(i, s);
    assert(text::texts(list@) =~= before.insert(i as int, x));
}

/// The strings of a list in order.
pub fn sort_texts(list: &Vec<String>) -> (r: Vec<String>)
    ensures
        text::texts(r@) == sorted(text::texts(list@)),
{
    let ghost all = text::texts(list@);
    let mut r: Vec<String> = Vec::new();
    assert(text::texts(r@) =~= all.take(0));
    for i in 0..list.len()
        invariant
            all == text::texts(list@),
            relations::sorted_by(text::texts(r@), by_text()),
            text::texts(r@).to_multiset() == all.take(i as int).to_multiset(),
    {
        proof {
            assert(all.take(i + 1) =~= all.take(i as int).push(all[i as int]));
            seq_lib::to_multiset_build(all.take(i as int), all[i as int]);
        }
        insert_sorted(&mut r, list[i].clone());
    }
    proof {
        assert(all.take(list@.len() as int) =~= all);
        lemma_by_text_is_total();
        all.lemma_sort_by_ensures(by_text());
        seq_lib::lemma_sorted_unique(text::texts(r@), sorted(all), by_text());
    }
    r
}

/// A sorted list holds the same texts as the list, each as often.
pub proof fn lemma_sorted_holds_the_same(list: Seq<Seq<char>>)
    ensures
        sorted(list).to_multiset() == list.to_multiset(),
        sorted(list).to_set() == list.to_set(),
{
    broadcast use seq_lib::group_to_multiset_ensures;

    lemma_by_text_is_total();
    list.lemma_sort_by_ensures(by_text());
    assert forall|t: Seq<char>| sorted(list).contains(t) == list.contains(t) by {
        assert(sorted(list).contains(t) == (sorted(list).to_multiset().count(t) > 0));
        assert(list.contains(t) == (list.to_multiset().count(t) > 0));
    }
    assert(sorted(list).to_set() =~= list.to_set());
}

/// The order in which texts are given does not matter: lists that hold the same texts, each as often,
/// are sorted to the same list.
pub proof fn law_sorting_forgets_order(a: Seq<Seq<char>>, b: Seq<Seq<char>>)
    requires
        a.to_multiset() == b.to_multiset(),
    ensures
        sorted(a) == sorted(b),
{
    lemma_by_text_is_total();
    a.lemma_sort_by_ensures(by_text());
    b.lemma_sort_by_ensures(by_text());
    seq_lib::lemma_sorted_unique(sorted(a), sorted(b), by_text());
}

/// The order of texts is by the first character in which they differ, and a text stands before what
/// it is the beginning of.
pub proof fn law_order_is_by_first_difference(
    common: Seq<char>,
    a: Seq<char>,
    b: Seq<char>,
)
    requires
        a.len() > 0 && b.len() > 0 ==> a[0] != b[0],
    ensures
        at_most(common + a, common + b) <==> a.len() == 0 || (b.len() > 0 && a[0] < b[0]),
    decreases common.len(),
{
    if common.len() == 0 {
        assert(common + a =~= a);
        assert(common + b =~= b);
    } else {
        law_order_is_by_first_difference(common.drop_first(), a, b);
        assert((common + a).drop_first() =~= common.drop_first() + a);
        assert((common + b).drop_first() =~= common.drop_first() + b);
    }
}

/// Sorting keeps every text as often as it was there, and puts none before a smaller one.
pub proof fn law_sorting_orders(list: Seq<Seq<char>>)
    ensures
        sorted(list).to_multiset() == list.to_multiset(),
        forall|i: int, j: int|
            0 <= i < j < sorted(list).len() ==> #[trigger] at_most(sorted(list)[i], sorted(list)[j]),
{
    lemma_by_text_is_total();
    list.lemma_sort_by_ensures(by_text());
    assert forall|i: int, j: int| 0 <= i < j < sorted(list).len() implies #[trigger] at_most(
        sorted(list)[i],
        sorted(list)[j],
    ) by {
        assert(by_text()(sorted(list)[i], sorted(list)[j]));
    }
}

/// A sorted list holds the texts of the list, each as often, in order.
pub proof fn law_sorted_lists_keep_their_texts(list: Vec<String>, r: Vec<String>)
    requires
        call_ensures(sort_texts, (&list,), r),
    ensures
        text::texts(r@).to_multiset() == text::texts(list@).to_multiset(),
        forall|i: int, j: int|
            0 <= i < j < r@.len() ==> #[trigger] at_most(
                text::texts(r@)[i],
                text::texts(r@)[j],
            ),
{
    law_sorting_orders(text::texts(list@));
}

} // verus!
