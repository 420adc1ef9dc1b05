//! A map from strings.

use vstd::prelude::*;
use crate::text::same_text;

verus! {

/// A map from strings, kept as a list of entries in which no key stands twice.
pub struct StringMap<V> {
    entries: Vec<(String, V)>,
}

impl<V> View for StringMap<V> {
    type V = Map<Seq<char>, V>;

    closed spec fn view(&self) -> Map<Seq<char>, V> {
        Map::new(
            |k: Seq<char>| exists|i: int| self.holds_at(k, i),
            |k: Seq<char>| self.entries@[choose|i: int| self.holds_at(k, i)].1,
        )
    }
}

impl<V> StringMap<V> {
    spec fn holds_at(&self, k: Seq<char>, i: int) -> bool {
        0 <= i < self.entries@.len() && self.entries@[i].0@ == k
    }

    #[verifier::type_invariant]
    spec fn keys_distinct(&self) -> bool {
        forall|i: int, j: int|
            0 <= i < j < self.entries@.len() ==> (#[trigger] self.entries@[i]).0@ != (
            #[trigger] self.entries@[j]).0@
    }

    /// What a key leads to is what its one entry holds.
    proof fn lemma_entry(&self, k: Seq<char>, i: int)
        requires
            self.keys_distinct(),
            self.holds_at(k, i),
        ensures
            self@.dom().contains(k),
            self@[k] == self.entries@[i].1,
    {
        let c = choose|c: int| self.holds_at(k, c);
        assert(self.holds_at(k, c));
    }

    /// The empty map.
    pub fn new() -> (r: Self)
        ensures
            r@ == Map::<Seq<char>, V>::empty(),
    {
        let r = StringMap { entries: Vec::new() };
        assert(r@ =~= Map::<Seq<char>, V>::empty());
        r
    }

    /// Whether the map holds nothing.
    pub fn is_empty(&self) -> (r: bool)
        ensures
            r == (self@ == Map::<Seq<char>, V>::empty()),
    {
        proof {
            if self.entries@.len() > 0 {
                let k = self.entries@[0].0@;
                assert(self.holds_at(k, 0));
                assert(self@.dom().contains(k));
            } else {
                assert(self@ =~= Map::<Seq<char>, V>::empty());
            }
        }
        self.entries.len() == 0
    }

    /// The position of the entry for a key.
    fn position(&self, k: &str) -> (r: Option<usize>)
        ensures
            match r {
                Some(i) => self.holds_at(k@, i as int),
                None => forall|i: int| !self.holds_at(k@, i),
            },
    {
        for i in 0..self.entries.len()
            invariant
                forall|j: int| 0 <= j < i ==> !self.holds_at(k@, j),
        {
            if same_text(&self.entries[i].0, k) {
                return Some(i);
            }
        }
        None
    }

    /// What a key leads to.
    pub fn get(&self, k: &str) -> (r: Option<&V>)
        ensures
            match r {
                Some(v) => self@.dom().contains(k@) && *v == self@[k@],
                None => !self@.dom().contains(k@),
            },
    {
        proof {
            use_type_invariant(self);
        }
        match self.position(k) {
            Some(i) => {
                proof {
                    self.lemma_entry(k@, i as int);
                }
                Some(&self.entries[i].1)
            },
            None => None,
        }
    }

    /// Makes a key lead to a value, whatever it led to before.
    pub fn insert(&mut self, k: String, v: V)
        ensures
            final(self)@ == old(self)@.insert(k@, v),
    {
        proof {
            use_type_invariant(&*self);
        }
        let ghost before = *self;
        let found = self.position(&k);
        let mut entries: Vec<(String, V)> = Vec::new();
        std::mem::swap(&mut entries, &mut self.entries);
        let ghost key = k@;
        let ghost val = v;
        match found {
            Some(i) => {
                entries.set(i, (k, v));
            },
            None => {
                entries.push((k, v));
            },
        }
        let ghost at = match found {
            Some(i) => i as int,
            None => before.entries@.len() as int,
        };
        proof {
            assert(entries@[at].0@ == key && entries@[at].1 == val);
            assert forall|i: int| 0 <= i < entries@.len() && i != at implies (
            #[trigger] entries@[i]).0@ != key && entries@[i] == before.entries@[i] by {
                if before.entries@[i].0@ == key {
                    assert(before.holds_at(key, i));
                }
            }
        }
        self.entries = entries;
        proof {
            assert(self.holds_at(key, at));
            self.lemma_entry(key, at);
            let after = before@.insert(key, val);
            assert forall|q: Seq<char>| #[trigger] self@.dom().contains(q) == after.dom().contains(
                q,
            ) by {
                if q != key && before@.dom().contains(q) {
                    let i = choose|i: int| before.holds_at(q, i);
                    assert(before.holds_at(q, i));
                    assert(self.holds_at(q, i));
                }
                if q != key && self@.dom().contains(q) {
                    let i = choose|i: int| self.holds_at(q, i);
                    assert(self.holds_at(q, i));
                    assert(before.holds_at(q, i));
                }
            }
            assert forall|q: Seq<char>| self@.dom().contains(q) implies #[trigger] self@[q]
                == after[q] by {
                if q != key {
                    let i = choose|i: int| self.holds_at(q, i);
                    assert(self.holds_at(q, i));
                    assert(before.holds_at(q, i));
                    self.lemma_entry(q, i);
                    before.lemma_entry(q, i);
                }
            }
            assert(self@ =~= after);
        }
    }
}

impl<V: Clone> Clone for StringMap<V> {
    fn clone(&self) -> (r: Self)
        ensures
            r@.dom() == self@.dom(),
            forall|k: Seq<char>| #[trigger]
                self@.dom().contains(k) ==> vstd::pervasive::cloned::<V>(self@[k], r@[k]),
    {
        proof {
            use_type_invariant(self);
        }
        let mut entries: Vec<(String, V)> = Vec::new();
        for i in 0..self.entries.len()
            invariant
                entries@.len() == i,
                forall|j: int|
                    0 <= j < i ==> (#[trigger] entries@[j]).0@ == self.entries@[j].0@
                        && vstd::pervasive::cloned::<V>(self.entries@[j].1, entries@[j].1),
        {
            entries.push((self.entries[i].0.clone(), self.entries[i].1.clone()));
        }
        let r = StringMap { entries };
        proof {
            assert forall|k: Seq<char>| r@.dom().contains(k) == self@.dom().contains(k) by {
                if self@.dom().contains(k) {
                    let i = choose|i: int| self.holds_at(k, i);
                    assert(r.holds_at(k, i));
                }
                if r@.dom().contains(k) {
                    let i = choose|i: int| r.holds_at(k, i);
                    assert(self.holds_at(k, i));
                }
            }
            assert forall|k: Seq<char>| #[trigger]
                self@.dom().contains(k) implies vstd::pervasive::cloned::<V>(self@[k], r@[k]) by {
                let i = choose|i: int| self.holds_at(k, i);
                assert(r.holds_at(k, i));
                self.lemma_entry(k, i);
                r.lemma_entry(k, i);
            }
        }
        r
    }
}

impl<V> Default for StringMap<V> {
    fn default() -> (r: Self)
        ensures
            r@ == Map::<Seq<char>, V>::empty(),
    {
        StringMap::new()
    }
}

} // verus!
