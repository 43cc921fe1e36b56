//! A map from text to values that hands its keys out in text order.

use vstd::prelude::*;

use crate::order::{
    compare_texts, lemma_text_order_chains, lemma_text_order_flips, text_order, Order,
};
use crate::text::Text;

verus! {

/// A map keyed by text. Its entries are kept in strictly increasing key order.
#[derive(Debug)]
pub struct TextMap<V> {
    entries: Vec<(String, V)>,
}

/// Every key stands before the later ones.
pub closed spec fn increasing<V>(entries: Seq<(String, V)>) -> bool {
    forall|i: int, j: int|
        #![trigger entries[i], entries[j]]
        0 <= i < j < entries.len() ==> text_order(entries[i].0@, entries[j].0@) == Order::Before
}

/// The place of `key` among `entries`.
closed spec fn place<V>(entries: Seq<(String, V)>, key: Text) -> int {
    choose|i: int| 0 <= i < entries.len() && (#[trigger] entries[i]).0@ == key
}

closed spec fn present<V>(entries: Seq<(String, V)>, key: Text) -> bool {
    exists|i: int| 0 <= i < entries.len() && (#[trigger] entries[i]).0@ == key
}

impl<V> View for TextMap<V> {
    type V = Map<Text, V>;

    closed spec fn view(&self) -> Map<Text, V> {
        Map::new(
            |key: Text| present(self.entries@, key),
            |key: Text| self.entries@[place(self.entries@, key)].1,
        )
    }
}

impl<V> TextMap<V> {
    #[verifier::type_invariant]
    closed spec fn ordered(self) -> bool {
        increasing(self.entries@)
    }

    /// The keys in text order.
    pub closed spec fn keys(&self) -> Seq<Text> {
        self.entries@.map_values(|entry: (String, V)| entry.0@)
    }

    /// In an increasing list a key has one place.
    proof fn lemma_entry(entries: Seq<(String, V)>, i: int)
        requires
            increasing(entries),
            0 <= i < entries.len(),
        ensures
            present(entries, entries[i].0@),
            place(entries, entries[i].0@) == i,
    {
        let key = entries[i].0@;
        let p = place(entries, key);
        assert(0 <= p < entries.len() && entries[p].0@ == key);
        lemma_text_order_flips(key, key);
        if p < i {
            assert(text_order(entries[p].0@, entries[i].0@) == Order::Before);
        } else if i < p {
            assert(text_order(entries[i].0@, entries[p].0@) == Order::Before);
        }
    }

    pub fn new() -> (r: Self)
        ensures
            r@ == Map::<Text, V>::empty(),
            r.keys() == Seq::<Text>::empty(),
    {
        let r = TextMap { entries: Vec::new() };
        assert(r@ =~= Map::<Text, V>::empty());
        assert(r.keys() =~= Seq::<Text>::empty());
        r
    }

    /// The number of keys. The keys are listed without repetition, in order.
    pub fn len(&self) -> (r: usize)
        ensures
            r == self.keys().len(),
            self.keys().no_duplicates(),
            self.keys().to_set() == self@.dom(),
            forall|i: int, j: int|
                #![trigger self.keys()[i], self.keys()[j]]
                0 <= i < j < r ==> text_order(self.keys()[i], self.keys()[j]) == Order::Before,
    {
        proof {
            use_type_invariant(self);
            assert forall|i: int, j: int|
                #![trigger self.keys()[i], self.keys()[j]]
                0 <= i < j < self.keys().len() implies text_order(self.keys()[i], self.keys()[j])
                == Order::Before by {
                assert(text_order(self.entries@[i].0@, self.entries@[j].0@) == Order::Before);
            }
            assert forall|i: int, j: int|
                0 <= i < self.keys().len() && 0 <= j < self.keys().len() && i
                    != j implies self.keys()[i] != self.keys()[j] by {
                lemma_text_order_flips(self.keys()[i], self.keys()[j]);
                if i < j {
                    assert(text_order(self.keys()[i], self.keys()[j]) == Order::Before);
                } else {
                    assert(text_order(self.keys()[j], self.keys()[i]) == Order::Before);
                }
            }
            assert forall|key: Text| self.keys().to_set().contains(key)
                == self@.dom().contains(key) by {
                if self.keys().contains(key) {
                    let i = choose|i: int| 0 <= i < self.keys().len() && self.keys()[i] == key;
                    assert(self.entries@[i].0@ == key);
                }
                if present(self.entries@, key) {
                    let i = place(self.entries@, key);
                    assert(self.keys()[i] == key);
                }
            }
            assert(self.keys().to_set() =~= self@.dom());
        }
        self.entries.len()
    }

    /// The key at a place in the order.
    pub fn key_at(&self, i: usize) -> (r: &String)
        requires
            i < self.keys().len(),
        ensures
            r@ == self.keys()[i as int],
            self@.dom().contains(r@),
    {
        proof {
            use_type_invariant(self);
            Self::lemma_entry(self.entries@, i as int);
        }
        &self.entries[i].0
    }

    /// The first place whose key does not stand before `key`.
    fn lower(&self, key: &str) -> (r: usize)
        ensures
            r <= self.entries@.len(),
            forall|k: int|
                0 <= k < r ==> text_order((#[trigger] self.entries@[k]).0@, key@)
                    == Order::Before,
            forall|k: int|
                r <= k < self.entries@.len() ==> text_order((#[trigger] self.entries@[k]).0@, key@)
                    != Order::Before,
    {
        proof {
            use_type_invariant(self);
        }
        let mut low: usize = 0;
        let mut high: usize = self.entries.len();
        while low < high
            invariant
                low <= high <= self.entries@.len(),
                increasing(self.entries@),
                forall|k: int|
                    0 <= k < low ==> text_order((#[trigger] self.entries@[k]).0@, key@)
                        == Order::Before,
                forall|k: int|
                    high <= k < self.entries@.len() ==> text_order(
                        (#[trigger] self.entries@[k]).0@,
                        key@,
                    ) != Order::Before,
            decreases high - low,
        {
            let middle: usize = low + (high - low) / 2;
            let here = compare_texts(self.entries[middle].0.as_str(), key);
            let ghost m = self.entries@[middle as int].0@;
            match here {
                Order::Before => {
                    proof {
                        assert forall|k: int| 0 <= k < middle + 1 implies text_order(
                            (#[trigger] self.entries@[k]).0@,
                            key@,
                        ) == Order::Before by {
                            if k < middle {
                                assert(text_order(self.entries@[k].0@, m) == Order::Before);
                                lemma_text_order_chains(self.entries@[k].0@, m, key@);
                            }
                        }
                    }
                    low = middle + 1;
                },
                _ => {
                    proof {
                        assert forall|k: int| middle <= k < self.entries@.len() implies text_order(
                            (#[trigger] self.entries@[k]).0@,
                            key@,
                        ) != Order::Before by {
                            if k > middle {
                                let e = self.entries@[k].0@;
                                assert(text_order(m, e) == Order::Before);
                                if text_order(e, key@) == Order::Before {
                                    lemma_text_order_chains(m, e, key@);
                                }
                            }
                        }
                    }
                    high = middle;
                },
            }
        }
        low
    }

    /// The value at a key.
    pub fn get(&self, key: &str) -> (r: Option<&V>)
        ensures
            match r {
                Some(value) => self@.dom().contains(key@) && self@[key@] == *value,
                None => !self@.dom().contains(key@),
            },
    {
        let at: usize = self.lower(key);
        proof {
            use_type_invariant(self);
            lemma_text_order_flips(key@, key@);
            if present(self.entries@, key@) {
                let p = place(self.entries@, key@);
                assert(self.entries@[p].0@ == key@);
                if at < p {
                    assert(text_order(self.entries@[at as int].0@, key@) == Order::Before);
                }
            }
        }
        if at < self.entries.len() {
            let here = compare_texts(self.entries[at].0.as_str(), key);
            proof {
                lemma_text_order_flips(self.entries@[at as int].0@, key@);
            }
            match here {
                Order::Same => {
                    proof {
                        Self::lemma_entry(self.entries@, at as int);
                    }
                    return Some(&self.entries[at].1);
                },
                _ => {},
            }
        }
        None
    }

    /// Whether a key has a value.
    pub fn contains(&self, key: &str) -> (r: bool)
        ensures
            r == self@.dom().contains(key@),
    {
        self.get(key).is_some()
    }

    /// `after` is `before` with the entry `after[at]` put in at `at`, over the
    /// one with its key if there is one.
    spec fn put(before: Seq<(String, V)>, after: Seq<(String, V)>, at: int, found: bool) -> bool {
        &&& 0 <= at <= before.len()
        &&& 0 <= at < after.len()
        &&& found ==> at < before.len() && before[at].0@ == after[at].0@
        &&& after == (if found {
            before.remove(at)
        } else {
            before
        }).insert(at, after[at])
    }

    /// Putting an entry at its place keeps the order.
    proof fn lemma_put_keeps_order(
        before: Seq<(String, V)>,
        after: Seq<(String, V)>,
        at: int,
        found: bool,
    )
        requires
            increasing(before),
            Self::put(before, after, at, found),
            !found ==> at < before.len() ==> before[at].0@ != after[at].0@,
            forall|k: int|
                0 <= k < at ==> text_order((#[trigger] before[k]).0@, after[at].0@)
                    == Order::Before,
            at < before.len() ==> text_order(before[at].0@, after[at].0@) != Order::Before,
        ensures
            increasing(after),
    {
        let name = after[at].0@;
        let shift: int = if found { 0 } else { 1 };
        if !found && at < before.len() {
            lemma_text_order_flips(before[at].0@, name);
        }
        assert forall|i: int, j: int|
            #![trigger after[i], after[j]]
            0 <= i < j < after.len() implies text_order(after[i].0@, after[j].0@)
            == Order::Before by {
            let i0 = if i <= at { i } else { i - shift };
            let j0 = if j <= at { j } else { j - shift };
            if i != at && j != at {
                assert(after[i] == before[i0] && after[j] == before[j0]);
            } else if j == at {
                assert(after[i] == before[i]);
            } else {
                assert(after[j] == before[j0]);
                if !found && j0 > at {
                    assert(text_order(before[at].0@, before[j0].0@) == Order::Before);
                    lemma_text_order_chains(name, before[at].0@, before[j0].0@);
                }
            }
        }
    }

    /// Putting an entry at its place changes its key alone.
    proof fn lemma_put_changes_one_key(
        before: Seq<(String, V)>,
        after: Seq<(String, V)>,
        at: int,
        found: bool,
        k: Text,
    )
        requires
            increasing(after),
            Self::put(before, after, at, found),
        ensures
            present(after, k) == (k == after[at].0@ || present(before, k)),
            present(after, k) ==> after[place(after, k)].1 == (if k == after[at].0@ {
                after[at].1
            } else {
                before[place(before, k)].1
            }),
    {
        let shift: int = if found { 0 } else { 1 };
        Self::lemma_entry(after, at);
        if k != after[at].0@ {
            if present(after, k) {
                let q = place(after, k);
                assert(after[q].0@ == k);
                let q0 = if q < at { q } else { q - shift };
                assert(after[q] == before[q0]);
                assert(before[q0].0@ == k);
            }
            if present(before, k) {
                let p = place(before, k);
                assert(before[p].0@ == k);
                let p0 = if p < at { p } else { p + shift };
                assert(after[p0] == before[p]);
                Self::lemma_entry(after, p0);
            }
        }
    }

    /// Gives a key its value, in place of the one it had.
    pub fn insert(&mut self, key: String, value: V)
        ensures
            final(self)@ == old(self)@.insert(key@, value),
    {
        let at: usize = self.lower(key.as_str());
        proof {
            use_type_invariant(&*self);
        }
        let mut entries: Vec<(String, V)> = Vec::new();
        core::mem::swap(&mut entries, &mut self.entries);
        let ghost before = entries@;
        let ghost name = key@;
        let mut found: bool = false;
        if at < entries.len() {
            let here = compare_texts(entries[at].0.as_str(), key.as_str());
            proof {
                lemma_text_order_flips(entries@[at as int].0@, key@);
            }
            match here {
                Order::Same => {
                    found = true;
                },
                _ => {},
            }
        }
        if found {
            let _ = entries.remove(at);
        }
        entries.insert(at, (key, value));
        proof {
            Self::lemma_put_keeps_order(before, entries@, at as int, found);
            assert forall|k: Text|
                #![trigger present(entries@, k)]
                present(entries@, k) == (k == name || present(before, k)) && (present(entries@, k)
                    ==> entries@[place(entries@, k)].1 == (if k == name {
                    value
                } else {
                    before[place(before, k)].1
                })) by {
                Self::lemma_put_changes_one_key(before, entries@, at as int, found, k);
            }
        }
        self.entries = entries;
        assert(self@ =~= old(self)@.insert(name, value));
    }
}

} // verus!
