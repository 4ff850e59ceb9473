//! A map from text to values that keeps the order in which the keys came.

use indexmap::IndexMap;
use vstd::prelude::*;

verus! {

#[verifier::external_type_specification]
#[verifier::external_body]
#[verifier::reject_recursive_types(K)]
#[verifier::reject_recursive_types(V)]
#[verifier::reject_recursive_types(S)]
pub struct ExIndexMap<K, V, S>(indexmap::IndexMap<K, V, S>);

/// The entries of an `IndexMap` from text to slots, in its order.
pub uninterp spec fn slot_entries(m: IndexMap<String, usize>) -> Seq<(Seq<char>, usize)>;

/// The value of the first entry whose key is `key`.
pub open spec fn lookup<V>(entries: Seq<(Seq<char>, V)>, key: Seq<char>) -> Option<V>
    decreases entries.len(),
{
    if entries.len() == 0 {
        None
    } else {
        match lookup(entries.drop_last(), key) {
            Some(v) => Some(v),
            None => if entries.last().0 == key {
                Some(entries.last().1)
            } else {
                None
            },
        }
    }
}

/// Whether some entry has the key `key`.
pub open spec fn has_key<V>(entries: Seq<(Seq<char>, V)>, key: Seq<char>) -> bool {
    exists|i: int| 0 <= i < entries.len() && (#[trigger] entries[i]).0 == key
}

/// Whether no two entries have the same key.
pub open spec fn distinct_keys<V>(entries: Seq<(Seq<char>, V)>) -> bool {
    forall|i: int, j: int|
        0 <= i < j < entries.len() ==> (#[trigger] entries[i]).0 != (#[trigger] entries[j]).0
}

/// `entries` after storing `v` under `key`: in place where the key is
/// there already, at the end where it is not.
pub open spec fn stored<V>(entries: Seq<(Seq<char>, V)>, key: Seq<char>, v: V) -> Seq<
    (Seq<char>, V),
> {
    if has_key(entries, key) {
        entries.map_values(
            |e: (Seq<char>, V)|
                if e.0 == key {
                    (key, v)
                } else {
                    e
                },
        )
    } else {
        entries.push((key, v))
    }
}

/// A key is found exactly when an entry has it, and then its value is that
/// entry's.
pub proof fn lookup_finds<V>(entries: Seq<(Seq<char>, V)>, key: Seq<char>)
    ensures
        lookup(entries, key) is Some <==> has_key(entries, key),
        lookup(entries, key) is Some ==> exists|i: int|
            0 <= i < entries.len() && (#[trigger] entries[i]).0 == key && lookup(entries, key)
                == Some(entries[i].1),
    decreases entries.len(),
{
    if entries.len() > 0 {
        let front = entries.drop_last();
        lookup_finds(front, key);
        if lookup(front, key) is Some {
            let i = choose|i: int|
                0 <= i < front.len() && (#[trigger] front[i]).0 == key && lookup(front, key)
                    == Some(front[i].1);
            assert(entries[i] == front[i]);
        } else if has_key(entries, key) {
            let i = choose|i: int| 0 <= i < entries.len() && (#[trigger] entries[i]).0 == key;
            if i < front.len() {
                assert(front[i].0 == key);
            }
        } else {
            assert(entries[entries.len() - 1].0 != key);
        }
    }
}

/// Where keys are distinct, each entry is what its key finds.
pub proof fn lookup_at<V>(entries: Seq<(Seq<char>, V)>, i: int)
    requires
        distinct_keys(entries),
        0 <= i < entries.len(),
    ensures
        lookup(entries, entries[i].0) == Some(entries[i].1),
{
    lookup_finds(entries, entries[i].0);
    assert(has_key(entries, entries[i].0));
}

/// Storing keeps the keys distinct, is seen by a lookup of that key and
/// leaves every other key as it was.
pub proof fn stored_then_looked_up<V>(
    entries: Seq<(Seq<char>, V)>,
    key: Seq<char>,
    v: V,
    other: Seq<char>,
)
    requires
        distinct_keys(entries),
    ensures
        distinct_keys(stored(entries, key, v)),
        lookup(stored(entries, key, v), key) == Some(v),
        other != key ==> lookup(stored(entries, key, v), other) == lookup(entries, other),
{
    let after = stored(entries, key, v);
    lookup_finds(entries, key);
    lookup_finds(entries, other);
    lookup_finds(after, other);
    lookup_finds(after, key);
    if has_key(entries, key) {
        let i = choose|i: int| 0 <= i < entries.len() && (#[trigger] entries[i]).0 == key;
        assert forall|a: int, b: int| 0 <= a < b < after.len() implies (#[trigger] after[a]).0 != (
        #[trigger] after[b]).0 by {
            assert(entries[a].0 != entries[b].0);
        }
        assert(after[i] == (key, v));
        lookup_at(after, i);
        if other != key {
            if has_key(entries, other) {
                let j = choose|j: int|
                    0 <= j < entries.len() && (#[trigger] entries[j]).0 == other;
                assert(after[j] == entries[j]);
                lookup_at(entries, j);
                lookup_at(after, j);
            } else {
                assert forall|j: int| 0 <= j < after.len() implies (#[trigger] after[j]).0
                    != other by {
                    assert(entries[j].0 != other);
                }
            }
        }
    } else {
        assert(after.drop_last() =~= entries);
        assert forall|a: int, b: int| 0 <= a < b < after.len() implies (#[trigger] after[a]).0 != (
        #[trigger] after[b]).0 by {
            assert(entries[a].0 != key);
            if b < entries.len() {
                assert(entries[a].0 != entries[b].0);
            }
        }
    }
}

/// `IndexMap::new` makes a map without entries.
#[verifier::external_body]
fn slots_new() -> (r: IndexMap<String, usize>)
    ensures
        slot_entries(r) == Seq::<(Seq<char>, usize)>::empty(),
{
    IndexMap::new()
}

/// `IndexMap::get` finds the value stored under an equal key.
#[verifier::external_body]
fn slots_get(m: &IndexMap<String, usize>, key: &str) -> (r: Option<usize>)
    ensures
        r == lookup(slot_entries(*m), key@),
{
    m.get(key).copied()
}

/// `IndexMap::insert` appends an entry for a key that is not in the map and
/// replaces the value of one that is.
#[verifier::external_body]
fn slots_insert(m: &mut IndexMap<String, usize>, key: String, slot: usize)
    ensures
        slot_entries(*final(m)) == stored(slot_entries(*old(m)), key@, slot),
{
    m.insert(key, slot);
}

/// An insertion-ordered map from text to values.
#[derive(Debug)]
pub struct OrderedMap<V> {
    slots: IndexMap<String, usize>,
    entries: Vec<(String, V)>,
}

impl<V> View for OrderedMap<V> {
    type V = Seq<(Seq<char>, V)>;

    closed spec fn view(&self) -> Seq<(Seq<char>, V)> {
        self.entries@.map_values(|e: (String, V)| (e.0@, e.1))
    }
}

impl<V> OrderedMap<V> {
    /// Each entry's slot is its position, and no key comes twice.
    #[verifier::type_invariant]
    spec fn well_formed(self) -> bool {
        &&& slot_entries(self.slots).len() == self.entries@.len()
        &&& forall|i: int|
            0 <= i < self.entries@.len() ==> (#[trigger] slot_entries(self.slots)[i]).0
                == self.entries@[i].0@ && slot_entries(self.slots)[i].1 == i
        &&& distinct_keys(slot_entries(self.slots))
    }

    /// A map without entries.
    pub fn new() -> (r: OrderedMap<V>)
        ensures
            r@ == Seq::<(Seq<char>, V)>::empty(),
    {
        let r = OrderedMap { slots: slots_new(), entries: Vec::new() };
        assert(r@ =~= Seq::<(Seq<char>, V)>::empty());
        r
    }

    /// The number of entries; their keys are distinct.
    pub fn len(&self) -> (r: usize)
        ensures
            r == self@.len(),
            distinct_keys(self@),
    {
        proof {
            use_type_invariant(self);
            assert forall|i: int, j: int| 0 <= i < j < self@.len() implies (
            #[trigger] self@[i]).0 != (#[trigger] self@[j]).0 by {
                assert(slot_entries(self.slots)[i].0 != slot_entries(self.slots)[j].0);
            }
        }
        self.entries.len()
    }

    /// Whether there is no entry.
    pub fn is_empty(&self) -> (r: bool)
        ensures
            r == (self@.len() == 0),
    {
        self.entries.len() == 0
    }

    /// The key of the entry at position `i`.
    pub fn key_at(&self, i: usize) -> (r: &String)
        requires
            i < self@.len(),
        ensures
            r@ == self@[i as int].0,
    {
        &self.entries[i].0
    }

    /// The value of the entry at position `i`.
    pub fn value_at(&self, i: usize) -> (r: &V)
        requires
            i < self@.len(),
        ensures
            *r == self@[i as int].1,
    {
        &self.entries[i].1
    }

    /// The position of the entry with the key `key`.
    fn position(&self, key: &str) -> (r: Option<usize>)
        ensures
            match r {
                Some(i) => i < self@.len() && self@[i as int].0 == key@,
                None => !has_key(self@, key@),
            },
    {
        proof {
            use_type_invariant(self);
            lookup_finds(slot_entries(self.slots), key@);
        }
        let r = slots_get(&self.slots, key);
        proof {
            let s = slot_entries(self.slots);
            if r is Some {
                let i = choose|i: int|
                    0 <= i < s.len() && (#[trigger] s[i]).0 == key@ && lookup(s, key@) == Some(
                        s[i].1,
                    );
                assert(s[i].0 == self.entries@[i].0@);
            } else {
                assert forall|i: int| 0 <= i < self@.len() implies (#[trigger] self@[i]).0
                    != key@ by {
                    assert(s[i].0 == self.entries@[i].0@);
                }
            }
        }
        r
    }

    /// The value stored under `key`.
    pub fn get(&self, key: &str) -> (r: Option<&V>)
        ensures
            match r {
                Some(v) => lookup(self@, key@) == Some(*v),
                None => lookup(self@, key@) is None,
            },
    {
        proof {
            use_type_invariant(self);
            assert forall|i: int, j: int| 0 <= i < j < self@.len() implies (
            #[trigger] self@[i]).0 != (#[trigger] self@[j]).0 by {
                assert(slot_entries(self.slots)[i].0 != slot_entries(self.slots)[j].0);
            }
            lookup_finds(self@, key@);
        }
        match self.position(key) {
            Some(i) => {
                proof {
                    lookup_at(self@, i as int);
                }
                Some(&self.entries[i].1)
            },
            None => None,
        }
    }

    /// Whether `key` has an entry.
    pub fn contains_key(&self, key: &str) -> (r: bool)
        ensures
            r == has_key(self@, key@),
    {
        match self.position(key) {
            Some(i) => {
                assert(self@[i as int].0 == key@);
                true
            },
            None => false,
        }
    }

    /// Stores `value` under `key`.
    pub fn insert(&mut self, key: String, value: V)
        ensures
            final(self)@ == stored(old(self)@, key@, value),
    {
        let ghost before = self@;
        let found = self.position(key.as_str());
        let mut taken: OrderedMap<V> = OrderedMap::new();
        std::mem::swap(&mut taken, self);
        proof {
            use_type_invariant(&taken);
        }
        let OrderedMap { mut slots, mut entries } = taken;
        let ghost was = entries@;
        match found {
            Some(i) => {
                assert(was[i as int].0@ == key@);
                proof {
                    assert forall|j: int| 0 <= j < was.len() && j != i implies (
                    #[trigger] was[j]).0@ != key@ by {
                        let s = slot_entries(slots);
                        assert(s[j].0 == was[j].0@);
                        assert(s[i as int].0 == was[i as int].0@);
                        if j < i {
                            assert(s[j].0 != s[i as int].0);
                        } else {
                            assert(s[i as int].0 != s[j].0);
                        }
                    }
                    assert(before[i as int].0 == key@);
                }
                entries.set(i, (key, value));
                *self = OrderedMap { slots, entries };
                assert(self@ =~= stored(before, key@, value));
            },
            None => {
                let slot: usize = entries.len();
                proof {
                    let s = slot_entries(slots);
                    assert forall|j: int| 0 <= j < s.len() implies (#[trigger] s[j]).0 != key@ by {
                        assert(before[j].0 != key@);
                        assert(s[j].0 == was[j].0@);
                    }
                    stored_then_looked_up(s, key@, slot, key@);
                }
                let copy = key.clone();
                slots_insert(&mut slots, copy, slot);
                entries.push((key, value));
                *self = OrderedMap { slots, entries };
                assert(self@ =~= stored(before, key@, value));
            },
        }
    }

    /// The entries, in order.
    pub fn into_entries(self) -> (r: Vec<(String, V)>)
        ensures
            r@.map_values(|e: (String, V)| (e.0@, e.1)) == self@,
            distinct_keys(self@),
    {
        let _n: usize = self.len();
        let OrderedMap { slots: _, entries } = self;
        entries
    }

    /// The keys, in order.
    pub fn keys(&self) -> (r: Vec<String>)
        ensures
            crate::text::texts(r@) == self@.map_values(|e: (Seq<char>, V)| e.0),
    {
        let mut out: Vec<String> = Vec::new();
        let mut i: usize = 0;
        while i < self.entries.len()
            invariant
                i <= self.entries.len(),
                out.len() == i,
                forall|k: int| 0 <= k < i ==> (#[trigger] out[k])@ == self@[k].0,
            decreases self.entries.len() - i,
        {
            out.push(self.entries[i].0.clone());
            i += 1;
        }
        assert(crate::text::texts(out@) =~= self@.map_values(|e: (Seq<char>, V)| e.0));
        out
    }
}

impl<V: Clone> Clone for OrderedMap<V> {
    /// The same keys in the same order, each with a clone of its value.
    fn clone(&self) -> (r: OrderedMap<V>)
        ensures
            r@.len() == self@.len(),
            forall|i: int|
                0 <= i < self@.len() ==> (#[trigger] r@[i]).0 == self@[i].0 && cloned::<V>(
                    self@[i].1,
                    r@[i].1,
                ),
    {
        let mut r: OrderedMap<V> = OrderedMap::new();
        let n: usize = self.len();
        let mut i: usize = 0;
        while i < n
            invariant
                i <= n,
                n == self@.len(),
                distinct_keys(self@),
                r@.len() == i,
                forall|k: int|
                    0 <= k < i ==> (#[trigger] r@[k]).0 == self@[k].0 && cloned::<V>(
                        self@[k].1,
                        r@[k].1,
                    ),
            decreases n - i,
        {
            let v = self.value_at(i).clone();
            let ghost was = r@;
            assert forall|k: int| 0 <= k < was.len() implies (#[trigger] was[k]).0
                != self@[i as int].0 by {
                assert(was[k].0 == self@[k].0);
                assert(self@[k].0 != self@[i as int].0);
            }
            r.insert(self.key_at(i).clone(), v);
            assert(!has_key(was, self@[i as int].0));
            assert(r@ =~= was.push((self@[i as int].0, v)));
            i += 1;
        }
        r
    }
}

} // verus!
