//! A map that keeps its keys in ascending order.
//!
//! The keys stand in one vector and the values in another, at the same positions. A key is
//! found by binary search, and a walk over a range of keys is a walk over positions, in
//! either direction.

use crate::order;
use vstd::prelude::*;

verus! {

/// A map from `K` to `T` whose entries can be visited in the order of their keys.
pub struct OrderedMap<K, T> {
    pub(crate) keys: Vec<K>,
    pub(crate) values: Vec<T>,
}

/// The map that takes each key to the value at its position.
pub open spec fn map_of<K, T>(keys: Seq<K>, values: Seq<T>) -> Map<K, T> {
    Map::new(|k: K| keys.contains(k), |k: K| values[keys.index_of(k)])
}

impl<K, T> View for OrderedMap<K, T> {
    type V = Map<K, T>;

    open(crate) spec fn view(&self) -> Map<K, T> {
        map_of(self.keys@, self.values@)
    }
}

/// In a sequence of ascending keys, each key stands at one position.
pub proof fn lemma_position<K: Ord + Clone>(keys: Seq<K>, i: int)
    requires
        order::key_laws::<K>(),
        order::ascending(keys),
        0 <= i < keys.len(),
    ensures
        keys.contains(keys[i]),
        keys.index_of(keys[i]) == i,
{
    order::lemma_before_is_total_order::<K>();
    let j = keys.index_of(keys[i]);
    assert(keys[j] == keys[i]);
    if j < i {
        assert(order::before(keys[j], keys[i]));
    } else if i < j {
        assert(order::before(keys[i], keys[j]));
    }
}

impl<K: Ord + Clone, T> OrderedMap<K, T> {
    /// The keys are in ascending order, and each has its value.
    pub open(crate) spec fn wf(self) -> bool {
        &&& order::key_laws::<K>()
        &&& self.keys@.len() == self.values@.len()
        &&& order::ascending(self.keys@)
    }

    /// An entry that stands at a position is in the map.
    pub(crate) proof fn lemma_entry(self, i: int)
        requires
            self.wf(),
            0 <= i < self.keys@.len(),
        ensures
            self@.contains_key(self.keys@[i]),
            self@[self.keys@[i]] == self.values@[i],
    {
        lemma_position(self.keys@, i);
    }

    /// An empty map.
    pub fn new() -> (m: Self)
        requires
            order::key_laws::<K>(),
        ensures
            m.wf(),
            m@ == Map::<K, T>::empty(),
    {
        let m = OrderedMap { keys: Vec::new(), values: Vec::new() };
        assert(m@ =~= Map::<K, T>::empty());
        m
    }

    /// Whether the map has no key.
    pub fn is_empty(&self) -> (r: bool)
        requires
            self.wf(),
        ensures
            r == self@.dom().is_empty(),
    {
        proof {
            if self.keys@.len() > 0 {
                self.lemma_entry(0);
            } else {
                assert(self@.dom() =~= Set::<K>::empty());
            }
        }
        self.keys.len() == 0
    }

    /// The position of the first key that does not come before `key`.
    pub(crate) fn seek(&self, key: &K) -> (pos: usize)
        requires
            self.wf(),
        ensures
            pos <= self.keys@.len(),
            forall|i: int| 0 <= i < pos ==> order::before(#[trigger] self.keys@[i], *key),
            forall|i: int| pos <= i < self.keys@.len() ==> !order::before(#[trigger] self.keys@[i], *key),
    {
        proof {
            order::lemma_before_is_total_order::<K>();
        }
        let mut lo: usize = 0;
        let mut hi: usize = self.keys.len();
        while lo < hi
            invariant
                self.wf(),
                lo <= hi <= self.keys@.len(),
                forall|i: int| 0 <= i < lo ==> order::before(#[trigger] self.keys@[i], *key),
                forall|i: int| hi <= i < self.keys@.len() ==> !order::before(#[trigger] self.keys@[i], *key),
            decreases hi - lo,
        {
            proof {
                order::lemma_before_is_total_order::<K>();
            }
            let mid: usize = lo + (hi - lo) / 2;
            if order::precedes(&self.keys[mid], key) {
                lo = mid + 1;
            } else {
                hi = mid;
            }
        }
        lo
    }

    /// The position of the first key that comes after `key`.
    pub(crate) fn seek_past(&self, key: &K) -> (pos: usize)
        requires
            self.wf(),
        ensures
            pos <= self.keys@.len(),
            forall|i: int| 0 <= i < pos ==> !order::before(*key, #[trigger] self.keys@[i]),
            forall|i: int| pos <= i < self.keys@.len() ==> order::before(*key, #[trigger] self.keys@[i]),
    {
        proof {
            order::lemma_before_is_total_order::<K>();
        }
        let pos: usize = self.seek(key);
        if pos < self.keys.len() && !order::precedes(key, &self.keys[pos]) {
            assert forall|i: int| pos < i < self.keys@.len() implies order::before(*key, #[trigger] self.keys@[i]) by {
                assert(order::before(self.keys@[pos as int], self.keys@[i]));
            }
            pos + 1
        } else {
            assert forall|i: int| pos <= i < self.keys@.len() implies order::before(*key, #[trigger] self.keys@[i]) by {
                if i > pos {
                    assert(order::before(self.keys@[pos as int], self.keys@[i]));
                }
            }
            pos
        }
    }

    /// The position of `key`, if the map has it.
    pub(crate) fn find(&self, key: &K) -> (pos: Option<usize>)
        requires
            self.wf(),
        ensures
            match pos {
                Some(i) => i < self.keys@.len() && self.keys@[i as int] == *key,
                None => !self.keys@.contains(*key),
            },
    {
        let pos: usize = self.seek(key);
        proof {
            order::lemma_before_is_total_order::<K>();
        }
        if pos < self.keys.len() && !order::precedes(key, &self.keys[pos]) {
            Some(pos)
        } else {
            proof {
                if self.keys@.contains(*key) {
                    let i = self.keys@.index_of(*key);
                    assert(self.keys@[i] == *key);
                    assert(pos <= i);
                    if pos < i {
                        assert(order::before(self.keys@[pos as int], self.keys@[i]));
                    }
                }
            }
            None
        }
    }

    /// The value of `key`, if the map has it.
    pub fn get(&self, key: &K) -> (value: Option<&T>)
        requires
            self.wf(),
        ensures
            match value {
                Some(t) => self@.contains_key(*key) && self@[*key] == *t,
                None => !self@.contains_key(*key),
            },
    {
        match self.find(key) {
            Some(i) => {
                proof {
                    self.lemma_entry(i as int);
                }
                Some(&self.values[i])
            },
            None => None,
        }
    }

    /// The value of `key`, if the map has it, to be changed in place.
    pub fn get_mut(&mut self, key: &K) -> (value: Option<&mut T>)
        requires
            old(self).wf(),
        ensures
            final(self).wf(),
            match value {
                Some(t) => {
                    &&& old(self)@.contains_key(*key)
                    &&& *t == old(self)@[*key]
                    &&& final(self)@ == old(self)@.insert(*key, *final(t))
                },
                None => !old(self)@.contains_key(*key) && final(self)@ == old(self)@,
            },
    {
        match self.find(key) {
            Some(i) => {
                proof {
                    self.lemma_entry(i as int);
                    lemma_update::<K, T>(self.keys@, self.values@, i as int);
                }
                Some(&mut self.values[i])
            },
            None => None,
        }
    }

    /// Gives `key` the value `value`, in place of the value that it has, if any.
    pub fn insert(&mut self, key: K, value: T)
        requires
            old(self).wf(),
        ensures
            final(self).wf(),
            final(self)@ == old(self)@.insert(key, value),
    {
        let pos: usize = self.seek(&key);
        let ghost ks = self.keys@;
        let ghost vs = self.values@;
        proof {
            order::lemma_before_is_total_order::<K>();
        }
        if pos < self.keys.len() && !order::precedes(&key, &self.keys[pos]) {
            self.values.set(pos, value);
            proof {
                lemma_update(ks, vs, pos as int);
            }
        } else {
            self.keys.insert(pos, key);
            self.values.insert(pos, value);
            proof {
                lemma_insert(ks, vs, pos as int, key, value);
            }
        }
    }

    /// Takes `key` out of the map.
    pub fn remove(&mut self, key: &K)
        requires
            old(self).wf(),
        ensures
            final(self).wf(),
            final(self)@ == old(self)@.remove(*key),
    {
        let ghost ks = self.keys@;
        let ghost vs = self.values@;
        match self.find(key) {
            Some(i) => {
                self.keys.remove(i);
                self.values.remove(i);
                proof {
                    lemma_remove(ks, vs, i as int);
                }
            },
            None => {
                assert(self@ =~= self@.remove(*key));
            },
        }
    }

    /// A clone of each key, in ascending order.
    pub(crate) fn cloned_keys(&self) -> (keys: Vec<K>)
        requires
            self.wf(),
        ensures
            order::ascending(keys@),
            keys@.to_set() == self@.dom(),
    {
        let mut keys: Vec<K> = Vec::new();
        let mut i: usize = 0;
        while i < self.keys.len()
            invariant
                self.wf(),
                i <= self.keys@.len(),
                keys@ == self.keys@.take(i as int),
            decreases self.keys@.len() - i,
        {
            let key = self.keys[i].clone();
            assert(cloned(self.keys@[i as int], key));
            keys.push(key);
            i = i + 1;
            assert(keys@ =~= self.keys@.take(i as int));
        }
        assert(keys@ =~= self.keys@);
        assert(keys@.to_set() =~= self@.dom());
        keys
    }

    /// Takes every key out of the map.
    pub fn clear(&mut self)
        requires
            old(self).wf(),
        ensures
            final(self).wf(),
            final(self)@ == Map::<K, T>::empty(),
    {
        self.keys.clear();
        self.values.clear();
        assert(self@ =~= Map::<K, T>::empty());
    }

    /// Takes every key that is not after `key` out of the map.
    pub fn remove_through(&mut self, key: &K)
        requires
            old(self).wf(),
        ensures
            final(self).wf(),
            final(self)@ == old(self)@.restrict(Set::new(|k: K| order::before(*key, k))),
    {
        let ghost ks = self.keys@;
        let ghost vs = self.values@;
        let pos: usize = self.seek_past(key);
        let keys = self.keys.split_off(pos);
        let values = self.values.split_off(pos);
        self.keys = keys;
        self.values = values;
        proof {
            lemma_split(ks, vs, pos as int, *key);
        }
    }
}

proof fn lemma_update<K: Ord + Clone, T>(ks: Seq<K>, vs: Seq<T>, pos: int)
    requires
        order::key_laws::<K>(),
        order::ascending(ks),
        ks.len() == vs.len(),
        0 <= pos < ks.len(),
    ensures
        forall|t: T| map_of(ks, #[trigger] vs.update(pos, t)) == map_of(ks, vs).insert(ks[pos], t),
{
    lemma_position(ks, pos);
    assert forall|t: T| map_of(ks, #[trigger] vs.update(pos, t)) == map_of(ks, vs).insert(ks[pos], t) by {
        assert forall|k: K| ks.contains(k) && k != ks[pos] implies map_of(ks, vs.update(pos, t))[k]
            == map_of(ks, vs)[k] by {
            assert(ks[ks.index_of(k)] == k);
        }
        assert(map_of(ks, vs.update(pos, t)) =~= map_of(ks, vs).insert(ks[pos], t));
    }
}

proof fn lemma_insert<K: Ord + Clone, T>(ks: Seq<K>, vs: Seq<T>, pos: int, key: K, value: T)
    requires
        order::key_laws::<K>(),
        order::ascending(ks),
        ks.len() == vs.len(),
        0 <= pos <= ks.len(),
        forall|i: int| 0 <= i < pos ==> order::before(#[trigger] ks[i], key),
        forall|i: int| pos <= i < ks.len() ==> order::before(key, #[trigger] ks[i]),
    ensures
        order::ascending(ks.insert(pos, key)),
        map_of(ks.insert(pos, key), vs.insert(pos, value)) == map_of(ks, vs).insert(key, value),
{
    order::lemma_before_is_total_order::<K>();
    let ks2 = ks.insert(pos, key);
    let vs2 = vs.insert(pos, value);
    assert forall|k: K| #[trigger] ks2.contains(k) <==> (ks.contains(k) || k == key) by {
        if ks.contains(k) {
            let i = ks.index_of(k);
            assert(ks[i] == k);
            assert(ks2[if i < pos { i } else { i + 1 }] == k);
        }
        if k == key {
            assert(ks2[pos] == k);
        }
    }
    assert forall|k: K| ks2.contains(k) implies map_of(ks2, vs2)[k] == map_of(ks, vs).insert(key, value)[k] by {
        if k == key {
            lemma_position(ks2, pos);
        } else {
            let i = ks.index_of(k);
            assert(ks[i] == k);
            let j = if i < pos { i } else { i + 1 };
            assert(ks2[j] == k);
            lemma_position(ks2, j);
            lemma_position(ks, i);
        }
    }
    assert(map_of(ks2, vs2) =~= map_of(ks, vs).insert(key, value));
}

proof fn lemma_remove<K: Ord + Clone, T>(ks: Seq<K>, vs: Seq<T>, pos: int)
    requires
        order::key_laws::<K>(),
        order::ascending(ks),
        ks.len() == vs.len(),
        0 <= pos < ks.len(),
    ensures
        order::ascending(ks.remove(pos)),
        map_of(ks.remove(pos), vs.remove(pos)) == map_of(ks, vs).remove(ks[pos]),
{
    order::lemma_before_is_total_order::<K>();
    let ks2 = ks.remove(pos);
    let vs2 = vs.remove(pos);
    assert forall|k: K| #[trigger] ks2.contains(k) <==> (ks.contains(k) && k != ks[pos]) by {
        if ks2.contains(k) {
            let j = ks2.index_of(k);
            assert(ks2[j] == k);
            assert(ks[if j < pos { j } else { j + 1 }] == k);
        }
        if ks.contains(k) && k != ks[pos] {
            let i = ks.index_of(k);
            assert(ks[i] == k);
            assert(ks2[if i < pos { i } else { i - 1 }] == k);
        }
    }
    assert forall|k: K| ks2.contains(k) implies map_of(ks2, vs2)[k] == map_of(ks, vs)[k] by {
        let i = ks.index_of(k);
        assert(ks[i] == k);
        let j = if i < pos { i } else { i - 1 };
        assert(ks2[j] == k);
        lemma_position(ks2, j);
        lemma_position(ks, i);
    }
    assert(map_of(ks2, vs2) =~= map_of(ks, vs).remove(ks[pos]));
}

proof fn lemma_split<K: Ord + Clone, T>(ks: Seq<K>, vs: Seq<T>, pos: int, key: K)
    requires
        order::key_laws::<K>(),
        order::ascending(ks),
        ks.len() == vs.len(),
        0 <= pos <= ks.len(),
        forall|i: int| 0 <= i < pos ==> !order::before(key, #[trigger] ks[i]),
        forall|i: int| pos <= i < ks.len() ==> order::before(key, #[trigger] ks[i]),
    ensures
        order::ascending(ks.skip(pos)),
        map_of(ks.skip(pos), vs.skip(pos)) == map_of(ks, vs).restrict(Set::new(|k: K| order::before(key, k))),
{
    let ks2 = ks.skip(pos);
    let vs2 = vs.skip(pos);
    let kept = Set::new(|k: K| order::before(key, k));
    assert forall|k: K| #[trigger] ks2.contains(k) <==> (ks.contains(k) && kept.contains(k)) by {
        if ks2.contains(k) {
            let j = ks2.index_of(k);
            assert(ks2[j] == k);
            assert(ks[j + pos] == k);
        }
        if ks.contains(k) && kept.contains(k) {
            let i = ks.index_of(k);
            assert(ks[i] == k);
            assert(ks2[i - pos] == k);
        }
    }
    assert forall|k: K| ks2.contains(k) implies map_of(ks2, vs2)[k] == map_of(ks, vs)[k] by {
        let i = ks.index_of(k);
        assert(ks[i] == k);
        assert(ks2[i - pos] == k);
        lemma_position(ks2, i - pos);
        lemma_position(ks, i);
    }
    assert(map_of(ks2, vs2) =~= map_of(ks, vs).restrict(kept));
}

} // verus!
