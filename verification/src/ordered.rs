//! A map kept in the order of its keys.
use vstd::prelude::*;

verus! {

/// A key with a place in a total order.
pub trait OrderKey: Copy + Sized {
    /// The place of the key in the order.
    spec fn rank(self) -> int;

    /// Two keys with the same place are the same key.
    proof fn rank_is_injective(a: Self, b: Self)
        requires
            a.rank() == b.rank(),
        ensures
            a == b,
    ;

    /// Whether this key comes strictly before `other`.
    fn precedes(self, other: Self) -> (before: bool)
        ensures
            before == (self.rank() < other.rank()),
    ;

    /// Whether the two keys are the same.
    fn matches(self, other: Self) -> (same: bool)
        ensures
            same == (self.rank() == other.rank()),
    ;
}

/// A map whose entries are held in increasing order of their keys, each key at
/// most once.
#[derive(Debug)]
pub struct OrderedMap<K: OrderKey, V: View> {
    pub entries: Vec<(K, V)>,
}

/// The keys of `entries` strictly increase.
pub open spec fn increasing<K: OrderKey, V>(entries: Seq<(K, V)>) -> bool {
    forall|i: int, j: int|
        0 <= i < j < entries.len() ==> (#[trigger] entries[i]).0.rank() < (
        #[trigger] entries[j]).0.rank()
}

/// Entry `i` carries `key`.
pub open spec fn keyed_at<K: OrderKey, V>(entries: Seq<(K, V)>, key: K, i: int) -> bool {
    0 <= i < entries.len() && entries[i].0 == key
}

/// Some entry carries `key`.
pub open spec fn has_key<K: OrderKey, V>(entries: Seq<(K, V)>, key: K) -> bool {
    exists|i: int| keyed_at(entries, key, i)
}

/// The position of `key` among `entries`.
pub open spec fn place_of<K: OrderKey, V>(entries: Seq<(K, V)>, key: K) -> int {
    choose|i: int| keyed_at(entries, key, i)
}

/// Keys in strictly increasing order.
pub open spec fn increasing_keys<K: OrderKey>(keys: Seq<K>) -> bool {
    forall|i: int, j: int|
        0 <= i < j < keys.len() ==> (#[trigger] keys[i]).rank() < (#[trigger] keys[j]).rank()
}

/// `keys` lists the domain of `map` in increasing order.
pub open spec fn lists_keys<K: OrderKey, T>(map: Map<K, T>, keys: Seq<K>) -> bool {
    increasing_keys(keys) && forall|key: K|
        #![trigger map.dom().contains(key)]
        #![trigger keys.contains(key)]
        map.dom().contains(key) <==> keys.contains(key)
}

/// The keys of a finite map in increasing order.
pub open spec fn sorted_keys<K: OrderKey, T>(map: Map<K, T>) -> Seq<K> {
    choose|keys: Seq<K>| lists_keys(map, keys)
}

/// A set of keys has one increasing order.
pub proof fn increasing_order_is_unique<K: OrderKey>(a: Seq<K>, b: Seq<K>)
    requires
        increasing_keys(a),
        increasing_keys(b),
        forall|key: K| a.contains(key) <==> b.contains(key),
    ensures
        a == b,
    decreases a.len(),
{
    if a.len() == 0 {
        if b.len() > 0 {
            assert(b.contains(b[0]));
        }
        assert(a =~= b);
    } else {
        assert(a.contains(a.last()));
        let j = choose|j: int| 0 <= j < b.len() && b[j] == a.last();
        assert(b.contains(b.last()));
        let i = choose|i: int| 0 <= i < a.len() && a[i] == b.last();
        if j < b.len() - 1 {
            assert(b[j].rank() < b[b.len() - 1].rank());
            if i < a.len() - 1 {
                assert(a[i].rank() < a[a.len() - 1].rank());
            }
        }
        assert(a.last() == b.last());
        let a0 = a.drop_last();
        let b0 = b.drop_last();
        assert forall|key: K| a0.contains(key) <==> b0.contains(key) by {
            if a0.contains(key) {
                let x = choose|x: int| 0 <= x < a0.len() && a0[x] == key;
                assert(a[x] == key);
                assert(a.contains(key));
                let y = choose|y: int| 0 <= y < b.len() && b[y] == key;
                assert(a[x].rank() < a[a.len() - 1].rank());
                assert(b0[y] == key);
            }
            if b0.contains(key) {
                let y = choose|y: int| 0 <= y < b0.len() && b0[y] == key;
                assert(b[y] == key);
                assert(b.contains(key));
                let x = choose|x: int| 0 <= x < a.len() && a[x] == key;
                assert(b[y].rank() < b[b.len() - 1].rank());
                assert(a0[x] == key);
            }
        }
        assert(increasing_keys(a0)) by {
            assert forall|x: int, y: int| 0 <= x < y < a0.len() implies (
            #[trigger] a0[x]).rank() < (#[trigger] a0[y]).rank() by {
                assert(a[x].rank() < a[y].rank());
            }
        }
        assert(increasing_keys(b0)) by {
            assert forall|x: int, y: int| 0 <= x < y < b0.len() implies (
            #[trigger] b0[x]).rank() < (#[trigger] b0[y]).rank() by {
                assert(b[x].rank() < b[y].rank());
            }
        }
        increasing_order_is_unique(a0, b0);
        assert(a =~= a0.push(a.last()));
        assert(b =~= b0.push(b.last()));
    }
}

/// Where the keys of a map can be listed in increasing order, that list is the only
/// one.
pub proof fn keys_have_one_order<K: OrderKey, T>(map: Map<K, T>, keys: Seq<K>)
    requires
        lists_keys(map, keys),
    ensures
        sorted_keys(map) == keys,
{
    let other = sorted_keys(map);
    assert(lists_keys(map, other));
    assert forall|key: K| keys.contains(key) <==> other.contains(key) by {
        assert(map.dom().contains(key) <==> keys.contains(key));
        assert(map.dom().contains(key) <==> other.contains(key));
    }
    increasing_order_is_unique(keys, other);
}

impl<K: OrderKey, V: View> View for OrderedMap<K, V> {
    type V = Map<K, V::V>;

    open spec fn view(&self) -> Map<K, V::V> {
        Map::new(
            |key: K| has_key(self.entries@, key),
            |key: K| self.entries@[place_of(self.entries@, key)].1@,
        )
    }
}

/// Another value at position `i` is another value of its key.
proof fn value_replaced<K: OrderKey, V: View>(
    before: OrderedMap<K, V>,
    after: OrderedMap<K, V>,
    i: int,
)
    requires
        before.wf(),
        0 <= i < before.entries@.len(),
        after.entries@ == before.entries@.update(
            i,
            (before.entries@[i].0, after.entries@[i].1),
        ),
    ensures
        after.wf(),
        after@ == before@.insert(before.entries@[i].0, after.entries@[i].1@),
{
    let key = before.entries@[i].0;
    let value = after.entries@[i].1;
    assert(after.wf());
    assert forall|k: K| #[trigger] after@.dom().contains(k) <==> before@.insert(
        key,
        value@,
    ).dom().contains(k) by {
        if has_key(after.entries@, k) {
            let j = place_of(after.entries@, k);
            assert(keyed_at(before.entries@, k, j));
        }
        if has_key(before.entries@, k) {
            let j = place_of(before.entries@, k);
            assert(keyed_at(after.entries@, k, j));
        }
        if k == key {
            assert(keyed_at(after.entries@, k, i));
        }
    }
    assert forall|k: K| #[trigger] after@.dom().contains(k) implies after@[k] == before@.insert(
        key,
        value@,
    )[k] by {
        let j = place_of(after.entries@, k);
        after.entry_is_in_map(j);
        before.entry_is_in_map(j);
        after.entry_is_in_map(i);
    }
    assert(after@ =~= before@.insert(key, value@));
}

impl<K: OrderKey, V: View> OrderedMap<K, V> {
    pub open spec fn wf(&self) -> bool {
        increasing(self.entries@)
    }

    /// The contents of entry `i`.
    pub proof fn entry_is_in_map(&self, i: int)
        requires
            self.wf(),
            0 <= i < self.entries@.len(),
        ensures
            self@.dom().contains(self.entries@[i].0),
            self@[self.entries@[i].0] == self.entries@[i].1@,
            place_of(self.entries@, self.entries@[i].0) == i,
    {
        let key = self.entries@[i].0;
        assert(keyed_at(self.entries@, key, i));
        let j = place_of(self.entries@, key);
        assert(keyed_at(self.entries@, key, j));
        if j < i {
            assert(self.entries@[j].0.rank() < self.entries@[i].0.rank());
        } else if i < j {
            assert(self.entries@[i].0.rank() < self.entries@[j].0.rank());
        }
    }

    /// The keys in the order of the entries.
    pub open spec fn keys(&self) -> Seq<K> {
        Seq::new(self.entries@.len(), |i: int| self.entries@[i].0)
    }

    /// The entries stand in the increasing order of the map's keys.
    pub proof fn entries_follow_sorted_keys(&self)
        requires
            self.wf(),
        ensures
            sorted_keys(self@) == self.keys(),
    {
        let keys = self.keys();
        assert(increasing_keys(keys));
        assert forall|key: K| self@.dom().contains(key) <==> #[trigger] keys.contains(key) by {
            if has_key(self.entries@, key) {
                let i = place_of(self.entries@, key);
                assert(keyed_at(self.entries@, key, i));
                assert(keys[i] == key);
            }
            if keys.contains(key) {
                let i = choose|i: int| 0 <= i < keys.len() && keys[i] == key;
                assert(keyed_at(self.entries@, key, i));
            }
        }
        assert(lists_keys(self@, keys));
        let other = sorted_keys(self@);
        assert(lists_keys(self@, other));
        assert forall|key: K| keys.contains(key) <==> other.contains(key) by {
            assert(self@.dom().contains(key) <==> keys.contains(key));
            assert(self@.dom().contains(key) <==> other.contains(key));
        }
        increasing_order_is_unique(keys, other);
    }

    pub fn new() -> (map: Self)
        ensures
            map.wf(),
            map@ == Map::<K, V::V>::empty(),
            map.entries@.len() == 0,
    {
        let map = OrderedMap { entries: Vec::new() };
        proof {
            assert(map@ =~= Map::<K, V::V>::empty());
        }
        map
    }

    /// The first position whose key does not come before `key`.
    fn lower_bound(&self, key: K) -> (position: usize)
        requires
            self.wf(),
        ensures
            position <= self.entries@.len(),
            forall|i: int|
                0 <= i < position ==> (#[trigger] self.entries@[i]).0.rank() < key.rank(),
            forall|i: int|
                position <= i < self.entries@.len() ==> (#[trigger] self.entries@[i]).0.rank()
                    >= key.rank(),
    {
        let mut i: usize = 0;
        while i < self.entries.len() && self.entries[i].0.precedes(key)
            invariant
                self.wf(),
                i <= self.entries@.len(),
                forall|j: int| 0 <= j < i ==> (#[trigger] self.entries@[j]).0.rank() < key.rank(),
            decreases self.entries@.len() - i,
        {
            i += 1;
        }
        i
    }

    /// The position of `key`, if an entry carries it.
    pub fn position(&self, key: K) -> (position: Option<usize>)
        requires
            self.wf(),
        ensures
            match position {
                Some(i) => {
                    &&& i < self.entries@.len()
                    &&& self.entries@[i as int].0 == key
                    &&& self@.dom().contains(key)
                    &&& self@[key] == self.entries@[i as int].1@
                },
                None => !self@.dom().contains(key),
            },
    {
        let i: usize = self.lower_bound(key);
        if i < self.entries.len() && self.entries[i].0.matches(key) {
            proof {
                K::rank_is_injective(self.entries@[i as int].0, key);
                self.entry_is_in_map(i as int);
            }
            Some(i)
        } else {
            proof {
                assert forall|j: int| !keyed_at(self.entries@, key, j) by {
                    if keyed_at(self.entries@, key, j) {
                        if j > i {
                            assert(self.entries@[i as int].0.rank() < self.entries@[j].0.rank());
                        }
                    }
                }
            }
            None
        }
    }

    pub fn contains_key(&self, key: &K) -> (found: bool)
        requires
            self.wf(),
        ensures
            found == self@.dom().contains(*key),
    {
        self.position(*key).is_some()
    }

    pub fn get(&self, key: &K) -> (value: Option<&V>)
        requires
            self.wf(),
        ensures
            match value {
                Some(v) => self@.dom().contains(*key) && v@ == self@[*key],
                None => !self@.dom().contains(*key),
            },
    {
        match self.position(*key) {
            Some(i) => Some(&self.entries[i].1),
            None => None,
        }
    }

    pub fn is_empty(&self) -> (empty: bool)
        requires
            self.wf(),
        ensures
            empty == (self@ == Map::<K, V::V>::empty()),
            empty == (self.entries@.len() == 0),
    {
        proof {
            if self.entries@.len() == 0 {
                assert(self@ =~= Map::<K, V::V>::empty());
            } else {
                self.entry_is_in_map(0);
            }
        }
        self.entries.is_empty()
    }

    pub fn clear(&mut self)
        ensures
            final(self).wf(),
            final(self)@ == Map::<K, V::V>::empty(),
            final(self).entries@.len() == 0,
    {
        self.entries.clear();
        proof {
            assert(self@ =~= Map::<K, V::V>::empty());
        }
    }

    /// Sets the value of `key`.
    pub fn insert(&mut self, key: K, value: V)
        requires
            old(self).wf(),
        ensures
            final(self).wf(),
            final(self)@ == old(self)@.insert(key, value@),
    {
        let ghost before = *self;
        let i: usize = self.lower_bound(key);
        if i < self.entries.len() && self.entries[i].0.matches(key) {
            proof {
                K::rank_is_injective(self.entries@[i as int].0, key);
            }
            self.entries[i] = (key, value);
            proof {
                assert(self.entries@ =~= before.entries@.update(i as int, (key, value)));
                assert(self.wf());
                assert forall|k: K| #[trigger] self@.dom().contains(k) <==> before@.insert(
                    key,
                    value@,
                ).dom().contains(k) by {
                    if has_key(self.entries@, k) {
                        let j = place_of(self.entries@, k);
                        assert(keyed_at(before.entries@, k, j));
                    }
                    if has_key(before.entries@, k) {
                        let j = place_of(before.entries@, k);
                        assert(keyed_at(self.entries@, k, j));
                    }
                    if k == key {
                        assert(keyed_at(self.entries@, k, i as int));
                    }
                }
                assert forall|k: K| #[trigger] self@.dom().contains(k) implies self@[k]
                    == before@.insert(key, value@)[k] by {
                    let j = place_of(self.entries@, k);
                    self.entry_is_in_map(j);
                    before.entry_is_in_map(j);
                    self.entry_is_in_map(i as int);
                }
                assert(self@ =~= before@.insert(key, value@));
            }
        } else {
            self.entries.insert(i, (key, value));
            proof {
                assert(self.entries@ =~= before.entries@.insert(i as int, (key, value)));
                assert forall|a: int, b: int| 0 <= a < b < self.entries@.len() implies (
                #[trigger] self.entries@[a]).0.rank() < (#[trigger] self.entries@[b]).0.rank() by {
                    let a0 = if a < i { a } else { a - 1 };
                    let b0 = if b < i { b } else { b - 1 };
                    if a != i {
                        assert(self.entries@[a] == before.entries@[a0]);
                    }
                    if b != i {
                        assert(self.entries@[b] == before.entries@[b0]);
                    }
                    if a == i {
                        assert(before.entries@[b0].0.rank() >= key.rank());
                        assert(before.entries@[i as int].0.rank() > key.rank());
                        if b0 > i {
                            assert(before.entries@[i as int].0.rank()
                                < before.entries@[b0].0.rank());
                        }
                    }
                }
                assert forall|k: K| #[trigger] self@.dom().contains(k) <==> before@.insert(
                    key,
                    value@,
                ).dom().contains(k) by {
                    if has_key(self.entries@, k) {
                        let j = place_of(self.entries@, k);
                        if j < i {
                            assert(keyed_at(before.entries@, k, j));
                        } else if j > i {
                            assert(keyed_at(before.entries@, k, j - 1));
                        }
                    }
                    if has_key(before.entries@, k) {
                        let j = place_of(before.entries@, k);
                        if j < i {
                            assert(keyed_at(self.entries@, k, j));
                        } else {
                            assert(keyed_at(self.entries@, k, j + 1));
                        }
                    }
                    if k == key {
                        assert(keyed_at(self.entries@, k, i as int));
                    }
                }
                assert forall|k: K| #[trigger] self@.dom().contains(k) implies self@[k]
                    == before@.insert(key, value@)[k] by {
                    let j = place_of(self.entries@, k);
                    self.entry_is_in_map(j);
                    if j < i {
                        before.entry_is_in_map(j);
                    } else if j > i {
                        before.entry_is_in_map(j - 1);
                    }
                    self.entry_is_in_map(i as int);
                }
                assert(self@ =~= before@.insert(key, value@));
            }
        }
    }

    /// Replaces the value of entry `i`.
    pub fn set_value_at(&mut self, i: usize, value: V)
        requires
            old(self).wf(),
            i < old(self).entries@.len(),
        ensures
            final(self).wf(),
            final(self).entries@ == old(self).entries@.update(
                i as int,
                (old(self).entries@[i as int].0, value),
            ),
    {
        let key = self.entries[i].0;
        self.entries[i] = (key, value);
    }

    /// The value of entry `i`, to be changed in place.
    pub fn value_mut(&mut self, i: usize) -> (value: &mut V)
        requires
            old(self).wf(),
            i < old(self).entries@.len(),
        ensures
            *value == old(self).entries@[i as int].1,
            final(self).wf(),
            final(self)@ == old(self)@.insert(old(self).entries@[i as int].0, final(value)@),
    {
        let ghost before = *self;
        let ghost key = self.entries@[i as int].0;
        proof {
            assert forall|after: Self|
                #![trigger after.wf()]
                #![trigger after@]
                after.entries@ == before.entries@.update(
                    i as int,
                    (key, after.entries@[i as int].1),
                ) implies after.wf() && after@ == before@.insert(
                key,
                after.entries@[i as int].1@,
            ) by {
                value_replaced(before, after, i as int);
            }
        }
        &mut self.entries[i].1
    }

    /// Removes entry `i` and hands back its value.
    pub fn remove_at(&mut self, i: usize) -> (value: V)
        requires
            old(self).wf(),
            i < old(self).entries@.len(),
        ensures
            final(self).wf(),
            final(self).entries@ == old(self).entries@.remove(i as int),
            final(self)@ == old(self)@.remove(old(self).entries@[i as int].0),
            value == old(self).entries@[i as int].1,
    {
        let ghost before = *self;
        let ghost key = self.entries@[i as int].0;
        let removed = self.entries.remove(i);
        proof {
            assert(self.entries@ =~= before.entries@.remove(i as int));
            assert forall|a: int, b: int| 0 <= a < b < self.entries@.len() implies (
            #[trigger] self.entries@[a]).0.rank() < (#[trigger] self.entries@[b]).0.rank() by {
                let a0 = if a < i { a } else { a + 1 };
                let b0 = if b < i { b } else { b + 1 };
                assert(self.entries@[a] == before.entries@[a0]);
                assert(self.entries@[b] == before.entries@[b0]);
            }
            before.entry_is_in_map(i as int);
            assert forall|k: K| #[trigger] self@.dom().contains(k) <==> before@.remove(
                key,
            ).dom().contains(k) by {
                if has_key(self.entries@, k) {
                    let j = place_of(self.entries@, k);
                    let j0 = if j < i { j } else { j + 1 };
                    assert(keyed_at(before.entries@, k, j0));
                    before.entry_is_in_map(j0);
                }
                if has_key(before.entries@, k) && k != key {
                    let j = place_of(before.entries@, k);
                    let j0 = if j < i { j } else { j - 1 };
                    assert(keyed_at(self.entries@, k, j0));
                }
            }
            assert forall|k: K| #[trigger] self@.dom().contains(k) implies self@[k]
                == before@.remove(key)[k] by {
                let j = place_of(self.entries@, k);
                let j0 = if j < i { j } else { j + 1 };
                self.entry_is_in_map(j);
                before.entry_is_in_map(j0);
            }
            assert(self@ =~= before@.remove(key));
        }
        removed.1
    }

    /// Removes `key` and hands back its value, if it was there.
    pub fn remove(&mut self, key: &K) -> (value: Option<V>)
        requires
            old(self).wf(),
        ensures
            final(self).wf(),
            final(self)@ == old(self)@.remove(*key),
            match value {
                Some(v) => old(self)@.dom().contains(*key) && v@ == old(self)@[*key],
                None => !old(self)@.dom().contains(*key),
            },
    {
        match self.position(*key) {
            None => {
                proof {
                    assert(self@ =~= old(self)@.remove(*key));
                }
                None
            },
            Some(i) => Some(self.remove_at(i)),
        }
    }
}

} // verus!
