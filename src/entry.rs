use vstd::prelude::*;

use crate::enum_trait::Enum;
use crate::map::EnumMap;

verus! {

/// A handle on the slot of one key of a map, telling whether it holds a
/// value.
pub enum Entry<'a, K, V> {
    Occupied(OccupiedEntry<'a, K, V>),
    Vacant(VacantEntry<'a, K, V>),
}

/// A handle on the occupied slot of `key` in `map`.
pub struct OccupiedEntry<'a, K, V> {
    /// The key of the slot.
    pub key: K,
    /// The map, borrowed for as long as the handle lives.
    pub map: &'a mut EnumMap<K, V>,
}

/// A handle on the empty slot of `key` in `map`.
pub struct VacantEntry<'a, K, V> {
    /// The key of the slot.
    pub key: K,
    /// The map, borrowed for as long as the handle lives.
    pub map: &'a mut EnumMap<K, V>,
}

impl<'a, K: Enum, V> Entry<'a, K, V> {
    /// The handle matches its variant, in a well-formed map.
    pub open spec fn wf(&self) -> bool {
        match self {
            Entry::Occupied(e) => e.wf(),
            Entry::Vacant(e) => e.wf(),
        }
    }

    /// The key of the slot.
    pub open spec fn spec_key(&self) -> K {
        match self {
            Entry::Occupied(e) => e.key,
            Entry::Vacant(e) => e.key,
        }
    }

    /// The key of the slot.
    pub fn key(&self) -> (r: K)
        ensures
            r == self.spec_key(),
    {
        match self {
            Entry::Occupied(e) => e.key(),
            Entry::Vacant(e) => e.key(),
        }
    }

    /// The value in the slot, putting `default` there first if it is empty.
    pub fn or_insert(self, default: V) -> (r: &'a mut V)
        requires
            self.wf(),
        ensures
            *r == match self {
                Entry::Occupied(e) => e.value(),
                Entry::Vacant(_) => default,
            },
            match self {
                Entry::Occupied(e) => final(e.map).wf() && (*final(e.map))@ == e.map@.update(
                    e.key.spec_index() as int,
                    Some(*final(r)),
                ),
                Entry::Vacant(e) => final(e.map).wf() && (*final(e.map))@ == e.map@.update(
                    e.key.spec_index() as int,
                    Some(*final(r)),
                ),
            },
    {
        match self {
            Entry::Occupied(e) => e.into_mut(),
            Entry::Vacant(e) => e.insert(default),
        }
    }

    /// The value in the slot, putting the result of `default` there first if
    /// it is empty; `default` is called only then.
    pub fn or_insert_with<F: FnOnce() -> V>(self, default: F) -> (r: &'a mut V)
        requires
            self.wf(),
            self is Vacant ==> default.requires(()),
        ensures
            match self {
                Entry::Occupied(e) => *r == e.value() && final(e.map).wf() && (*final(e.map))@
                    == e.map@.update(e.key.spec_index() as int, Some(*final(r))),
                Entry::Vacant(e) => default.ensures((), *r) && final(e.map).wf() && (*final(e.map))@
                    == e.map@.update(e.key.spec_index() as int, Some(*final(r))),
            },
    {
        match self {
            Entry::Occupied(e) => e.into_mut(),
            Entry::Vacant(e) => e.insert(default()),
        }
    }

    /// The value in the slot, putting the result of `default` on the key
    /// there first if it is empty; `default` is called only then.
    pub fn or_insert_with_key<F: FnOnce(K) -> V>(self, default: F) -> (r: &'a mut V)
        requires
            self.wf(),
            self is Vacant ==> default.requires((self.spec_key(),)),
        ensures
            match self {
                Entry::Occupied(e) => *r == e.value() && final(e.map).wf() && (*final(e.map))@
                    == e.map@.update(e.key.spec_index() as int, Some(*final(r))),
                Entry::Vacant(e) => default.ensures((e.key,), *r) && final(e.map).wf() && (*final(e.map))@
                    == e.map@.update(e.key.spec_index() as int, Some(*final(r))),
            },
    {
        match self {
            Entry::Occupied(e) => e.into_mut(),
            Entry::Vacant(e) => {
                let value = default(e.key());
                e.insert(value)
            },
        }
    }

    /// Lets `f` change the value of an occupied slot in place; leaves a
    /// vacant slot alone without calling `f`.
    pub fn and_modify<F: FnOnce(&mut V)>(self, f: F) -> (r: Self)
        requires
            self.wf(),
            forall|v: &mut V| f.requires((v,)),
        ensures
            r.wf(),
            r.spec_key() == self.spec_key(),
            match (self, r) {
                (Entry::Occupied(e), Entry::Occupied(e2)) => (exists|v: &mut V|
                    *v == e.value() && #[trigger] f.ensures((v,), ()) && *final(v) == e2.value())
                    && (*e2.map)@ == e.map@.update(e.key.spec_index() as int, Some(e2.value()))
                    && *final(e2.map) == *final(e.map),
                (Entry::Vacant(e), Entry::Vacant(e2)) => (*e2.map)@ == e.map@
                    && *final(e2.map) == *final(e.map),
                _ => false,
            },
    {
        match self {
            Entry::Occupied(mut e) => {
                proof {
                    e.map.lemma_slots();
                }
                let v = e.get_mut();
                modify_in_place(v, f);
                Entry::Occupied(e)
            },
            Entry::Vacant(e) => Entry::Vacant(e),
        }
    }
}

/// Calls `f` on `v`.
fn modify_in_place<V, F: FnOnce(&mut V)>(v: &mut V, f: F)
    requires
        forall|r: &mut V| f.requires((r,)),
    ensures
        exists|r: &mut V| *r == *old(v) && #[trigger] f.ensures((r,), ()) && *final(r) == *final(v),
{
    f(v)
}

impl<'a, K: Enum, V> OccupiedEntry<'a, K, V> {
    /// The handle is on a slot that holds a value, in a well-formed map.
    pub open spec fn wf(&self) -> bool {
        self.map.wf() && self.map@[self.key.spec_index() as int] is Some
    }

    /// The value in the slot.
    pub open spec fn value(&self) -> V {
        self.map@[self.key.spec_index() as int]->0
    }

    /// The key of the slot.
    pub fn key(&self) -> (r: K)
        ensures
            r == self.key,
    {
        self.key
    }

    /// The value in the slot.
    pub fn get(&self) -> (r: &V)
        requires
            self.wf(),
        ensures
            *r == self.value(),
    {
        proof {
            self.map.lemma_slots();
        }
        self.map.index(self.key)
    }

    /// Mutable access to the value in the slot.
    pub fn get_mut(&mut self) -> (r: &mut V)
        requires
            old(self).wf(),
        ensures
            *r == old(self).value(),
            final(self).key == old(self).key,
            (*final(self).map)@ == (*old(self).map)@.update(
                old(self).key.spec_index() as int,
                Some(*final(r)),
            ),
            final(self).wf(),
            *final(final(self).map) == *final(old(self).map),
    {
        proof {
            self.map.lemma_slots();
        }
        self.map.get_mut(self.key).unwrap()
    }

    /// Mutable access to the value in the slot, for as long as the map was
    /// borrowed.
    pub fn into_mut(self) -> (r: &'a mut V)
        requires
            self.wf(),
        ensures
            *r == self.value(),
            (*final(self.map))@ == (*old(self.map))@.update(self.key.spec_index() as int, Some(*final(r))),
            final(self.map).wf(),
    {
        proof {
            self.map.lemma_slots();
        }
        self.map.get_mut(self.key).unwrap()
    }

    /// Replaces the value in the slot, returning the old one.
    pub fn insert(&mut self, value: V) -> (r: V)
        requires
            old(self).wf(),
        ensures
            r == old(self).value(),
            final(self).key == old(self).key,
            (*final(self).map)@ == (*old(self).map)@.update(old(self).key.spec_index() as int, Some(value)),
            final(self).wf(),
            *final(final(self).map) == *final(old(self).map),
    {
        proof {
            self.map.lemma_slots();
        }
        self.map.insert(self.key, value).unwrap()
    }

    /// Takes the value out of the slot.
    pub fn remove(self) -> (r: V)
        requires
            self.wf(),
        ensures
            r == self.value(),
            (*final(self.map))@ == (*old(self.map))@.update(self.key.spec_index() as int, None),
            final(self.map).wf(),
    {
        proof {
            self.map.lemma_slots();
        }
        self.map.remove(self.key).unwrap()
    }

    /// Takes the key and the value out of the slot.
    pub fn remove_entry(self) -> (r: (K, V))
        requires
            self.wf(),
        ensures
            r == (self.key, self.value()),
            (*final(self.map))@ == (*old(self.map))@.update(self.key.spec_index() as int, None),
            final(self.map).wf(),
    {
        let key = self.key;
        (key, self.remove())
    }
}

impl<'a, K: Enum, V> VacantEntry<'a, K, V> {
    /// The handle is on an empty slot, in a well-formed map.
    pub open spec fn wf(&self) -> bool {
        self.map.wf() && self.map@[self.key.spec_index() as int] is None
    }

    /// The key of the slot.
    pub fn key(&self) -> (r: K)
        ensures
            r == self.key,
    {
        self.key
    }

    /// Puts `value` in the slot and gives mutable access to it.
    pub fn insert(self, value: V) -> (r: &'a mut V)
        requires
            self.wf(),
        ensures
            *r == value,
            (*final(self.map))@ == (*old(self.map))@.update(self.key.spec_index() as int, Some(*final(r))),
            final(self.map).wf(),
    {
        proof {
            self.map.lemma_slots();
        }
        let key = self.key;
        let map = self.map;
        map.insert(key, value);
        map.get_mut(key).unwrap()
    }
}

/// Chaining `and_modify(f)` and `or_insert(default)` on the slot `i`: an
/// absent key receives `default` and `f` plays no part; a present key ends
/// up with what `f` made of its old value, and `default` plays no part.
/// Every other slot is left alone.
pub proof fn lemma_modify_or_insert<V, F: FnOnce(&mut V)>(
    f: F,
    before: Seq<Option<V>>,
    i: int,
    default: V,
    middle: Seq<Option<V>>,
    after: Seq<Option<V>>,
)
    requires
        0 <= i < before.len(),
        before[i] is None ==> middle == before,
        before[i] is Some ==> middle[i] is Some && middle == before.update(i, middle[i])
            && exists|v: &mut V| *v == before[i]->0 && f.ensures((v,), ()) && *final(v) == middle[i]->0,
        middle[i] is Some ==> after == middle,
        middle[i] is None ==> after == middle.update(i, Some(default)),
    ensures
        before[i] is None ==> after[i] == Some(default),
        before[i] is Some ==> after[i] is Some && exists|v: &mut V|
            *v == before[i]->0 && f.ensures((v,), ()) && *final(v) == after[i]->0,
        after.len() == before.len(),
        forall|j: int| 0 <= j < before.len() && j != i ==> after[j] == before[j],
{
}

} // verus!
