use core::marker::PhantomData;
use vstd::prelude::*;

use crate::entry::{Entry, OccupiedEntry, VacantEntry};
use crate::enum_trait::{enum_laws, Bound, Enum};
use crate::enumeration::{enumerate, Enumeration};
use crate::set::{all_indices, indices, keep, lemma_all_indices, lemma_keep_last, lemma_keep_subset};

verus! {

/// Number of occupied slots.
pub open spec fn count_some<V>(s: Seq<Option<V>>) -> nat
    decreases s.len(),
{
    if s.len() == 0 {
        0
    } else {
        count_some(s.drop_last()) + if s.last() is Some {
            1nat
        } else {
            0nat
        }
    }
}

/// The values of the occupied slots, in slot order.
pub open spec fn somes<V>(s: Seq<Option<V>>) -> Seq<V>
    decreases s.len(),
{
    if s.len() == 0 {
        Seq::empty()
    } else {
        match s.last() {
            Some(v) => somes(s.drop_last()).push(v),
            None => somes(s.drop_last()),
        }
    }
}

/// `n` empty slots.
pub open spec fn vacant<V>(n: nat) -> Seq<Option<V>> {
    Seq::new(n, |i: int| None)
}

/// The index and value of each occupied slot, in slot order.
pub open spec fn entries<V>(s: Seq<Option<V>>) -> Seq<(nat, V)>
    decreases s.len(),
{
    if s.len() == 0 {
        Seq::empty()
    } else {
        match s.last() {
            Some(v) => entries(s.drop_last()).push(((s.len() - 1) as nat, v)),
            None => entries(s.drop_last()),
        }
    }
}

/// Pairs of keys and values, read as pairs of indices and values.
pub open spec fn key_values<K: Enum, V>(r: Seq<(K, V)>) -> Seq<(nat, V)> {
    r.map_values(|p: (K, V)| (p.0.spec_index(), p.1))
}

/// `r` lists the indices and values of `e`, the values by reference.
pub open spec fn lists_entries<K: Enum, V>(r: Seq<(K, &V)>, e: Seq<(nat, V)>) -> bool {
    &&& r.len() == e.len()
    &&& forall|k: int| 0 <= k < r.len() ==> #[trigger] r[k].0.spec_index() == e[k].0 && *r[k].1 == e[k].1
}

/// `r` lists the values of `e` by reference.
pub open spec fn lists_values<V>(r: Seq<&V>, e: Seq<V>) -> bool {
    &&& r.len() == e.len()
    &&& forall|k: int| 0 <= k < r.len() ==> *#[trigger] r[k] == e[k]
}

/// The slots of `before` that are empty in `after`.
pub open spec fn taken<V>(before: Seq<Option<V>>, after: Seq<Option<V>>) -> Seq<Option<V>> {
    Seq::new(before.len(), |j: int| if after[j] is None { before[j] } else { None })
}

/// The slots after setting each pair in turn, later pairs overwriting
/// earlier ones.
pub open spec fn updated<V>(s: Seq<Option<V>>, pairs: Seq<(nat, V)>) -> Seq<Option<V>>
    decreases pairs.len(),
{
    if pairs.len() == 0 {
        s
    } else {
        updated(s, pairs.drop_last()).update(pairs.last().0 as int, Some(pairs.last().1))
    }
}

/// The indices of the occupied slots.
pub open spec fn occupied<V>(s: Seq<Option<V>>) -> Set<nat> {
    Set::new(|i: nat| i < s.len() && s[i as int] is Some)
}

/// Replacing one slot changes the count by what left and what came.
pub proof fn lemma_count_update<V>(s: Seq<Option<V>>, i: int, v: Option<V>)
    requires
        0 <= i < s.len(),
    ensures
        count_some(s.update(i, v)) + (if s[i] is Some {
            1int
        } else {
            0int
        }) == count_some(s) + (if v is Some {
            1int
        } else {
            0int
        }),
    decreases s.len(),
{
    if i == s.len() - 1 {
        assert(s.update(i, v).drop_last() =~= s.drop_last());
    } else {
        lemma_count_update(s.drop_last(), i, v);
        assert(s.update(i, v).drop_last() =~= s.drop_last().update(i, v));
    }
}

/// The count is at most the number of slots, equals the number of values,
/// and is zero exactly when every slot is empty.
pub proof fn lemma_count_bound<V>(s: Seq<Option<V>>)
    ensures
        count_some(s) <= s.len(),
        count_some(s) == somes(s).len(),
        count_some(s) == 0 <==> (forall|i: int| 0 <= i < s.len() ==> s[i] is None),
    decreases s.len(),
{
    if s.len() > 0 {
        lemma_count_bound(s.drop_last());
        if count_some(s) == 0 {
            assert forall|i: int| 0 <= i < s.len() implies s[i] is None by {
                if i < s.len() - 1 {
                    assert(s.drop_last()[i] == s[i]);
                }
            }
        }
        if forall|i: int| 0 <= i < s.len() ==> s[i] is None {
            assert(s.last() is None);
            assert forall|i: int| 0 <= i < s.drop_last().len() implies s.drop_last()[i] is None by {
                assert(s.drop_last()[i] == s[i]);
            }
        }
    }
}

/// Empty slots count nothing.
pub proof fn lemma_vacant<V>(n: nat)
    ensures
        count_some(vacant::<V>(n)) == 0,
        somes(vacant::<V>(n)) == Seq::<V>::empty(),
    decreases n,
{
    if n > 0 {
        lemma_vacant::<V>((n - 1) as nat);
        assert(vacant::<V>(n).drop_last() =~= vacant::<V>((n - 1) as nat));
    }
}

/// Empty slots have no entries.
pub proof fn lemma_entries_vacant<V>(n: nat)
    ensures
        entries(vacant::<V>(n)) == Seq::<(nat, V)>::empty(),
    decreases n,
{
    if n > 0 {
        lemma_entries_vacant::<V>((n - 1) as nat);
        assert(vacant::<V>(n).drop_last() =~= vacant::<V>((n - 1) as nat));
    }
}

/// Setting the entries of `s` in order into empty slots rebuilds `s`.
pub proof fn lemma_updated_entries<V>(s: Seq<Option<V>>, n: nat)
    requires
        s.len() <= n,
    ensures
        updated(vacant::<V>(n), entries(s)) == s + vacant::<V>((n - s.len()) as nat),
    decreases s.len(),
{
    if s.len() == 0 {
        assert(s + vacant::<V>(n) =~= vacant::<V>(n));
    } else {
        let t = s.drop_last();
        lemma_updated_entries(t, n);
        match s.last() {
            Some(v) => {
                let e = entries(t).push(((s.len() - 1) as nat, v));
                assert(e.drop_last() =~= entries(t));
                assert((t + vacant::<V>((n - t.len()) as nat)).update(s.len() - 1, Some(v))
                    =~= s + vacant::<V>((n - s.len()) as nat));
            },
            None => {
                assert(t + vacant::<V>((n - t.len()) as nat) =~= s + vacant::<V>((n - s.len()) as nat));
            },
        }
    }
}

/// The occupied slots are as many as `count_some` says.
pub proof fn lemma_count_occupied<V>(s: Seq<Option<V>>)
    ensures
        occupied(s).finite(),
        occupied(s).len() == count_some(s),
    decreases s.len(),
{
    if s.len() == 0 {
        assert(occupied(s) =~= Set::<nat>::empty());
    } else {
        let t = s.drop_last();
        lemma_count_occupied(t);
        let last = (s.len() - 1) as nat;
        if s.last() is Some {
            assert(occupied(s) =~= occupied(t).insert(last));
        } else {
            assert(occupied(s) =~= occupied(t));
        }
    }
}

/// A map from the values of an enumerable type to values, one slot per key,
/// with storage allocated on first insertion.
#[derive(Debug, PartialEq, Eq)]
pub struct EnumMap<K, V> {
    inner: Vec<Option<V>>,
    size: usize,
    marker: PhantomData<K>,
}

impl<K, V: Clone> Clone for EnumMap<K, V> {
    fn clone(&self) -> (r: Self) {
        EnumMap { inner: self.inner.clone(), size: self.size, marker: PhantomData }
    }
}

impl<K: Enum, V> Default for EnumMap<K, V> {
    fn default() -> (r: Self)
        ensures
            r.wf(),
            r@ == vacant::<V>(K::spec_size()),
    {
        Self::new()
    }
}

impl<K: Enum, V> EnumMap<K, V> {
    /// One slot per key, in key order; `None` where the key has no value.
    pub closed spec fn view(&self) -> Seq<Option<V>> {
        if self.inner@.len() == 0 {
            vacant(K::spec_size())
        } else {
            self.inner@
        }
    }

    /// Storage is absent or holds one slot per key, and the count matches
    /// the occupied slots.
    pub closed spec fn wf(&self) -> bool {
        &&& enum_laws::<K>()
        &&& self.inner@.len() == 0 || self.inner@.len() == K::spec_size()
        &&& self.size == count_some(self@)
    }

    /// The value held for the key at index `i`.
    pub open spec fn slot(&self, i: nat) -> Option<V> {
        self@[i as int]
    }

    proof fn lemma_wf(&self)
        requires
            self.wf(),
        ensures
            self@.len() == K::spec_size(),
            K::spec_size() <= 128,
            self.size <= K::spec_size(),
            self.size == somes(self@).len(),
            forall|x: K| #[trigger] x.spec_index() < K::spec_size(),
    {
        lemma_count_bound(self@);
    }

    /// A well-formed map has one slot per key.
    pub proof fn lemma_slots(&self)
        requires
            self.wf(),
        ensures
            self@.len() == K::spec_size(),
            forall|x: K| #[trigger] x.spec_index() < self@.len(),
    {
        self.lemma_wf();
    }

    /// The empty map; it allocates nothing.
    pub fn new() -> (r: Self)
        ensures
            r.wf(),
            r@ == vacant::<V>(K::spec_size()),
    {
        // The contract of `size` carries the rules of `K`.
        let _ = K::size();
        proof {
            lemma_vacant::<V>(K::spec_size());
        }
        EnumMap { inner: Vec::new(), size: 0, marker: PhantomData }
    }

    /// Number of keys the map can hold.
    pub fn capacity(&self) -> (r: usize)
        ensures
            r == K::spec_size(),
    {
        K::size()
    }

    /// Number of keys with a value.
    pub fn size(&self) -> (r: usize)
        requires
            self.wf(),
        ensures
            r == count_some(self@),
    {
        self.size
    }

    /// Number of keys with a value.
    pub fn len(&self) -> (r: usize)
        requires
            self.wf(),
        ensures
            r == count_some(self@),
    {
        self.size
    }

    /// Whether no key has a value.
    pub fn is_empty(&self) -> (r: bool)
        requires
            self.wf(),
        ensures
            r == (count_some(self@) == 0),
            r == (forall|i: int| 0 <= i < self@.len() ==> self@[i] is None),
    {
        proof {
            lemma_count_bound(self@);
        }
        self.size == 0
    }

    /// Gives the map one empty slot per key if it has no storage yet.
    fn allocate(&mut self)
        requires
            old(self).wf(),
        ensures
            final(self).wf(),
            final(self)@ == old(self)@,
            final(self).inner@.len() == K::spec_size(),
            final(self).size == old(self).size,
    {
        if self.inner.len() == 0 {
            let n = K::size();
            let mut i: usize = 0;
            while i < n
                invariant
                    n == K::spec_size(),
                    i <= n,
                    self.inner@ == vacant::<V>(i as nat),
                    self.size == old(self).size,
                    old(self).inner@.len() == 0,
                decreases n - i,
            {
                self.inner.push(None);
                assert(self.inner@ =~= vacant::<V>((i + 1) as nat));
                i = i + 1;
            }
            assert(self.inner@ =~= vacant::<V>(K::spec_size()));
        }
    }

    /// A handle on the slot of `key`, occupied or vacant; allocates the
    /// storage if the map has none yet.
    pub fn entry(&mut self, key: K) -> (r: Entry<'_, K, V>)
        requires
            old(self).wf(),
        ensures
            match r {
                Entry::Occupied(e) => e.key == key && e.wf() && (*e.map)@ == old(self)@
                    && *final(e.map) == *final(self),
                Entry::Vacant(e) => e.key == key && e.wf() && (*e.map)@ == old(self)@
                    && *final(e.map) == *final(self),
            },
    {
        self.allocate();
        if self.contains_key(key) {
            Entry::Occupied(OccupiedEntry { key, map: self })
        } else {
            Entry::Vacant(VacantEntry { key, map: self })
        }
    }

    /// The value held for `k`, if any.
    pub fn get(&self, k: K) -> (r: Option<&V>)
        requires
            self.wf(),
        ensures
            match self@[k.spec_index() as int] {
                Some(v) => r matches Some(x) && *x == v,
                None => r is None,
            },
    {
        proof {
            self.lemma_wf();
        }
        let i = k.index();
        if i < self.inner.len() {
            self.inner[i].as_ref()
        } else {
            None
        }
    }

    /// Whether `k` has a value.
    pub fn contains_key(&self, k: K) -> (r: bool)
        requires
            self.wf(),
        ensures
            r == self@[k.spec_index() as int] is Some,
    {
        proof {
            self.lemma_wf();
        }
        let i = k.index();
        i < self.inner.len() && self.inner[i].is_some()
    }

    /// Mutable access to the value held for `k`, if any.
    pub fn get_mut(&mut self, k: K) -> (r: Option<&mut V>)
        requires
            old(self).wf(),
        ensures
            match old(self)@[k.spec_index() as int] {
                Some(v) => r matches Some(x) && *x == v
                    && final(self)@ == old(self)@.update(k.spec_index() as int, Some(*final(r.unwrap()))),
                None => r is None && final(self)@ == old(self)@,
            },
            final(self).wf(),
    {
        proof {
            self.lemma_wf();
        }
        let i = k.index();
        if i < self.inner.len() {
            proof {
                if old(self)@[i as int] is Some {
                    assert forall|v: V| #[trigger] count_some(old(self)@.update(i as int, Some(v)))
                        == old(self).size by {
                        lemma_count_update(old(self)@, i as int, Some(v));
                    }
                }
            }
            let r = self.inner[i].as_mut();
            r
        } else {
            None
        }
    }

    /// The value held for `k`, which must be present.
    pub fn index(&self, k: K) -> (r: &V)
        requires
            self.wf(),
            self@[k.spec_index() as int] is Some,
        ensures
            Some(*r) == self@[k.spec_index() as int],
    {
        proof {
            self.lemma_wf();
        }
        self.inner[k.index()].as_ref().unwrap()
    }

    /// Sets the value for `k`, returning the one it replaces.
    pub fn insert(&mut self, k: K, v: V) -> (r: Option<V>)
        requires
            old(self).wf(),
        ensures
            final(self).wf(),
            r == old(self)@[k.spec_index() as int],
            final(self)@ == old(self)@.update(k.spec_index() as int, Some(v)),
    {
        proof {
            self.lemma_wf();
        }
        self.allocate();
        let i = k.index();
        let old_val = self.inner[i].take();
        self.inner.set(i, Some(v));
        proof {
            lemma_count_update(old(self)@, i as int, Some(v));
            assert(self@ =~= old(self)@.update(i as int, Some(v)));
        }
        if old_val.is_none() {
            self.size = self.size + 1;
        }
        old_val
    }

    /// Clears the value for `k`, returning it.
    pub fn remove(&mut self, k: K) -> (r: Option<V>)
        requires
            old(self).wf(),
        ensures
            final(self).wf(),
            r == old(self)@[k.spec_index() as int],
            final(self)@ == old(self)@.update(k.spec_index() as int, None),
    {
        proof {
            self.lemma_wf();
        }
        let i = k.index();
        if i >= self.inner.len() {
            assert(old(self)@.update(i as int, None) =~= old(self)@);
            return None;
        }
        let old_val = self.inner[i].take();
        proof {
            lemma_count_update(old(self)@, i as int, None);
        }
        if old_val.is_some() {
            self.size = self.size - 1;
        }
        old_val
    }

    /// Clears every value, keeping the storage.
    pub fn clear(&mut self)
        requires
            old(self).wf(),
        ensures
            final(self).wf(),
            final(self)@ == vacant::<V>(K::spec_size()),
    {
        proof {
            self.lemma_wf();
            lemma_vacant::<V>(K::spec_size());
        }
        let n = self.inner.len();
        let mut i: usize = 0;
        while i < n
            invariant
                n == self.inner@.len(),
                i <= n,
                forall|j: int| 0 <= j < i ==> self.inner@[j] is None,
            decreases n - i,
        {
            self.inner.set(i, None);
            i = i + 1;
        }
        self.size = 0;
        proof {
            if n > 0 {
                assert(self.inner@ =~= vacant::<V>(K::spec_size()));
            }
        }
    }

    /// The keys with a value, in ascending order.
    pub fn keys(&self) -> (r: Vec<K>)
        requires
            self.wf(),
        ensures
            indices(r@) == entries(self@).map_values(|p: (nat, V)| p.0),
    {
        proof {
            self.lemma_wf();
        }
        let n = K::size();
        let mut out: Vec<K> = Vec::new();
        let mut i: usize = 0;
        while i < n
            invariant
                n == K::spec_size(),
                n == self@.len(),
                i <= n,
                self.inner@.len() == 0 || self.inner@.len() == n,
                indices(out@) == entries(self@.take(i as int)).map_values(|p: (nat, V)| p.0),
            decreases n - i,
        {
            let ghost before = out@;
            proof {
                let t = self@.take(i + 1);
                assert(t.drop_last() =~= self@.take(i as int));
                assert(t.last() == self@[i as int]);
            }
            if i < self.inner.len() && self.inner[i].is_some() {
                match K::from_index(i) {
                    Some(k) => {
                        out.push(k);
                        proof {
                            assert(indices(out@) =~= indices(before).push(i as nat));
                        }
                    },
                    None => {},
                }
            }
            proof {
                assert(indices(out@) =~= entries(self@.take(i + 1)).map_values(|p: (nat, V)| p.0));
            }
            i = i + 1;
        }
        assert(self@.take(n as int) =~= self@);
        out
    }

    /// References to the values, in key order.
    pub fn values(&self) -> (r: Vec<&V>)
        requires
            self.wf(),
        ensures
            lists_values(r@, somes(self@)),
    {
        proof {
            self.lemma_wf();
        }
        let n = self.inner.len();
        let mut out: Vec<&V> = Vec::new();
        let mut i: usize = 0;
        while i < n
            invariant
                n == self.inner@.len(),
                i <= n,
                lists_values(out@, somes(self.inner@.take(i as int))),
            decreases n - i,
        {
            proof {
                assert(self.inner@.take(i + 1).drop_last() =~= self.inner@.take(i as int));
            }
            match self.inner[i].as_ref() {
                Some(v) => {
                    out.push(v);
                },
                None => {},
            }
            i = i + 1;
        }
        proof {
            assert(self.inner@.take(n as int) =~= self.inner@);
            lemma_vacant::<V>(K::spec_size());
        }
        out
    }

    /// The pairs of keys and references to values, in key order.
    fn pairs(&self) -> (r: Vec<(K, &V)>)
        requires
            self.wf(),
        ensures
            lists_entries(r@, entries(self@)),
    {
        proof {
            self.lemma_wf();
        }
        let n = self.inner.len();
        let mut out: Vec<(K, &V)> = Vec::new();
        let mut i: usize = 0;
        while i < n
            invariant
                n == self.inner@.len(),
                n == 0 || n == K::spec_size(),
                enum_laws::<K>(),
                i <= n,
                lists_entries(out@, entries(self.inner@.take(i as int))),
            decreases n - i,
        {
            proof {
                assert(self.inner@.take(i + 1).drop_last() =~= self.inner@.take(i as int));
            }
            let ghost before = out@;
            match self.inner[i].as_ref() {
                Some(v) => match K::from_index(i) {
                    Some(k) => {
                        out.push((k, v));
                        proof {
                            let e = entries(self.inner@.take(i + 1));
                            assert(e == entries(self.inner@.take(i as int)).push((i as nat, *v)));
                            assert forall|j: int| 0 <= j < out@.len() implies #[trigger] out@[j].0.spec_index() == e[j].0
                                && *out@[j].1 == e[j].1 by {
                                if j < before.len() {
                                    assert(out@[j] == before[j]);
                                }
                            }
                        }
                    },
                    None => {},
                },
                None => {},
            }
            i = i + 1;
        }
        proof {
            assert(self.inner@.take(n as int) =~= self.inner@);
            lemma_vacant::<V>(K::spec_size());
            if n == 0 {
                assert(entries(vacant::<V>(K::spec_size())) =~= Seq::<(nat, V)>::empty()) by {
                    lemma_entries_vacant::<V>(K::spec_size());
                }
            }
        }
        out
    }

    /// The pairs of keys and references to values, in key order, consumed
    /// from either end.
    pub fn iter(&self) -> (r: MapIter<'_, K, V>)
        requires
            self.wf(),
        ensures
            r.wf(),
            r.slots() == self@,
            r@ == keep(all_indices::<K>(), occupied(self@)),
    {
        proof {
            self.lemma_wf();
            lemma_count_occupied(self@);
            lemma_all_indices::<K>();
            lemma_keep_subset(all_indices::<K>(), occupied(self@));
            assert(occupied(self@).intersect(all_indices::<K>().to_set()) =~= occupied(self@));
        }
        MapIter { slots: &self.inner, iter: enumerate(Bound::Unbounded, Bound::Unbounded), remaining: self.size }
    }

    /// The pairs of keys and values, in key order, for copyable values.
    pub fn iter_copied(&self) -> (r: Vec<(K, V)>)
        where
            V: Copy,
        requires
            self.wf(),
        ensures
            key_values(r@) == entries(self@),
    {
        let refs = self.pairs();
        let mut out: Vec<(K, V)> = Vec::new();
        let mut i: usize = 0;
        while i < refs.len()
            invariant
                i <= refs@.len(),
                key_values(out@) =~= entries(self@).take(i as int),
                lists_entries(refs@, entries(self@)),
            decreases refs@.len() - i,
        {
            let (k, v) = refs[i];
            let ghost before = out@;
            proof {
                assert(refs@[i as int].0.spec_index() == entries(self@)[i as int].0);
                assert(*v == entries(self@)[i as int].1);
            }
            out.push((k, *v));
            proof {
                assert(key_values(out@) =~= key_values(before).push((k.spec_index(), *v)));
                assert(key_values(out@) =~= entries(self@).take(i + 1));
            }
            i = i + 1;
        }
        assert(entries(self@).take(refs@.len() as int) =~= entries(self@));
        out
    }

    /// Keeps exactly the values that `f` accepts, asking `f` about every
    /// occupied slot in key order.
    pub fn retain<F: Fn(K, &V) -> bool>(&mut self, f: F)
        requires
            old(self).wf(),
            forall|k: K, v: &V| f.requires((k, v)),
        ensures
            final(self).wf(),
            final(self)@.len() == old(self)@.len(),
            forall|x: K| match #[trigger] old(self)@[x.spec_index() as int] {
                None => final(self)@[x.spec_index() as int] is None,
                Some(v) => (final(self)@[x.spec_index() as int] == Some(v) && f.ensures((x, &v), true))
                    || (final(self)@[x.spec_index() as int] is None && f.ensures((x, &v), false)),
            },
    {
        let _ = self.remove_where(|k: K, v: &V| -> (r: bool)
            requires
                f.requires((k, v)),
            ensures
                f.ensures((k, v), !r),
            { !f(k, v) });
    }

    /// Takes out the values that `pred` accepts, asking `pred` about every
    /// occupied slot in key order; returns them with their keys.
    fn remove_where<F: Fn(K, &V) -> bool>(&mut self, pred: F) -> (r: Vec<(K, V)>)
        requires
            old(self).wf(),
            forall|k: K, v: &V| pred.requires((k, v)),
        ensures
            final(self).wf(),
            final(self)@.len() == old(self)@.len(),
            forall|x: K| match #[trigger] old(self)@[x.spec_index() as int] {
                None => final(self)@[x.spec_index() as int] is None,
                Some(v) => (final(self)@[x.spec_index() as int] == Some(v) && pred.ensures((x, &v), false))
                    || (final(self)@[x.spec_index() as int] is None && pred.ensures((x, &v), true)),
            },
            key_values(r@) == entries(taken(old(self)@, final(self)@)),
    {
        proof {
            self.lemma_wf();
            lemma_vacant::<V>(K::spec_size());
            lemma_entries_vacant::<V>(K::spec_size());
        }
        let n = self.inner.len();
        let mut out: Vec<(K, V)> = Vec::new();
        let mut i: usize = 0;
        while i < n
            invariant
                n == self.inner@.len(),
                n == 0 || n == K::spec_size(),
                old(self).wf(),
                self.wf(),
                self@.len() == old(self)@.len(),
                old(self).inner@.len() == n,
                i <= n,
                forall|k: K, v: &V| pred.requires((k, v)),
                forall|j: int| i <= j < n ==> self.inner@[j] == old(self).inner@[j],
                forall|x: K| #[trigger] x.spec_index() < i ==> match old(self)@[x.spec_index() as int] {
                    None => self@[x.spec_index() as int] is None,
                    Some(v) => (self@[x.spec_index() as int] == Some(v) && pred.ensures((x, &v), false))
                        || (self@[x.spec_index() as int] is None && pred.ensures((x, &v), true)),
                },
                key_values(out@) == entries(taken(old(self)@, self@).take(i as int)),
            decreases n - i,
        {
            proof {
                self.lemma_wf();
            }
            let ghost before = self@;
            let ghost out_before = out@;
            let chosen = match self.inner[i].as_ref() {
                Some(v) => match K::from_index(i) {
                    Some(k) => pred(k, v),
                    None => false,
                },
                None => false,
            };
            if chosen {
                let k = K::from_index(i).unwrap();
                let v = self.inner[i].take().unwrap();
                proof {
                    lemma_count_update(before, i as int, None);
                }
                self.size = self.size - 1;
                out.push((k, v));
                proof {
                    assert(key_values(out@) =~= key_values(out_before).push((i as nat, v)));
                }
            }
            proof {
                let t1 = taken(old(self)@, self@).take(i + 1);
                let t0 = taken(old(self)@, before).take(i as int);
                assert(t1.drop_last() =~= t0);
                assert(taken(old(self)@, self@).take(i as int) =~= t0);
            }
            i = i + 1;
        }
        proof {
            if n > 0 {
                assert(taken(old(self)@, self@).take(n as int) =~= taken(old(self)@, self@));
            } else {
                assert(taken(old(self)@, self@) =~= vacant::<V>(K::spec_size()));
            }
        }
        out
    }

    /// A handle that takes out, one at a time and in key order, the values
    /// that `pred` accepts; values it has not reached stay in the map.
    pub fn extract_if<F: Fn(K, &V) -> bool>(&mut self, pred: F) -> (r: ExtractIf<'_, K, V, F>)
        requires
            old(self).wf(),
        ensures
            r.wf(),
            r@ == all_indices::<K>(),
            r.map@ == old(self)@,
            r.predicate() == pred,
            *final(r.map) == *final(self),
    {
        ExtractIf { map: self, keys: enumerate(Bound::Unbounded, Bound::Unbounded), pred }
    }

    /// Takes out every value with its key, in key order, leaving the map
    /// empty.
    pub fn drain(&mut self) -> (r: Vec<(K, V)>)
        requires
            old(self).wf(),
        ensures
            final(self).wf(),
            final(self)@ == vacant::<V>(K::spec_size()),
            key_values(r@) == entries(old(self)@),
    {
        proof {
            self.lemma_wf();
            lemma_vacant::<V>(K::spec_size());
            lemma_entries_vacant::<V>(K::spec_size());
        }
        let mut slots: Vec<Option<V>> = Vec::new();
        core::mem::swap(&mut self.inner, &mut slots);
        self.size = 0;
        let ghost all = slots@;
        let total = slots.len();
        let mut rev: Vec<Option<V>> = Vec::new();
        while slots.len() > 0
            invariant
                slots@.len() + rev@.len() == all.len(),
                slots@ == all.take(slots@.len() as int),
                forall|k: int| 0 <= k < rev@.len() ==> #[trigger] rev@[k] == all[all.len() - 1 - k],
            decreases slots@.len(),
        {
            let x = slots.pop().unwrap();
            rev.push(x);
            assert(slots@ =~= all.take(slots@.len() as int));
        }
        let mut out: Vec<(K, V)> = Vec::new();
        while rev.len() > 0
            invariant
                rev@.len() <= all.len(),
                total == all.len(),
                enum_laws::<K>(),
                all.len() == 0 || all.len() == K::spec_size(),
                forall|k: int| 0 <= k < rev@.len() ==> #[trigger] rev@[k] == all[all.len() - 1 - k],
                key_values(out@) == entries(all.take(all.len() - rev@.len())),
            decreases rev@.len(),
        {
            let p = total - rev.len();
            let x = rev.pop().unwrap();
            proof {
                assert(all.take(p + 1).drop_last() =~= all.take(p as int));
            }
            match x {
                Some(v) => match K::from_index(p) {
                    Some(k) => {
                        let ghost out_before = out@;
                        out.push((k, v));
                        assert(key_values(out@) =~= key_values(out_before).push((p as nat, v)));
                    },
                    None => {},
                },
                None => {},
            }
        }
        assert(all.take(all.len() as int) =~= all);
        out
    }

    /// The map holding the given pairs, later pairs for a key overwriting
    /// earlier ones; storage for every key is allocated up front.
    pub fn from_pairs(pairs: Vec<(K, V)>) -> (r: Self)
        ensures
            r.wf(),
            r@ == updated(vacant::<V>(K::spec_size()), key_values(pairs@)),
    {
        let mut r = Self::new();
        r.allocate();
        let ghost all = pairs@;
        let mut pairs = pairs;
        let mut rev: Vec<(K, V)> = Vec::new();
        while pairs.len() > 0
            invariant
                pairs@.len() + rev@.len() == all.len(),
                pairs@ == all.take(pairs@.len() as int),
                forall|k: int| 0 <= k < rev@.len() ==> #[trigger] rev@[k] == all[all.len() - 1 - k],
            decreases pairs@.len(),
        {
            let x = pairs.pop().unwrap();
            rev.push(x);
            assert(pairs@ =~= all.take(pairs@.len() as int));
        }
        while rev.len() > 0
            invariant
                r.wf(),
                rev@.len() <= all.len(),
                forall|k: int| 0 <= k < rev@.len() ==> #[trigger] rev@[k] == all[all.len() - 1 - k],
                r@ == updated(vacant::<V>(K::spec_size()), key_values(all.take(all.len() - rev@.len()))),
            decreases rev@.len(),
        {
            let ghost p = all.len() - rev@.len();
            let (k, v) = rev.pop().unwrap();
            r.insert(k, v);
            proof {
                assert(key_values(all.take(p + 1)).drop_last() =~= key_values(all.take(p)));
            }
        }
        assert(all.take(all.len() as int) =~= all);
        r
    }

    /// The values, in key order, consuming the map.
    pub fn into_values(self) -> (r: Vec<V>)
        requires
            self.wf(),
        ensures
            r@ == somes(self@),
    {
        proof {
            lemma_vacant::<V>(K::spec_size());
        }
        let ghost all = self.inner@;
        let mut inner = self.inner;
        let mut rev: Vec<Option<V>> = Vec::new();
        while inner.len() > 0
            invariant
                inner@.len() + rev@.len() == all.len(),
                inner@ == all.take(inner@.len() as int),
                forall|k: int| 0 <= k < rev@.len() ==> #[trigger] rev@[k] == all[all.len() - 1 - k],
            decreases inner@.len(),
        {
            let x = inner.pop().unwrap();
            rev.push(x);
            assert(inner@ =~= all.take(inner@.len() as int));
        }
        let mut out: Vec<V> = Vec::new();
        while rev.len() > 0
            invariant
                rev@.len() <= all.len(),
                forall|k: int| 0 <= k < rev@.len() ==> #[trigger] rev@[k] == all[all.len() - 1 - k],
                out@ == somes(all.take(all.len() - rev@.len())),
            decreases rev@.len(),
        {
            let ghost p = all.len() - rev@.len();
            let x = rev.pop().unwrap();
            proof {
                assert(all.take(p + 1).drop_last() =~= all.take(p));
            }
            match x {
                Some(v) => {
                    out.push(v);
                },
                None => {},
            }
        }
        assert(all.take(all.len() as int) =~= all);
        out
    }
}

/// The keys and values of a map in key order, consumed from either end.
pub struct MapIter<'a, K, V> {
    slots: &'a Vec<Option<V>>,
    iter: Enumeration<K>,
    remaining: usize,
}

impl<'a, K: Enum, V> MapIter<'a, K, V> {
    /// The slots of the map being traversed.
    pub closed spec fn slots(&self) -> Seq<Option<V>> {
        if self.slots@.len() == 0 {
            vacant(K::spec_size())
        } else {
            self.slots@
        }
    }

    /// The remaining count matches what is left to produce.
    pub closed spec fn wf(&self) -> bool {
        &&& self.iter.wf()
        &&& self.slots@.len() == 0 || self.slots@.len() == K::spec_size()
        &&& self.remaining == keep(self.iter@, occupied(self.slots())).len()
    }

    /// The indices of the keys still to be produced, in ascending order.
    pub closed spec fn view(&self) -> Seq<nat> {
        keep(self.iter@, occupied(self.slots()))
    }

    /// Produces the pair with the smallest remaining key.
    pub fn next(&mut self) -> (r: Option<(K, &'a V)>)
        requires
            old(self).wf(),
        ensures
            final(self).wf(),
            final(self).slots() == old(self).slots(),
            old(self)@.len() == 0 ==> r is None && final(self)@ == old(self)@,
            old(self)@.len() > 0 ==> (r matches Some((k, v)) && k.spec_index() == old(self)@[0]
                && old(self).slots()[k.spec_index() as int] == Some(*v)
                && final(self)@ == old(self)@.drop_first()),
    {
        loop
            invariant
                self.wf(),
                self.slots == old(self).slots,
                self.remaining == old(self).remaining,
                self@ == old(self)@,
            decreases self.iter@.len(),
        {
            let ghost before = self.iter@;
            match self.iter.next() {
                Some(k) => {
                    let i = k.index();
                    if i < self.slots.len() {
                        match self.slots[i].as_ref() {
                            Some(v) => {
                                assert(occupied(self.slots()).contains(i as nat));
                                assert(keep(before, occupied(self.slots())) =~= seq![i as nat] + self@);
                                self.remaining = self.remaining - 1;
                                return Some((k, v));
                            },
                            None => {
                                assert(!occupied(self.slots()).contains(i as nat));
                            },
                        }
                    } else {
                        assert(!occupied(self.slots()).contains(i as nat));
                    }
                },
                None => {
                    return None;
                },
            }
        }
    }

    /// Produces the pair with the largest remaining key.
    pub fn next_back(&mut self) -> (r: Option<(K, &'a V)>)
        requires
            old(self).wf(),
        ensures
            final(self).wf(),
            final(self).slots() == old(self).slots(),
            old(self)@.len() == 0 ==> r is None && final(self)@ == old(self)@,
            old(self)@.len() > 0 ==> (r matches Some((k, v)) && k.spec_index() == old(self)@.last()
                && old(self).slots()[k.spec_index() as int] == Some(*v)
                && final(self)@ == old(self)@.drop_last()),
    {
        loop
            invariant
                self.wf(),
                self.slots == old(self).slots,
                self.remaining == old(self).remaining,
                self@ == old(self)@,
            decreases self.iter@.len(),
        {
            let ghost before = self.iter@;
            match self.iter.next_back() {
                Some(k) => {
                    proof {
                        lemma_keep_last(before, occupied(self.slots()));
                    }
                    let i = k.index();
                    if i < self.slots.len() {
                        match self.slots[i].as_ref() {
                            Some(v) => {
                                assert(occupied(self.slots()).contains(i as nat));
                                self.remaining = self.remaining - 1;
                                assert(self@ =~= old(self)@.drop_last());
                                return Some((k, v));
                            },
                            None => {
                                assert(!occupied(self.slots()).contains(i as nat));
                            },
                        }
                    } else {
                        assert(!occupied(self.slots()).contains(i as nat));
                    }
                },
                None => {
                    return None;
                },
            }
        }
    }

    /// Number of pairs still to be produced.
    pub fn len(&self) -> (r: usize)
        requires
            self.wf(),
        ensures
            r == self@.len(),
    {
        self.remaining
    }
}

/// Every index of `idxs` has either no value in `s` or one that `pred` may
/// reject.
pub open spec fn all_rejected<K: Enum, V, F: Fn(K, &V) -> bool>(
    pred: F,
    s: Seq<Option<V>>,
    idxs: Seq<nat>,
) -> bool {
    forall|m: int|
        0 <= m < idxs.len() ==> match s[#[trigger] idxs[m] as int] {
            None => true,
            Some(w) => pred.ensures((K::spec_from_index(idxs[m]), &w), false),
        }
}

/// Takes values out of a map, in key order, as a predicate accepts them.
pub struct ExtractIf<'a, K, V, F> {
    /// The map the values are taken from.
    pub map: &'a mut EnumMap<K, V>,
    /// The keys not yet visited.
    pub keys: Enumeration<K>,
    /// Selects the values to take out.
    pub pred: F,
}

impl<'a, K: Enum, V, F: Fn(K, &V) -> bool> ExtractIf<'a, K, V, F> {
    /// The map is well formed and the keys left form a range.
    pub closed spec fn wf(&self) -> bool {
        self.map.wf() && self.keys.wf()
    }

    /// The indices of the keys not yet visited, in ascending order.
    pub closed spec fn view(&self) -> Seq<nat> {
        self.keys@
    }

    /// The predicate that selects the values to take out.
    pub closed spec fn predicate(&self) -> F {
        self.pred
    }

    /// Visits keys until the predicate accepts one's value, and takes that
    /// value out; `None` once every key has been visited.
    pub fn next(&mut self) -> (r: Option<(K, V)>)
        requires
            old(self).wf(),
            forall|k: K, v: &V| old(self).predicate().requires((k, v)),
        ensures
            final(self).wf(),
            final(self).predicate() == old(self).predicate(),
            match r {
                None => final(self)@.len() == 0 && final(self).map@ == old(self).map@
                    && all_rejected(old(self).predicate(), old(self).map@, old(self)@),
                Some((k, v)) => {
                    let j = old(self)@.len() - final(self)@.len() - 1;
                    &&& 0 <= j < old(self)@.len()
                    &&& old(self)@[j] == k.spec_index()
                    &&& old(self).map@[k.spec_index() as int] == Some(v)
                    &&& old(self).predicate().ensures((k, &v), true)
                    &&& final(self)@ == old(self)@.subrange(j + 1, old(self)@.len() as int)
                    &&& all_rejected(old(self).predicate(), old(self).map@, old(self)@.subrange(0, j))
                    &&& final(self).map@ == old(self).map@.update(k.spec_index() as int, None)
                },
            },
    {
        proof {
            self.map.lemma_slots();
            assert forall|k: K, v: &V| old(self).pred.requires((k, v)) by {
                assert(old(self).predicate().requires((k, v)));
            }
        }
        let ghost start = self.keys@;
        let ghost slots = self.map@;
        loop
            invariant
                self.wf(),
                self.pred == old(self).pred,
                forall|k: K, v: &V| old(self).pred.requires((k, v)),
                start == old(self)@,
                slots == old(self).map@,
                self.map@ == slots,
                slots.len() == K::spec_size(),
                self.keys@.len() <= start.len(),
                self.keys@ == start.subrange(start.len() - self.keys@.len(), start.len() as int),
                all_rejected(self.pred, slots, start.subrange(0, start.len() - self.keys@.len())),
            decreases self.keys@.len(),
        {
            let ghost before = self.keys@;
            proof {
                self.map.lemma_slots();
            }
            match self.keys.next() {
                Some(k) => {
                    let ghost j = start.len() - before.len();
                    assert(before[0] == start[j]);
                    let hit = match self.map.get(k) {
                        Some(v) => (self.pred)(k, v),
                        None => false,
                    };
                    proof {
                        assert(K::spec_from_index(k.spec_index()) == k);
                    }
                    if hit {
                        let v = self.map.remove(k).unwrap();
                        assert(self.keys@ =~= start.subrange(j + 1, start.len() as int));
                        return Some((k, v));
                    }
                    proof {
                        let done = start.subrange(0, start.len() - self.keys@.len());
                        let prev = start.subrange(0, j);
                        assert forall|m: int| 0 <= m < done.len() implies match slots[#[trigger] done[m] as int] {
                            None => true,
                            Some(w) => self.pred.ensures((K::spec_from_index(done[m]), &w), false),
                        } by {
                            if m < j {
                                assert(done[m] == prev[m]);
                            } else {
                                assert(done[m] == k.spec_index());
                            }
                        }
                        assert(self.keys@ =~= start.subrange(start.len() - self.keys@.len(), start.len() as int));
                    }
                },
                None => {
                    assert(start.subrange(0, start.len() as int) =~= start);
                    return None;
                },
            }
        }
    }

    /// Visits keys from the largest down until the predicate accepts one's
    /// value, and takes that value out; `None` once every key has been
    /// visited.
    pub fn next_back(&mut self) -> (r: Option<(K, V)>)
        requires
            old(self).wf(),
            forall|k: K, v: &V| old(self).predicate().requires((k, v)),
        ensures
            final(self).wf(),
            final(self).predicate() == old(self).predicate(),
            match r {
                None => final(self)@.len() == 0 && final(self).map@ == old(self).map@
                    && all_rejected(old(self).predicate(), old(self).map@, old(self)@),
                Some((k, v)) => {
                    let j = final(self)@.len() as int;
                    &&& 0 <= j < old(self)@.len()
                    &&& old(self)@[j] == k.spec_index()
                    &&& old(self).map@[k.spec_index() as int] == Some(v)
                    &&& old(self).predicate().ensures((k, &v), true)
                    &&& final(self)@ == old(self)@.subrange(0, j)
                    &&& all_rejected(old(self).predicate(), old(self).map@, old(self)@.subrange(j + 1, old(self)@.len() as int))
                    &&& final(self).map@ == old(self).map@.update(k.spec_index() as int, None)
                },
            },
    {
        proof {
            self.map.lemma_slots();
            assert forall|k: K, v: &V| old(self).pred.requires((k, v)) by {
                assert(old(self).predicate().requires((k, v)));
            }
        }
        let ghost start = self.keys@;
        let ghost slots = self.map@;
        loop
            invariant
                self.wf(),
                self.pred == old(self).pred,
                forall|k: K, v: &V| old(self).pred.requires((k, v)),
                start == old(self)@,
                slots == old(self).map@,
                self.map@ == slots,
                slots.len() == K::spec_size(),
                self.keys@.len() <= start.len(),
                self.keys@ == start.subrange(0, self.keys@.len() as int),
                all_rejected(self.pred, slots, start.subrange(self.keys@.len() as int, start.len() as int)),
            decreases self.keys@.len(),
        {
            let ghost before = self.keys@;
            proof {
                self.map.lemma_slots();
            }
            match self.keys.next_back() {
                Some(k) => {
                    let ghost j = before.len() - 1;
                    assert(before.last() == start[j]);
                    let hit = match self.map.get(k) {
                        Some(v) => (self.pred)(k, v),
                        None => false,
                    };
                    proof {
                        assert(K::spec_from_index(k.spec_index()) == k);
                    }
                    if hit {
                        let v = self.map.remove(k).unwrap();
                        assert(self.keys@ =~= start.subrange(0, j));
                        return Some((k, v));
                    }
                    proof {
                        let done = start.subrange(self.keys@.len() as int, start.len() as int);
                        let prev = start.subrange(before.len() as int, start.len() as int);
                        assert forall|m: int| 0 <= m < done.len() implies match slots[#[trigger] done[m] as int] {
                            None => true,
                            Some(w) => self.pred.ensures((K::spec_from_index(done[m]), &w), false),
                        } by {
                            if m > 0 {
                                assert(done[m] == prev[m - 1]);
                            } else {
                                assert(done[m] == k.spec_index());
                            }
                        }
                        assert(self.keys@ =~= start.subrange(0, self.keys@.len() as int));
                    }
                },
                None => {
                    assert(start.subrange(0, start.len() as int) =~= start);
                    return None;
                },
            }
        }
    }
}

/// Encoding a map as its pairs in key order and decoding by setting each
/// pair in turn into an empty map gives back the same map.
pub proof fn lemma_map_round_trip<K: Enum, V>(
    m: EnumMap<K, V>,
    encoded: Seq<(nat, V)>,
    decoded: EnumMap<K, V>,
)
    requires
        m.wf(),
        encoded == entries(m@),
        decoded@ == updated(vacant::<V>(K::spec_size()), encoded),
    ensures
        decoded@ == m@,
{
    m.lemma_wf();
    lemma_updated_entries(m@, K::spec_size());
    assert(m@ + vacant::<V>(0) =~= m@);
}

/// Inserting under an absent key adds one to the count and makes the value
/// visible; removing a present key takes one off and empties the slot;
/// inserting over a present key leaves the count alone.
pub proof fn lemma_insert_remove_len<V>(s: Seq<Option<V>>, i: int, v: V)
    requires
        0 <= i < s.len(),
    ensures
        s[i] is None ==> count_some(s.update(i, Some(v))) == count_some(s) + 1,
        s.update(i, Some(v))[i] == Some(v),
        s[i] is Some ==> count_some(s.update(i, None)) + 1 == count_some(s),
        s.update(i, None)[i] is None,
        s[i] is Some ==> count_some(s.update(i, Some(v))) == count_some(s),
{
    lemma_count_update(s, i, Some(v));
    lemma_count_update(s, i, None);
}

} // verus!
