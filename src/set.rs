use vstd::prelude::*;

use crate::enum_trait::{enum_laws, range_of, Bound, Enum};
use crate::enumeration::{enumerate, folds, Enumeration};
use crate::wordlike::{below, lemma_below, ones, Wordlike};

verus! {

/// The members of `m` among `s`, in the order of `s`.
pub open spec fn keep(s: Seq<nat>, m: Set<nat>) -> Seq<nat>
    decreases s.len(),
{
    if s.len() == 0 {
        Seq::empty()
    } else if m.contains(s[0]) {
        seq![s[0]] + keep(s.drop_first(), m)
    } else {
        keep(s.drop_first(), m)
    }
}

/// The indices of a sequence of values.
pub open spec fn indices<T: Enum>(s: Seq<T>) -> Seq<nat> {
    s.map_values(|x: T| x.spec_index())
}

/// The index of every value of `T`, in ascending order.
pub open spec fn all_indices<T: Enum>() -> Seq<nat> {
    range_of(0, T::spec_size() - 1)
}

/// `keep` holds exactly the members of `m` that occur in `s`.
pub proof fn lemma_keep_contains(s: Seq<nat>, m: Set<nat>, i: nat)
    ensures
        keep(s, m).contains(i) <==> (s.contains(i) && m.contains(i)),
    decreases s.len(),
{
    if s.len() > 0 {
        lemma_keep_contains(s.drop_first(), m, i);
        assert(s =~= seq![s[0]] + s.drop_first());
        if s.contains(i) && s[0] != i {
            let k = choose|k: int| 0 <= k < s.len() && s[k] == i;
            assert(s.drop_first()[k - 1] == i);
        }
        if m.contains(s[0]) {
            assert(keep(s, m) =~= seq![s[0]] + keep(s.drop_first(), m));
            if keep(s, m).contains(i) && i != s[0] {
                let k = choose|k: int| 0 <= k < keep(s, m).len() && keep(s, m)[k] == i;
                assert(keep(s.drop_first(), m)[k - 1] == i);
            }
            if keep(s.drop_first(), m).contains(i) {
                let k = choose|k: int| 0 <= k < keep(s.drop_first(), m).len() && keep(s.drop_first(), m)[k] == i;
                assert(keep(s, m)[k + 1] == i);
            }
            assert(keep(s, m)[0] == s[0]);
        }
        if s.drop_first().contains(i) {
            let k = choose|k: int| 0 <= k < s.drop_first().len() && s.drop_first()[k] == i;
            assert(s[k + 1] == i);
        }
    }
}

/// Taking the members of `s` from the back: the last element decides.
pub proof fn lemma_keep_last(s: Seq<nat>, m: Set<nat>)
    requires
        s.len() > 0,
    ensures
        keep(s, m) == if m.contains(s.last()) {
            keep(s.drop_last(), m).push(s.last())
        } else {
            keep(s.drop_last(), m)
        },
    decreases s.len(),
{
    if s.len() == 1 {
        assert(s.drop_last() =~= Seq::<nat>::empty());
        assert(s.drop_first() =~= Seq::<nat>::empty());
        assert(keep(s.drop_first(), m) == Seq::<nat>::empty());
        assert(keep(s.drop_last(), m) == Seq::<nat>::empty());
        if m.contains(s[0]) {
            assert(keep(s, m) =~= seq![s[0]]);
            assert(keep(s.drop_last(), m).push(s.last()) =~= seq![s[0]]);
        }
    } else {
        let t = s.drop_first();
        lemma_keep_last(t, m);
        assert(t.drop_last() =~= s.drop_last().drop_first());
        assert(t.last() == s.last());
        assert(s.drop_last()[0] == s[0]);
        if m.contains(s[0]) {
            if m.contains(s.last()) {
                assert(keep(s, m) =~= keep(s.drop_last(), m).push(s.last()));
            } else {
                assert(keep(s, m) =~= keep(s.drop_last(), m));
            }
        } else {
            assert(keep(s, m) =~= keep(t, m));
        }
    }
}

/// A set of values of an enumerable type, one bit per value in a single
/// word.
#[derive(Clone, Copy, Debug, PartialEq, Eq)]
pub struct EnumSet<T: Enum> {
    raw: T::Rep,
}

impl<T: Enum> Default for EnumSet<T> {
    fn default() -> (r: Self)
        ensures
            r.wf(),
            r@ == Set::<nat>::empty(),
    {
        Self::new()
    }
}

impl<T: Enum> EnumSet<T> {
    /// The backing word.
    pub closed spec fn word(&self) -> T::Rep {
        self.raw
    }

    /// The indices of the values in the set.
    pub open spec fn view(&self) -> Set<nat> {
        Set::new(|i: nat| i < T::spec_size() && self.word().spec_bit(i))
    }

    /// No bit at or beyond `SIZE` is set.
    pub open spec fn wf(&self) -> bool {
        forall|i: nat| #[trigger] self.word().spec_bit(i) ==> i < T::spec_size()
    }

    proof fn lemma_view(&self)
        ensures
            self@.finite(),
            self@.subset_of(below(T::spec_size())),
            self@.len() <= T::spec_size(),
            self.wf() ==> ones(self.word()) == self@,
    {
        lemma_below(T::spec_size());
        assert(self@.subset_of(below(T::spec_size())));
        vstd::set_lib::lemma_len_subset(self@, below(T::spec_size()));
        if self.wf() {
            assert(ones(self.word()) =~= self@);
        }
    }

    /// The empty set.
    pub fn new() -> (r: Self)
        ensures
            r.wf(),
            r@ == Set::<nat>::empty(),
    {
        let r = EnumSet { raw: T::Rep::zero() };
        assert(r@ =~= Set::<nat>::empty());
        r
    }

    /// Number of values the set can hold.
    pub fn capacity(&self) -> (r: usize)
        ensures
            r == T::spec_size(),
    {
        T::size()
    }

    /// Number of bits set in the word: the number of values in a
    /// well-formed set.
    pub fn len(&self) -> (r: usize)
        ensures
            r == ones(self.word()).len(),
            self.wf() ==> r == self@.len(),
    {
        proof {
            self.lemma_view();
        }
        T::Rep::count_ones(self.raw) as usize
    }

    /// Whether no bit of the word is set: whether a well-formed set is empty.
    pub fn is_empty(&self) -> (r: bool)
        ensures
            r == (forall|i: nat| !#[trigger] self.word().spec_bit(i)),
            self.wf() ==> (r == (self@ == Set::<nat>::empty())),
    {
        let r = self.raw.is_zero();
        proof {
            if self.wf() && !r {
                let i = choose|i: nat| #[trigger] self.word().spec_bit(i);
                assert(self@.contains(i));
            }
            if r {
                assert(self@ =~= Set::<nat>::empty());
            }
        }
        r
    }

    /// Removes every value that `f` rejects, asking `f` about present values
    /// only, in ascending order.
    pub fn retain<F: Fn(T) -> bool>(&mut self, f: F)
        requires
            forall|x: T| f.requires((x,)),
        ensures
            final(self)@.subset_of(old(self)@),
            forall|x: T| #[trigger] old(self)@.contains(x.spec_index()) ==> if final(self)@.contains(x.spec_index()) {
                f.ensures((x,), true)
            } else {
                f.ensures((x,), false)
            },
            old(self).wf() ==> final(self).wf(),
    {
        let n = T::size();
        let mut i: usize = 0;
        while i < n
            invariant
                n == T::spec_size(),
                enum_laws::<T>(),
                i <= n,
                forall|x: T| f.requires((x,)),
                self@.subset_of(old(self)@),
                forall|j: nat| j >= i ==> (self@.contains(j) == old(self)@.contains(j)),
                forall|j: nat| j >= T::spec_size() ==> (#[trigger] self.word().spec_bit(j) == old(self).word().spec_bit(j)),
                forall|x: T| #[trigger] old(self)@.contains(x.spec_index()) && x.spec_index() < i ==> if self@.contains(x.spec_index()) {
                    f.ensures((x,), true)
                } else {
                    f.ensures((x,), false)
                },
            decreases n - i,
        {
            match T::from_index(i) {
                Some(val) => {
                    if self.contains(val) {
                        let keep_it = f(val);
                        if !keep_it {
                            self.remove(val);
                        }
                    }
                },
                None => {},
            }
            i = i + 1;
        }
        proof {
            if old(self).wf() {
                assert forall|j: nat| #[trigger] self.word().spec_bit(j) implies j < T::spec_size() by {
                    if j >= T::spec_size() {
                        assert(old(self).word().spec_bit(j));
                    }
                }
            }
        }
    }

    /// Removes every value.
    pub fn clear(&mut self)
        ensures
            final(self).wf(),
            final(self)@ == Set::<nat>::empty(),
    {
        self.raw = T::Rep::zero();
        assert(self@ =~= Set::<nat>::empty());
    }

    /// The values not in the set.
    pub fn inverse(&self) -> (r: Self)
        ensures
            r.wf(),
            r@ == below(T::spec_size()).difference(self@),
    {
        let n = T::size();
        let r = EnumSet { raw: self.raw.not().and(T::Rep::mask(n as u32)) };
        assert(r@ =~= below(T::spec_size()).difference(self@));
        r
    }

    /// The values of `self` that are not in `other`.
    pub fn difference(&self, other: &Self) -> (r: Self)
        ensures
            r@ == self@.difference(other@),
            self.wf() ==> r.wf(),
    {
        let r = EnumSet { raw: self.raw.or(other.raw).xor(other.raw) };
        assert(r@ =~= self@.difference(other@));
        r
    }

    /// The values in exactly one of the two sets.
    pub fn symmetric_difference(&self, other: &Self) -> (r: Self)
        ensures
            r@ == self@.difference(other@).union(other@.difference(self@)),
            self.wf() && other.wf() ==> r.wf(),
    {
        let r = EnumSet { raw: self.raw.xor(other.raw) };
        assert(r@ =~= self@.difference(other@).union(other@.difference(self@)));
        r
    }

    /// The values in both sets.
    pub fn intersection(&self, other: &Self) -> (r: Self)
        ensures
            r@ == self@.intersect(other@),
            self.wf() || other.wf() ==> r.wf(),
    {
        let r = EnumSet { raw: self.raw.and(other.raw) };
        assert(r@ =~= self@.intersect(other@));
        r
    }

    /// The values in either set.
    pub fn union(&self, other: &Self) -> (r: Self)
        ensures
            r@ == self@.union(other@),
            self.wf() && other.wf() ==> r.wf(),
    {
        let r = EnumSet { raw: self.raw.or(other.raw) };
        assert(r@ =~= self@.union(other@));
        r
    }

    /// Whether `x` is in the set.
    pub fn contains(&self, x: T) -> (r: bool)
        ensures
            r == self@.contains(x.spec_index()),
    {
        // The contract of `size` carries the rules of `T`.
        let _ = T::size();
        let both = self.raw.and(x.bit());
        let r = !both.is_zero();
        proof {
            if self@.contains(x.spec_index()) {
                assert(both.spec_bit(x.spec_index()));
            }
        }
        r
    }

    /// Whether the words share no bit: for well-formed sets, whether they
    /// share no value.
    pub fn is_disjoint(&self, other: &Self) -> (r: bool)
        ensures
            r == (forall|i: nat| !(#[trigger] self.word().spec_bit(i) && other.word().spec_bit(i))),
            self.wf() || other.wf() ==> (r == self@.disjoint(other@)),
    {
        let both = self.raw.and(other.raw);
        let r = both.is_zero();
        proof {
            if !r {
                let i = choose|i: nat| #[trigger] both.spec_bit(i);
                assert(self.word().spec_bit(i) && other.word().spec_bit(i));
                if self.wf() || other.wf() {
                    assert(self@.contains(i) && other@.contains(i));
                }
            } else {
                assert forall|i: nat| !(#[trigger] self.word().spec_bit(i) && other.word().spec_bit(i)) by {
                    assert(!both.spec_bit(i));
                }
            }
        }
        r
    }

    /// Whether every bit of `self` is set in `other`: for a well-formed
    /// `self`, whether every value of `self` is in `other`.
    pub fn is_subset(&self, other: &Self) -> (r: bool)
        ensures
            r == (forall|i: nat| #[trigger] self.word().spec_bit(i) ==> other.word().spec_bit(i)),
            self.wf() ==> (r == self@.subset_of(other@)),
    {
        let rest = self.raw.and(other.raw.not());
        let r = rest.is_zero();
        proof {
            T::Rep::lemma_width();
            assert(forall|i: nat| #[trigger] rest.spec_bit(i) == (self.word().spec_bit(i) && !other.word().spec_bit(i)));
            if !r {
                let i = choose|i: nat| #[trigger] rest.spec_bit(i);
                assert(self.word().spec_bit(i) && !other.word().spec_bit(i));
                if self.wf() {
                    assert(self@.contains(i) && !other@.contains(i));
                }
            } else {
                assert forall|i: nat| #[trigger] self.word().spec_bit(i) implies other.word().spec_bit(i) by {
                    assert(!rest.spec_bit(i));
                }
            }
        }
        r
    }

    /// Whether every bit of `other` is set in `self`: for a well-formed
    /// `other`, whether every value of `other` is in `self`.
    pub fn is_superset(&self, other: &Self) -> (r: bool)
        ensures
            r == (forall|i: nat| #[trigger] other.word().spec_bit(i) ==> self.word().spec_bit(i)),
            other.wf() ==> (r == other@.subset_of(self@)),
    {
        other.is_subset(self)
    }

    /// Adds `x`.
    pub fn insert(&mut self, x: T)
        ensures
            final(self)@ == old(self)@.insert(x.spec_index()),
            forall|j: nat| j >= T::spec_size() ==> (#[trigger] final(self).word().spec_bit(j) == old(self).word().spec_bit(j)),
            old(self).wf() ==> final(self).wf(),
    {
        // The contract of `size` carries the rules of `T`.
        let _ = T::size();
        self.raw = self.raw.or(x.bit());
        assert(self@ =~= old(self)@.insert(x.spec_index()));
    }

    /// Removes `x`.
    pub fn remove(&mut self, x: T)
        ensures
            final(self)@ == old(self)@.remove(x.spec_index()),
            forall|j: nat| j >= T::spec_size() ==> (#[trigger] final(self).word().spec_bit(j) == old(self).word().spec_bit(j)),
            old(self).wf() ==> final(self).wf(),
    {
        // The contract of `size` carries the rules of `T`.
        let _ = T::size();
        proof {
            T::Rep::lemma_width();
        }
        self.raw = self.raw.and(x.bit().not());
        assert(self@ =~= old(self)@.remove(x.spec_index()));
    }

    /// The set whose word is `raw`, as it stands: the caller answers for
    /// bits at or beyond `SIZE`.
    pub fn from_raw(raw: T::Rep) -> (r: Self)
        ensures
            r.word() == raw,
    {
        EnumSet { raw }
    }

    /// The backing word.
    pub fn to_raw(&self) -> (r: T::Rep)
        ensures
            r == self.word(),
    {
        self.raw
    }

    /// The set of the values in `values`.
    pub fn from_slice(values: &[T]) -> (r: Self)
        ensures
            r.wf(),
            r@ == indices(values@).to_set(),
    {
        let mut r = Self::new();
        r.extend(values);
        assert(r@ =~= indices(values@).to_set());
        r
    }

    /// Adds every value in `values`.
    pub fn extend(&mut self, values: &[T])
        ensures
            final(self)@ == old(self)@.union(indices(values@).to_set()),
            old(self).wf() ==> final(self).wf(),
    {
        let mut i: usize = 0;
        while i < values.len()
            invariant
                i <= values.len(),
                old(self).wf() ==> self.wf(),
                self@ == old(self)@.union(indices(values@.take(i as int)).to_set()),
            decreases values.len() - i,
        {
            self.insert(values[i]);
            proof {
                assert(indices(values@.take(i + 1)) =~= indices(values@.take(i as int)).push(values@[i as int].spec_index()));
                indices(values@.take(i as int)).lemma_push_to_set_commute(values@[i as int].spec_index());
                assert(self@ =~= old(self)@.union(indices(values@.take(i + 1)).to_set()));
            }
            i = i + 1;
        }
        assert(values@.take(values.len() as int) =~= values@);
    }

    /// The set whose word is `raw`; `type_holder` only names the element
    /// type.
    pub fn construct_set(raw: T::Rep, type_holder: T) -> (r: Self)
        ensures
            r.word() == raw,
    {
        EnumSet { raw }
    }

    /// The values of the set, in ascending order.
    pub fn iter(&self) -> (r: Iter<T>)
        ensures
            r.wf(),
            r@ == keep(all_indices::<T>(), self@),
    {
        let n = T::size();
        let set = EnumSet { raw: self.raw.and(T::Rep::mask(n as u32)) };
        assert(set@ =~= self@);
        let iter = enumerate(Bound::Unbounded, Bound::Unbounded);
        proof {
            set.lemma_view();
            lemma_all_indices::<T>();
            lemma_keep_subset(iter@, set@);
            assert(set@.intersect(iter@.to_set()) =~= set@);
        }
        let remaining = set.len();
        Iter { set, iter, remaining }
    }

    /// The values of the set, in ascending order.
    pub fn to_vec(&self) -> (r: Vec<T>)
        ensures
            indices(r@) == keep(all_indices::<T>(), self@),
    {
        let mut it = self.iter();
        let mut out: Vec<T> = Vec::new();
        loop
            invariant
                it.wf(),
                indices(out@) + it@ == keep(all_indices::<T>(), self@),
            decreases it@.len(),
        {
            match it.next() {
                Some(x) => {
                    proof {
                        assert(indices(out@.push(x)) =~= indices(out@).push(x.spec_index()));
                    }
                    out.push(x);
                    proof {
                        assert(indices(out@) + it@ =~= keep(all_indices::<T>(), self@));
                    }
                },
                None => {
                    assert(indices(out@) =~= indices(out@) + it@);
                    return out;
                },
            }
        }
    }
}

/// Every index of `T` occurs once in `all_indices`.
pub proof fn lemma_all_indices<T: Enum>()
    requires
        enum_laws::<T>(),
    ensures
        all_indices::<T>().no_duplicates(),
        all_indices::<T>().to_set() == below(T::spec_size()),
        all_indices::<T>().len() == T::spec_size(),
{
    let s = all_indices::<T>();
    assert forall|i: nat| s.to_set().contains(i) == below(T::spec_size()).contains(i) by {
        if i < T::spec_size() {
            assert(s[i as int] == i);
        }
    }
    assert(s.to_set() =~= below(T::spec_size()));
}

/// For `s` without repeats, `keep(s, m)` lists each member of `m` that
/// occurs in `s` exactly once.
pub proof fn lemma_keep_subset(s: Seq<nat>, m: Set<nat>)
    requires
        m.finite(),
        s.no_duplicates(),
    ensures
        keep(s, m).no_duplicates(),
        keep(s, m).to_set() == m.intersect(s.to_set()),
        keep(s, m).len() == m.intersect(s.to_set()).len(),
    decreases s.len(),
{
    assert forall|i: nat| keep(s, m).to_set().contains(i) == m.intersect(s.to_set()).contains(i) by {
        lemma_keep_contains(s, m, i);
    }
    assert(keep(s, m).to_set() =~= m.intersect(s.to_set()));
    if s.len() > 0 {
        let t = s.drop_first();
        lemma_keep_subset(t, m);
        if m.contains(s[0]) {
            lemma_keep_contains(t, m, s[0]);
            assert(!t.contains(s[0])) by {
                if t.contains(s[0]) {
                    let k = choose|k: int| 0 <= k < t.len() && t[k] == s[0];
                    assert(s[k + 1] == s[0]);
                }
            }
            assert(keep(s, m) =~= seq![s[0]] + keep(t, m));
        }
    }
    keep(s, m).unique_seq_to_set();
}

/// Encoding a set as its values in ascending order and decoding by inserting
/// each of them into an empty set gives back the same set.
pub proof fn lemma_set_round_trip<T: Enum>(s: EnumSet<T>, encoded: Seq<nat>, decoded: EnumSet<T>)
    requires
        enum_laws::<T>(),
        s.wf(),
        encoded == keep(all_indices::<T>(), s@),
        decoded@ == encoded.to_set(),
    ensures
        decoded@ == s@,
{
    s.lemma_view();
    lemma_all_indices::<T>();
    lemma_keep_subset(all_indices::<T>(), s@);
    assert(s@.intersect(all_indices::<T>().to_set()) =~= s@);
}

/// The complement holds exactly the values of the type that the set lacks.
pub proof fn lemma_inverse<T: Enum>(s: EnumSet<T>, inv: EnumSet<T>, x: T)
    requires
        enum_laws::<T>(),
        inv@ == below(T::spec_size()).difference(s@),
    ensures
        inv@.contains(x.spec_index()) <==> !s@.contains(x.spec_index()),
{
}

/// The values of a set in ascending order, consumed from either end.
#[derive(Clone, Copy, Debug)]
pub struct Iter<T: Enum> {
    set: EnumSet<T>,
    iter: Enumeration<T>,
    remaining: usize,
}

impl<T: Enum> Iter<T> {
    /// The remaining count matches what is left to produce.
    pub closed spec fn wf(&self) -> bool {
        &&& self.set.wf()
        &&& self.iter.wf()
        &&& self.remaining == keep(self.iter@, self.set@).len()
    }

    /// The indices still to be produced, in ascending order.
    pub closed spec fn view(&self) -> Seq<nat> {
        keep(self.iter@, self.set@)
    }

    /// Produces the smallest remaining value.
    pub fn next(&mut self) -> (r: Option<T>)
        requires
            old(self).wf(),
        ensures
            final(self).wf(),
            old(self)@.len() == 0 ==> r is None && final(self)@ == old(self)@,
            old(self)@.len() > 0 ==> (r matches Some(x) && x.spec_index() == old(self)@[0]
                && final(self)@ == old(self)@.drop_first()),
    {
        loop
            invariant
                self.wf(),
                self.set == old(self).set,
                self.remaining == old(self).remaining,
                self@ == old(self)@,
            decreases self.iter@.len(),
        {
            let ghost before = self.iter@;
            match self.iter.next() {
                Some(x) => {
                    if self.set.contains(x) {
                        assert(keep(before, self.set@) =~= seq![x.spec_index()] + self@);
                        self.remaining = self.remaining - 1;
                        return Some(x);
                    }
                },
                None => {
                    return None;
                },
            }
        }
    }

    /// Produces the largest remaining value.
    pub fn next_back(&mut self) -> (r: Option<T>)
        requires
            old(self).wf(),
        ensures
            final(self).wf(),
            old(self)@.len() == 0 ==> r is None && final(self)@ == old(self)@,
            old(self)@.len() > 0 ==> (r matches Some(x) && x.spec_index() == old(self)@.last()
                && final(self)@ == old(self)@.drop_last()),
    {
        loop
            invariant
                self.wf(),
                self.set == old(self).set,
                self.remaining == old(self).remaining,
                self@ == old(self)@,
            decreases self.iter@.len(),
        {
            let ghost before = self.iter@;
            match self.iter.next_back() {
                Some(x) => {
                    proof {
                        lemma_keep_last(before, self.set@);
                    }
                    if self.set.contains(x) {
                        self.remaining = self.remaining - 1;
                        assert(self@ =~= old(self)@.drop_last());
                        return Some(x);
                    }
                },
                None => {
                    return None;
                },
            }
        }
    }

    /// Runs `f` over the remaining values from the smallest up, threading
    /// the accumulator through.
    pub fn fold<B, F: Fn(B, T) -> B>(self, init: B, f: F) -> (r: B)
        requires
            self.wf(),
            forall|b: B, x: T| f.requires((b, x)),
        ensures
            exists|accs: Seq<B>| folds(f, self@, init, accs) && r == accs.last(),
    {
        // The contract of `size` carries the rules of `T`.
        let _ = T::size();
        let mut it = self;
        let mut acc = init;
        let ghost mut accs: Seq<B> = seq![init];
        loop
            invariant
                it.wf(),
                enum_laws::<T>(),
                forall|b: B, x: T| f.requires((b, x)),
                accs.len() >= 1,
                accs.len() + it@.len() == self@.len() + 1,
                it@ == self@.subrange(accs.len() - 1, self@.len() as int),
                accs[0] == init,
                accs.last() == acc,
                forall|k: int, x: T|
                    0 <= k < accs.len() - 1 && x.spec_index() == self@[k] ==> #[trigger] f.ensures((accs[k], x), accs[k + 1]),
            decreases it@.len(),
        {
            let ghost before = it@;
            match it.next() {
                Some(x) => {
                    let ghost prev = accs;
                    let next = f(acc, x);
                    proof {
                        accs = prev.push(next);
                        assert(before[0] == self@[prev.len() - 1]);
                        assert forall|k: int, y: T|
                            0 <= k < accs.len() - 1 && y.spec_index() == self@[k] implies #[trigger] f.ensures((accs[k], y), accs[k + 1]) by {
                            if k == accs.len() - 2 {
                                assert(y == x);
                            } else {
                                assert(accs[k] == prev[k] && accs[k + 1] == prev[k + 1]);
                            }
                        }
                        assert(it@ =~= self@.subrange(accs.len() - 1, self@.len() as int));
                    }
                    acc = next;
                },
                None => {
                    assert(folds(f, self@, init, accs) && acc == accs.last());
                    return acc;
                },
            }
        }
    }

    /// Runs `f` over the remaining values from the largest down, threading
    /// the accumulator through.
    pub fn rfold<B, F: Fn(B, T) -> B>(self, init: B, f: F) -> (r: B)
        requires
            self.wf(),
            forall|b: B, x: T| f.requires((b, x)),
        ensures
            exists|accs: Seq<B>| folds(f, self@.reverse(), init, accs) && r == accs.last(),
    {
        // The contract of `size` carries the rules of `T`.
        let _ = T::size();
        let mut it = self;
        let mut acc = init;
        let ghost mut accs: Seq<B> = seq![init];
        loop
            invariant
                it.wf(),
                enum_laws::<T>(),
                forall|b: B, x: T| f.requires((b, x)),
                accs.len() >= 1,
                accs.len() + it@.len() == self@.len() + 1,
                it@ == self@.subrange(0, it@.len() as int),
                accs[0] == init,
                accs.last() == acc,
                forall|k: int, x: T|
                    0 <= k < accs.len() - 1 && x.spec_index() == self@.reverse()[k] ==> #[trigger] f.ensures((accs[k], x), accs[k + 1]),
            decreases it@.len(),
        {
            let ghost before = it@;
            match it.next_back() {
                Some(x) => {
                    let ghost prev = accs;
                    let next = f(acc, x);
                    proof {
                        accs = prev.push(next);
                        assert(before.last() == self@.reverse()[prev.len() - 1]);
                        assert forall|k: int, y: T|
                            0 <= k < accs.len() - 1 && y.spec_index() == self@.reverse()[k] implies #[trigger] f.ensures((accs[k], y), accs[k + 1]) by {
                            if k == accs.len() - 2 {
                                assert(y == x);
                            } else {
                                assert(accs[k] == prev[k] && accs[k + 1] == prev[k + 1]);
                            }
                        }
                        assert(it@ =~= self@.subrange(0, it@.len() as int));
                    }
                    acc = next;
                },
                None => {
                    assert(folds(f, self@.reverse(), init, accs) && acc == accs.last());
                    return acc;
                },
            }
        }
    }

    /// Number of values still to be produced.
    pub fn len(&self) -> (r: usize)
        requires
            self.wf(),
        ensures
            r == self@.len(),
    {
        self.remaining
    }
}

} // verus!
