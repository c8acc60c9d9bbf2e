use vstd::prelude::*;

use crate::enum_trait::{enum_laws, range_of, Bound, Enum};

verus! {

/// The index at which a range that starts at `b` begins.
pub open spec fn start_index<T: Enum>(b: Bound<T>) -> int {
    match b {
        Bound::Unbounded => 0,
        Bound::Included(t) => t.spec_index() as int,
        Bound::Excluded(t) => t.spec_index() as int + 1,
    }
}

/// The index at which a range that ends at `b` stops, inclusive.
pub open spec fn end_index<T: Enum>(b: Bound<T>) -> int {
    match b {
        Bound::Unbounded => T::spec_size() as int - 1,
        Bound::Included(t) => t.spec_index() as int,
        Bound::Excluded(t) => t.spec_index() as int - 1,
    }
}

/// The values between the two bounds, in ascending order.
///
/// A bound that excludes the smallest value from below or the largest from
/// above, or a start after the end, gives the canonical empty range.
pub fn enumerate<T: Enum>(start: Bound<T>, end: Bound<T>) -> (r: Enumeration<T>)
    ensures
        r.wf(),
        r@ == range_of(start_index(start), end_index(end)),
{
    // The contract of `size` carries the rules of `T`.
    let _ = T::size();
    let s = match start {
        Bound::Unbounded => T::min_value(),
        Bound::Included(t) => t,
        Bound::Excluded(t) => match t.succ() {
            Some(s) => s,
            None => {
                return Enumeration::empty();
            },
        },
    };
    let e = match end {
        Bound::Unbounded => T::max_value(),
        Bound::Included(t) => t,
        Bound::Excluded(t) => match t.pred() {
            Some(p) => p,
            None => {
                return Enumeration::empty();
            },
        },
    };
    if s.index() > e.index() {
        return Enumeration::empty();
    }
    Enumeration::between(s, e)
}

/// What repeated forward steps produce from a range whose remaining
/// indices are `s`: each step yields the first and drops it.
pub open spec fn forward_steps(s: Seq<nat>) -> Seq<nat>
    decreases s.len(),
{
    if s.len() == 0 {
        Seq::empty()
    } else {
        seq![s[0]] + forward_steps(s.drop_first())
    }
}

/// What repeated backward steps produce from a range whose remaining
/// indices are `s`: each step yields the last and drops it.
pub open spec fn backward_steps(s: Seq<nat>) -> Seq<nat>
    decreases s.len(),
{
    if s.len() == 0 {
        Seq::empty()
    } else {
        seq![s.last()] + backward_steps(s.drop_last())
    }
}

/// Stepping forward to the end yields the remaining indices in order, as
/// many as the length reports; stepping backward to the start yields the
/// same indices in reverse.
pub proof fn lemma_traversals(s: Seq<nat>)
    ensures
        forward_steps(s) == s,
        forward_steps(s).len() == s.len(),
        backward_steps(s).reverse() == forward_steps(s),
    decreases s.len(),
{
    if s.len() > 0 {
        lemma_traversals(s.drop_first());
        lemma_traversals(s.drop_last());
        assert(forward_steps(s) =~= s);
        assert(backward_steps(s).reverse() =~= backward_steps(s.drop_last()).reverse().push(s.last()));
        assert(s =~= s.drop_last().push(s.last()));
    }
}

/// The range over the whole type holds every index once, in ascending
/// order.
pub proof fn lemma_full_range<T: Enum>()
    requires
        enum_laws::<T>(),
    ensures
        range_of(start_index::<T>(Bound::Unbounded), end_index::<T>(Bound::Unbounded))
            == Seq::new(T::spec_size(), |i: int| i as nat),
{
    assert(range_of(start_index::<T>(Bound::Unbounded), end_index::<T>(Bound::Unbounded))
        =~= Seq::new(T::spec_size(), |i: int| i as nat));
}

/// `accs` is a run of `f` over the values at `idxs`, in that order: it
/// starts at `init`, and each accumulator is a result `f` may give on the
/// one before and the value at the next index.
pub open spec fn folds<T: Enum, B, F: Fn(B, T) -> B>(f: F, idxs: Seq<nat>, init: B, accs: Seq<B>) -> bool {
    &&& accs.len() == idxs.len() + 1
    &&& accs[0] == init
    &&& forall|k: int, x: T|
        0 <= k < idxs.len() && x.spec_index() == idxs[k] ==> #[trigger] f.ensures((accs[k], x), accs[k + 1])
}

/// Folding with a step that adds one, from zero, tallies the indices
/// visited: the fold of a range counts exactly what `count` reports.
pub proof fn lemma_fold_counts<T: Enum, F: Fn(usize, T) -> usize>(f: F, idxs: Seq<nat>, accs: Seq<usize>)
    requires
        enum_laws::<T>(),
        forall|k: int| 0 <= k < idxs.len() ==> idxs[k] < T::spec_size(),
        folds(f, idxs, 0, accs),
        forall|b: usize, x: T, r: usize| f.ensures((b, x), r) ==> r == b + 1,
    ensures
        accs.last() == idxs.len(),
{
    lemma_fold_prefix_counts(f, idxs, accs, idxs.len() as int);
}

proof fn lemma_fold_prefix_counts<T: Enum, F: Fn(usize, T) -> usize>(
    f: F,
    idxs: Seq<nat>,
    accs: Seq<usize>,
    k: int,
)
    requires
        enum_laws::<T>(),
        forall|j: int| 0 <= j < idxs.len() ==> idxs[j] < T::spec_size(),
        folds(f, idxs, 0, accs),
        forall|b: usize, x: T, r: usize| f.ensures((b, x), r) ==> r == b + 1,
        0 <= k <= idxs.len(),
    ensures
        accs[k] == k,
    decreases k,
{
    if k > 0 {
        lemma_fold_prefix_counts(f, idxs, accs, k - 1);
        let j = k - 1;
        let x = T::spec_from_index(idxs[j]);
        assert(x.spec_index() == idxs[j]);
        assert(f.ensures((accs[j], x), accs[j + 1]));
    }
}

/// A double-ended range over the values of an enumerable type, from `start`
/// to `end` inclusive, until `finished`.
#[derive(Clone, Copy, Debug, PartialEq, Eq)]
pub struct Enumeration<T> {
    finished: bool,
    start: T,
    end: T,
}

impl<T: Enum> Enumeration<T> {
    /// The range is consistent: unless finished, `start` is not after `end`.
    pub closed spec fn wf(&self) -> bool {
        &&& enum_laws::<T>()
        &&& !self.finished ==> self.start.spec_index() <= self.end.spec_index()
    }

    /// The indices still to be produced, in ascending order.
    pub closed spec fn view(&self) -> Seq<nat> {
        if self.finished {
            Seq::empty()
        } else {
            range_of(self.start.spec_index() as int, self.end.spec_index() as int)
        }
    }

    /// The canonical empty range.
    pub(crate) fn empty() -> (r: Self)
        ensures
            r.wf(),
            r@ == Seq::<nat>::empty(),
    {
        // The contract of `size` carries the rules of `T`.
        let _ = T::size();
        let m = T::min_value();
        Enumeration { finished: true, start: m, end: m }
    }

    /// The range from `start` to `end` inclusive.
    pub(crate) fn between(start: T, end: T) -> (r: Self)
        requires
            start.spec_index() <= end.spec_index(),
        ensures
            r.wf(),
            r@ == range_of(start.spec_index() as int, end.spec_index() as int),
    {
        // The contract of `size` carries the rules of `T`.
        let _ = T::size();
        Enumeration { finished: false, start, end }
    }

    proof fn lemma_view(&self)
        requires
            self.wf(),
        ensures
            self@.len() == if self.finished {
                0
            } else {
                self.end.spec_index() - self.start.spec_index() + 1
            },
            forall|k: int| 0 <= k < self@.len() ==> #[trigger] self@[k] == self.start.spec_index() + k,
            self@.len() > 0 ==> self@.last() == self.end.spec_index(),
    {
    }

    /// Produces the smallest remaining value.
    pub fn next(&mut self) -> (r: Option<T>)
        requires
            old(self).wf(),
        ensures
            final(self).wf(),
            old(self)@.len() == 0 ==> r is None && final(self)@ == old(self)@,
            old(self)@.len() > 0 ==> (r matches Some(x) && x.spec_index() == old(self)@[0]
                && final(self)@ == old(self)@.drop_first()),
    {
        proof {
            self.lemma_view();
        }
        if self.finished {
            None
        } else if self.start.index() == self.end.index() {
            self.finished = true;
            proof {
                assert(final(self)@ =~= old(self)@.drop_first());
            }
            Some(self.start)
        } else {
            let at = self.start;
            match at.succ() {
                Some(s) => {
                    self.start = s;
                },
                None => {},
            }
            proof {
                self.lemma_view();
                assert(self@ =~= old(self)@.drop_first());
            }
            Some(at)
        }
    }

    /// Produces the largest remaining value.
    pub fn next_back(&mut self) -> (r: Option<T>)
        requires
            old(self).wf(),
        ensures
            final(self).wf(),
            old(self)@.len() == 0 ==> r is None && final(self)@ == old(self)@,
            old(self)@.len() > 0 ==> (r matches Some(x) && x.spec_index() == old(self)@.last()
                && final(self)@ == old(self)@.drop_last()),
    {
        proof {
            self.lemma_view();
        }
        if self.finished {
            None
        } else if self.start.index() == self.end.index() {
            self.finished = true;
            proof {
                assert(final(self)@ =~= old(self)@.drop_last());
            }
            Some(self.end)
        } else {
            let at = self.end;
            match at.pred() {
                Some(p) => {
                    self.end = p;
                },
                None => {},
            }
            proof {
                self.lemma_view();
                assert(self@ =~= old(self)@.drop_last());
            }
            Some(at)
        }
    }

    /// Number of values still to be produced, computed without stepping.
    pub fn count(self) -> (r: usize)
        requires
            self.wf(),
        ensures
            r == self@.len(),
    {
        self.len()
    }

    /// Number of values still to be produced, computed without stepping.
    pub fn len(&self) -> (r: usize)
        requires
            self.wf(),
        ensures
            r == self@.len(),
    {
        proof {
            self.lemma_view();
        }
        if self.finished {
            0
        } else {
            self.end.index() + 1 - self.start.index()
        }
    }

    /// Runs `f` over the remaining values from the smallest up, threading
    /// the accumulator through.
    pub fn fold<B, F: Fn(B, T) -> B>(self, init: B, f: F) -> (r: B)
        requires
            self.wf(),
            forall|b: B, x: T| f.requires((b, x)),
        ensures
            exists|accs: Seq<B>| folds(f, self@, init, accs) && r == accs.last(),
    {
        proof {
            self.lemma_view();
        }
        if self.finished {
            assert(folds(f, self@, init, seq![init]) && init == seq![init].last());
            return init;
        }
        let mut accum = init;
        let mut val = self.start;
        let ghost mut accs: Seq<B> = seq![init];
        loop
            invariant
                self.wf(),
                !self.finished,
                forall|b: B, x: T| f.requires((b, x)),
                self.start.spec_index() <= val.spec_index() <= self.end.spec_index(),
                accs.len() == val.spec_index() - self.start.spec_index() + 1,
                accs[0] == init,
                accs.last() == accum,
                forall|k: int, x: T|
                    0 <= k < accs.len() - 1 && x.spec_index() == self@[k] ==> #[trigger] f.ensures((accs[k], x), accs[k + 1]),
            decreases self.end.spec_index() - val.spec_index(),
        {
            proof {
                self.lemma_view();
            }
            let ghost prev = accs;
            let next = f(accum, val);
            proof {
                accs = prev.push(next);
                assert forall|k: int, x: T|
                    0 <= k < accs.len() - 1 && x.spec_index() == self@[k] implies #[trigger] f.ensures((accs[k], x), accs[k + 1]) by {
                    if k == accs.len() - 2 {
                        assert(x == val);
                    } else {
                        assert(accs[k] == prev[k] && accs[k + 1] == prev[k + 1]);
                    }
                }
            }
            if val.index() == self.end.index() {
                assert(folds(f, self@, init, accs) && next == accs.last());
                return next;
            }
            match val.succ() {
                Some(v) => {
                    val = v;
                },
                None => {
                    return next;
                },
            }
            accum = next;
        }
    }

    /// Runs `f` over the remaining values from the largest down, threading
    /// the accumulator through.
    pub fn rfold<B, F: Fn(B, T) -> B>(self, init: B, f: F) -> (r: B)
        requires
            self.wf(),
            forall|b: B, x: T| f.requires((b, x)),
        ensures
            exists|accs: Seq<B>| folds(f, self@.reverse(), init, accs) && r == accs.last(),
    {
        proof {
            self.lemma_view();
        }
        if self.finished {
            assert(folds(f, self@.reverse(), init, seq![init]) && init == seq![init].last());
            return init;
        }
        let mut accum = init;
        let mut val = self.end;
        let ghost mut accs: Seq<B> = seq![init];
        loop
            invariant
                self.wf(),
                !self.finished,
                forall|b: B, x: T| f.requires((b, x)),
                self.start.spec_index() <= val.spec_index() <= self.end.spec_index(),
                accs.len() == self.end.spec_index() - val.spec_index() + 1,
                accs[0] == init,
                accs.last() == accum,
                forall|k: int, x: T|
                    0 <= k < accs.len() - 1 && x.spec_index() == self@.reverse()[k] ==> #[trigger] f.ensures((accs[k], x), accs[k + 1]),
            decreases val.spec_index() - self.start.spec_index(),
        {
            proof {
                self.lemma_view();
            }
            let ghost prev = accs;
            let next = f(accum, val);
            proof {
                accs = prev.push(next);
                assert forall|k: int, x: T|
                    0 <= k < accs.len() - 1 && x.spec_index() == self@.reverse()[k] implies #[trigger] f.ensures((accs[k], x), accs[k + 1]) by {
                    if k == accs.len() - 2 {
                        assert(x == val);
                    } else {
                        assert(accs[k] == prev[k] && accs[k + 1] == prev[k + 1]);
                    }
                }
            }
            if val.index() == self.start.index() {
                assert(folds(f, self@.reverse(), init, accs) && next == accs.last());
                return next;
            }
            match val.pred() {
                Some(v) => {
                    val = v;
                },
                None => {
                    return next;
                },
            }
            accum = next;
        }
    }

    /// Exact bounds on the number of values still to be produced.
    pub fn size_hint(&self) -> (r: (usize, Option<usize>))
        requires
            self.wf(),
        ensures
            r.0 == self@.len(),
            r.1 == Some(r.0),
    {
        let exact = self.len();
        (exact, Some(exact))
    }
}

} // verus!
