use core::cmp::Ordering;
use vstd::prelude::*;

use crate::wordlike::Wordlike;

verus! {

/// One end of a range of values.
#[derive(Clone, Copy, Debug, PartialEq, Eq)]
pub enum Bound<T> {
    Included(T),
    Excluded(T),
    Unbounded,
}

/// A finite, totally ordered type whose values correspond one to one with
/// the indices `0 .. SIZE`.
pub trait Enum: Copy + Sized + core::fmt::Debug + Eq {
    /// Word type holding one bit per value.
    type Rep: Wordlike;

    /// Total number of values in the type.
    ///
    /// Verified implementations define this and the two functions below;
    /// the defaults leave them unspecified.
    open spec fn spec_size() -> nat {
        arbitrary()
    }

    /// Position of the value in a complete enumeration of the type.
    open spec fn spec_index(self) -> nat {
        arbitrary()
    }

    /// The value at position `i`, for `i` below `SIZE`.
    open spec fn spec_from_index(i: nat) -> Self {
        arbitrary()
    }

    /// Total number of values in the type.
    ///
    /// Its contract carries the rules of every enumerable type: the index is
    /// a bijection onto `0 .. SIZE`, and `Rep` has room for one bit per
    /// value.
    fn size() -> (r: usize)
        ensures
            r == Self::spec_size(),
            0 < Self::spec_size() <= Self::Rep::width(),
            Self::spec_size() <= 128,
            forall|x: Self| #[trigger] x.spec_index() < Self::spec_size(),
            forall|x: Self, y: Self|
                #[trigger] x.spec_index() == #[trigger] y.spec_index() ==> x == y,
            forall|i: nat| i < Self::spec_size() ==> (#[trigger] Self::spec_from_index(i)).spec_index() == i,
    ;

    /// Smallest value of the type.
    fn min_value() -> (r: Self)
        ensures
            r.spec_index() == 0,
    ;

    /// Largest value of the type.
    fn max_value() -> (r: Self)
        ensures
            r.spec_index() + 1 == Self::spec_size(),
    ;

    /// The next value, or `None` at the largest one.
    fn succ(self) -> (r: Option<Self>)
        ensures
            match r {
                Some(s) => s.spec_index() == self.spec_index() + 1,
                None => self.spec_index() + 1 == Self::spec_size(),
            },
    ;

    /// The previous value, or `None` at the smallest one.
    fn pred(self) -> (r: Option<Self>)
        ensures
            match r {
                Some(p) => p.spec_index() + 1 == self.spec_index(),
                None => self.spec_index() == 0,
            },
    ;

    /// Position of the value in a complete enumeration of the type.
    fn index(self) -> (r: usize)
        ensures
            r == self.spec_index(),
    ;

    /// The word with the value's own bit alone set.
    fn bit(self) -> (r: Self::Rep)
        ensures
            forall|j: nat| #[trigger] r.spec_bit(j) == (j == self.spec_index()),
    {
        // The contract of `size` carries the rules of `Self`.
        let _ = Self::size();
        Self::Rep::single(self.index() as u32)
    }

    /// Inverse of `index`: `None` outside `0 .. SIZE`.
    fn from_index(i: usize) -> (r: Option<Self>)
        ensures
            match r {
                Some(x) => x.spec_index() == i,
                None => i >= Self::spec_size(),
            },
    ;
}

/// The indices from `lo` to `hi` inclusive; empty when `hi < lo`.
pub open spec fn range_of(lo: int, hi: int) -> Seq<nat> {
    if hi < lo {
        Seq::empty()
    } else {
        Seq::new((hi - lo + 1) as nat, |k: int| (lo + k) as nat)
    }
}

/// The rules that `Enum::size` promises of every enumerable type.
pub open spec fn enum_laws<T: Enum>() -> bool {
    &&& 0 < T::spec_size() <= T::Rep::width()
    &&& T::spec_size() <= 128
    &&& forall|x: T| #[trigger] x.spec_index() < T::spec_size()
    &&& forall|x: T, y: T| #[trigger] x.spec_index() == #[trigger] y.spec_index() ==> x == y
    &&& forall|i: nat| i < T::spec_size() ==> (#[trigger] T::spec_from_index(i)).spec_index() == i
}

/// The smallest value of `T`, the one at index 0.
pub open spec fn spec_min<T: Enum>() -> T {
    T::spec_from_index(0)
}

/// The largest value of `T`, the one at index `SIZE - 1`.
pub open spec fn spec_max<T: Enum>() -> T {
    T::spec_from_index((T::spec_size() - 1) as nat)
}

/// A value is the largest exactly when its successor is absent (`succ`
/// answers `None` exactly at index `SIZE - 1`), and the smallest exactly
/// when its predecessor is absent (`pred` answers `None` exactly at 0).
pub proof fn lemma_boundaries<T: Enum>(x: T)
    requires
        enum_laws::<T>(),
    ensures
        spec_min::<T>().spec_index() == 0,
        spec_max::<T>().spec_index() + 1 == T::spec_size(),
        (x == spec_max::<T>()) <==> x.spec_index() + 1 == T::spec_size(),
        (x == spec_min::<T>()) <==> x.spec_index() == 0,
{
}

/// No value's successor is the smallest value, and no value's predecessor
/// is the largest value.
pub proof fn lemma_no_wrap<T: Enum>(x: T)
    requires
        enum_laws::<T>(),
    ensures
        forall|s: T| #[trigger] s.spec_index() == x.spec_index() + 1 ==> s != spec_min::<T>(),
        forall|p: T| #[trigger] p.spec_index() + 1 == x.spec_index() ==> p != spec_max::<T>(),
{
    lemma_boundaries(x);
}

impl Enum for bool {
    type Rep = u8;

    open spec fn spec_size() -> nat {
        2
    }

    open spec fn spec_index(self) -> nat {
        if self {
            1
        } else {
            0
        }
    }

    open spec fn spec_from_index(i: nat) -> Self {
        i != 0
    }

    fn size() -> (r: usize) {
        proof {
            assert(Self::spec_size() == 2);
            assert(<u8 as Wordlike>::width() == 8);
            assert forall|i: nat| i < Self::spec_size() implies (#[trigger] Self::spec_from_index(i)).spec_index() == i by {
                assert(Self::spec_from_index(i) == (i != 0));
            }
        }
        2
    }

    fn min_value() -> (r: Self) {
        false
    }

    fn max_value() -> (r: Self) {
        true
    }

    fn succ(self) -> (r: Option<Self>) {
        if self {
            None
        } else {
            Some(true)
        }
    }

    fn pred(self) -> (r: Option<Self>) {
        if self {
            Some(false)
        } else {
            None
        }
    }

    fn index(self) -> (r: usize) {
        if self {
            1
        } else {
            0
        }
    }

    fn from_index(i: usize) -> (r: Option<Self>) {
        match i {
            0 => Some(false),
            1 => Some(true),
            _ => None,
        }
    }
}

impl Enum for Ordering {
    type Rep = u8;

    open spec fn spec_size() -> nat {
        3
    }

    open spec fn spec_index(self) -> nat {
        match self {
            Ordering::Less => 0,
            Ordering::Equal => 1,
            Ordering::Greater => 2,
        }
    }

    open spec fn spec_from_index(i: nat) -> Self {
        if i == 0 {
            Ordering::Less
        } else if i == 1 {
            Ordering::Equal
        } else {
            Ordering::Greater
        }
    }

    fn size() -> (r: usize) {
        proof {
            assert(Self::spec_size() == 3);
            assert(<u8 as Wordlike>::width() == 8);
            assert forall|i: nat| i < Self::spec_size() implies (#[trigger] Self::spec_from_index(i)).spec_index() == i by {
                if i == 0 {
                    assert(Self::spec_from_index(i) == Ordering::Less);
                } else if i == 1 {
                    assert(Self::spec_from_index(i) == Ordering::Equal);
                } else {
                    assert(Self::spec_from_index(i) == Ordering::Greater);
                }
            }
        }
        3
    }

    fn min_value() -> (r: Self) {
        Ordering::Less
    }

    fn max_value() -> (r: Self) {
        Ordering::Greater
    }

    fn succ(self) -> (r: Option<Self>) {
        match self {
            Ordering::Less => Some(Ordering::Equal),
            Ordering::Equal => Some(Ordering::Greater),
            Ordering::Greater => None,
        }
    }

    fn pred(self) -> (r: Option<Self>) {
        match self {
            Ordering::Less => None,
            Ordering::Equal => Some(Ordering::Less),
            Ordering::Greater => Some(Ordering::Equal),
        }
    }

    fn index(self) -> (r: usize) {
        match self {
            Ordering::Less => 0,
            Ordering::Equal => 1,
            Ordering::Greater => 2,
        }
    }

    fn from_index(i: usize) -> (r: Option<Self>) {
        match i {
            0 => Some(Ordering::Less),
            1 => Some(Ordering::Equal),
            2 => Some(Ordering::Greater),
            _ => None,
        }
    }
}

} // verus!
