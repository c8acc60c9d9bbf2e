use vstd::prelude::*;

use crate::enum_trait::Enum;
use crate::wordlike::Wordlike;

verus! {

/// An enumerable type whose `Option` is enumerable too: `None` comes first
/// and every `Some(v)` sits one slot above `v`, so the word type for the
/// optional values needs room for one more bit.
pub trait OptionableEnum: Enum {
    /// Word type wide enough for one bit more than `Rep`.
    type RepForOptional: Wordlike;

    /// The wider word has room for the extra value.
    proof fn lemma_room()
        ensures
            Self::spec_size() + 1 <= Self::RepForOptional::width(),
    ;
}

impl<T: OptionableEnum> Enum for Option<T> {
    type Rep = T::RepForOptional;

    open spec fn spec_size() -> nat {
        T::spec_size() + 1
    }

    open spec fn spec_index(self) -> nat {
        match self {
            None => 0,
            Some(e) => e.spec_index() + 1,
        }
    }

    open spec fn spec_from_index(i: nat) -> Self {
        if i == 0 {
            None
        } else {
            Some(T::spec_from_index((i - 1) as nat))
        }
    }

    fn size() -> (r: usize) {
        let n = T::size();
        proof {
            T::lemma_room();
            T::RepForOptional::lemma_width();
            assert(Self::spec_size() == T::spec_size() + 1);
            assert forall|x: Self, y: Self| #[trigger] x.spec_index() == #[trigger] y.spec_index()
                implies x == y by {
                match (x, y) {
                    (Some(a), Some(b)) => {
                        assert(a.spec_index() == b.spec_index());
                    },
                    _ => {},
                }
            }
            assert forall|i: nat| i < Self::spec_size() implies (#[trigger] Self::spec_from_index(i)).spec_index() == i by {
                if i > 0 {
                    assert(T::spec_from_index((i - 1) as nat).spec_index() == i - 1);
                }
            }
        }
        n + 1
    }

    fn min_value() -> (r: Self) {
        None
    }

    fn max_value() -> (r: Self) {
        Some(T::max_value())
    }

    fn succ(self) -> (r: Option<Self>) {
        match self {
            None => Some(Some(T::min_value())),
            Some(e) => match e.succ() {
                Some(s) => Some(Some(s)),
                None => None,
            },
        }
    }

    fn pred(self) -> (r: Option<Self>) {
        match self {
            None => None,
            Some(e) => Some(e.pred()),
        }
    }

    fn index(self) -> (r: usize) {
        // The contract of `size` carries the rules of `T`.
        let _ = T::size();
        match self {
            None => 0,
            Some(e) => e.index() + 1,
        }
    }

    fn from_index(i: usize) -> (r: Option<Self>) {
        if i == 0 {
            Some(None)
        } else {
            match T::from_index(i - 1) {
                Some(e) => Some(Some(e)),
                None => None,
            }
        }
    }
}

impl OptionableEnum for bool {
    type RepForOptional = u8;

    proof fn lemma_room() {
        assert(<u8 as Wordlike>::width() == 8);
    }
}

} // verus!
