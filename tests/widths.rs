use enumeration::{Enum, EnumSet};
use std::cmp::Ordering;

#[derive(Copy, Clone, Debug, PartialEq, Eq)]
struct Twenty(usize);

impl Enum for Twenty {
    type Rep = u32;

    fn size() -> usize {
        20
    }

    fn min_value() -> Self {
        Twenty(0)
    }

    fn max_value() -> Self {
        Twenty(20 - 1)
    }

    fn succ(self) -> Option<Self> {
        Self::from_index(self.0 + 1)
    }

    fn pred(self) -> Option<Self> {
        if self.0 == 0 {
            None
        } else {
            Some(Twenty(self.0 - 1))
        }
    }

    fn index(self) -> usize {
        self.0
    }

    fn from_index(i: usize) -> Option<Self> {
        if i < 20 {
            Some(Twenty(i))
        } else {
            None
        }
    }
}

#[derive(Copy, Clone, Debug, PartialEq, Eq)]
struct Forty(usize);

impl Enum for Forty {
    type Rep = u64;

    fn size() -> usize {
        40
    }

    fn min_value() -> Self {
        Forty(0)
    }

    fn max_value() -> Self {
        Forty(40 - 1)
    }

    fn succ(self) -> Option<Self> {
        Self::from_index(self.0 + 1)
    }

    fn pred(self) -> Option<Self> {
        if self.0 == 0 {
            None
        } else {
            Some(Forty(self.0 - 1))
        }
    }

    fn index(self) -> usize {
        self.0
    }

    fn from_index(i: usize) -> Option<Self> {
        if i < 40 {
            Some(Forty(i))
        } else {
            None
        }
    }
}

#[derive(Copy, Clone, Debug, PartialEq, Eq)]
struct Hundred(usize);

impl Enum for Hundred {
    type Rep = u128;

    fn size() -> usize {
        100
    }

    fn min_value() -> Self {
        Hundred(0)
    }

    fn max_value() -> Self {
        Hundred(100 - 1)
    }

    fn succ(self) -> Option<Self> {
        Self::from_index(self.0 + 1)
    }

    fn pred(self) -> Option<Self> {
        if self.0 == 0 {
            None
        } else {
            Some(Hundred(self.0 - 1))
        }
    }

    fn index(self) -> usize {
        self.0
    }

    fn from_index(i: usize) -> Option<Self> {
        if i < 100 {
            Some(Hundred(i))
        } else {
            None
        }
    }
}

#[test]
fn byte_words_count_their_bits() {
    let mut s: EnumSet<bool> = EnumSet::new();
    s.insert(true);
    assert_eq!(s.len(), 1);
    s.insert(false);
    assert_eq!(s.len(), 2);
    assert_eq!(s.inverse().len(), 0);
    let o: EnumSet<Ordering> = EnumSet::from_slice(&[Ordering::Less, Ordering::Greater]);
    assert_eq!(o.len(), 2);
    assert_eq!(o.inverse().to_vec(), vec![Ordering::Equal]);
    let opt: EnumSet<Option<bool>> = EnumSet::from_slice(&[None, Some(true)]);
    assert_eq!(opt.len(), 2);
    assert_eq!(opt.to_raw(), 0b101);
}

#[test]
fn wide_words_count_their_bits() {
    let a: EnumSet<Twenty> = EnumSet::from_slice(&[Twenty(3), Twenty(19)]);
    assert_eq!(a.len(), 2);
    assert_eq!(a.inverse().len(), 18);
    let b: EnumSet<Forty> = EnumSet::from_slice(&[Forty(0), Forty(39), Forty(20)]);
    assert_eq!(b.len(), 3);
    assert_eq!(b.inverse().len(), 37);
    let c: EnumSet<Hundred> = EnumSet::from_slice(&[Hundred(99), Hundred(64), Hundred(1), Hundred(2)]);
    assert_eq!(c.len(), 4);
    assert_eq!(c.inverse().len(), 96);
    assert_eq!(c.to_vec(), vec![Hundred(1), Hundred(2), Hundred(64), Hundred(99)]);
    assert_eq!(EnumSet::<Hundred>::from_raw(!0).len(), 128);
}

#[test]
fn full_width_type_uses_every_bit() {
    let all: Vec<Hundred> = (0..100).map(Hundred).collect();
    let s = EnumSet::from_slice(&all);
    assert_eq!(s.len(), 100);
    assert!(s.inverse().is_empty());
    assert_eq!(s.to_vec(), all);
}
