use enumeration::{enumerate, Bound, Enum, Enumeration};
use std::cmp::Ordering;
use std::fmt::Debug;

#[derive(Copy, Clone, Debug, PartialEq, Eq, PartialOrd, Ord, Hash)]
enum DemoEnum {
    A,
    B,
    C,
    D,
    E,
    F,
    G,
    H,
    I,
    J,
}

const ALL: [DemoEnum; 10] = [
    DemoEnum::A,
    DemoEnum::B,
    DemoEnum::C,
    DemoEnum::D,
    DemoEnum::E,
    DemoEnum::F,
    DemoEnum::G,
    DemoEnum::H,
    DemoEnum::I,
    DemoEnum::J,
];

impl Enum for DemoEnum {
    type Rep = u16;

    fn size() -> usize {
        10
    }

    fn min_value() -> Self {
        DemoEnum::A
    }

    fn max_value() -> Self {
        DemoEnum::J
    }

    fn succ(self) -> Option<Self> {
        Self::from_index(self.index() + 1)
    }

    fn pred(self) -> Option<Self> {
        match self.index() {
            0 => None,
            i => Self::from_index(i - 1),
        }
    }

    fn index(self) -> usize {
        self as usize
    }

    fn from_index(i: usize) -> Option<Self> {
        ALL.get(i).copied()
    }
}

fn values<T: Enum>() -> Vec<T> {
    let mut e: Enumeration<T> = enumerate(Bound::Unbounded, Bound::Unbounded);
    let mut out = Vec::new();
    while let Some(x) = e.next() {
        out.push(x);
    }
    out
}

fn check_laws<T: Enum + Debug>() {
    let all = values::<T>();
    assert_eq!(all.len(), T::size());
    for (i, &x) in all.iter().enumerate() {
        assert_eq!((x == T::max_value()), x.succ().is_none(), "{:?}", x);
        assert_eq!((x == T::min_value()), x.pred().is_none(), "{:?}", x);
        assert_ne!(x.succ(), Some(T::min_value()));
        assert_ne!(x.pred(), Some(T::max_value()));
        assert_eq!(x.index(), i);
        assert_eq!(T::from_index(i), Some(x));
        if let Some(s) = x.succ() {
            assert_eq!(s.index(), i + 1);
        }
        if let Some(p) = x.pred() {
            assert_eq!(p.index() + 1, i);
        }
    }
    assert_eq!(T::from_index(T::size()), None);
}

#[test]
fn laws_hold_for_bool() {
    check_laws::<bool>();
}

#[test]
fn laws_hold_for_ordering() {
    check_laws::<Ordering>();
}

#[test]
fn laws_hold_for_optional_bool() {
    check_laws::<Option<bool>>();
}

#[test]
fn laws_hold_for_ten_values() {
    check_laws::<DemoEnum>();
}
