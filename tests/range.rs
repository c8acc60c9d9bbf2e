use enumeration::{enumerate, Bound, Enum, Enumeration};
use std::cmp::Ordering;

#[derive(Copy, Clone, Debug, PartialEq, Eq, PartialOrd, Ord, Hash)]
enum DemoEnum {
    A,
    B,
    C,
    D,
    E,
    F,
    G,
    H,
    I,
    J,
}

const ALL: [DemoEnum; 10] = [
    DemoEnum::A,
    DemoEnum::B,
    DemoEnum::C,
    DemoEnum::D,
    DemoEnum::E,
    DemoEnum::F,
    DemoEnum::G,
    DemoEnum::H,
    DemoEnum::I,
    DemoEnum::J,
];

impl Enum for DemoEnum {
    type Rep = u16;

    fn size() -> usize {
        10
    }

    fn min_value() -> Self {
        DemoEnum::A
    }

    fn max_value() -> Self {
        DemoEnum::J
    }

    fn succ(self) -> Option<Self> {
        Self::from_index(self.index() + 1)
    }

    fn pred(self) -> Option<Self> {
        match self.index() {
            0 => None,
            i => Self::from_index(i - 1),
        }
    }

    fn index(self) -> usize {
        self as usize
    }

    fn from_index(i: usize) -> Option<Self> {
        ALL.get(i).copied()
    }
}

fn all<T: Enum>() -> Enumeration<T> {
    enumerate(Bound::Unbounded, Bound::Unbounded)
}

fn collect<T: Enum>(mut e: Enumeration<T>) -> Vec<T> {
    let mut out = Vec::new();
    while let Some(x) = e.next() {
        out.push(x);
    }
    out
}

#[test]
fn every_pair_counts_match_stepping() {
    for x in collect(all::<DemoEnum>()) {
        for y in collect(all::<DemoEnum>()) {
            let range = enumerate(Bound::Included(x), Bound::Included(y));
            let expected = if x.index() <= y.index() { y.index() - x.index() + 1 } else { 0 };
            assert_eq!(range.count(), expected);
            assert_eq!(range.len(), expected);
            assert_eq!(range.size_hint(), (expected, Some(expected)));
            assert_eq!(range.fold(0usize, |c, _| c + 1), expected);
            assert_eq!(collect(range).len(), expected);
        }
    }
}

#[test]
fn single_value_range_yields_once() {
    let mut r = enumerate(Bound::Included(DemoEnum::D), Bound::Included(DemoEnum::D));
    assert_eq!(r.len(), 1);
    assert_eq!(r.next(), Some(DemoEnum::D));
    assert_eq!(r.next(), None);
    assert_eq!(r.next_back(), None);
    assert_eq!(r.len(), 0);
}

#[test]
fn reversed_bounds_give_empty_range() {
    let mut r = enumerate(Bound::Included(DemoEnum::F), Bound::Included(DemoEnum::B));
    assert_eq!(r.count(), 0);
    assert_eq!(r.next(), None);
}

#[test]
fn excluding_the_ends_of_the_type_gives_empty_range() {
    assert_eq!(enumerate(Bound::Excluded(DemoEnum::J), Bound::Unbounded).count(), 0);
    assert_eq!(enumerate(Bound::Unbounded, Bound::Excluded(DemoEnum::A)).count(), 0);
    assert_eq!(
        enumerate::<DemoEnum>(Bound::Excluded(DemoEnum::J), Bound::Unbounded),
        enumerate(Bound::Unbounded, Bound::Excluded(DemoEnum::A))
    );
}

#[test]
fn exclusive_bounds_step_inward() {
    let r = enumerate(Bound::Excluded(DemoEnum::B), Bound::Excluded(DemoEnum::F));
    assert_eq!(collect(r), vec![DemoEnum::C, DemoEnum::D, DemoEnum::E]);
}

#[test]
fn both_ends_meet_in_the_middle() {
    let mut r = enumerate(Bound::Included(DemoEnum::A), Bound::Included(DemoEnum::C));
    assert_eq!(r.next(), Some(DemoEnum::A));
    assert_eq!(r.next_back(), Some(DemoEnum::C));
    assert_eq!(r.len(), 1);
    assert_eq!(r.next_back(), Some(DemoEnum::B));
    assert_eq!(r.next(), None);
    assert_eq!(r.next_back(), None);
}

#[test]
fn fold_and_rfold_visit_in_opposite_orders() {
    let forward = all::<DemoEnum>().fold(Vec::new(), |mut v, x| {
        v.push(x.index());
        v
    });
    let backward = all::<DemoEnum>().rfold(Vec::new(), |mut v, x| {
        v.push(x.index());
        v
    });
    assert_eq!(forward, (0..10).collect::<Vec<_>>());
    assert_eq!(backward, (0..10).rev().collect::<Vec<_>>());
    assert_eq!(enumerate(Bound::Included(DemoEnum::C), Bound::Included(DemoEnum::A)).fold(7, |c, _| c + 1), 7);
}

#[test]
fn bool_is_enumerable() {
    assert_eq!(bool::size(), 2);
    assert_eq!(bool::min_value(), false);
    assert_eq!(bool::max_value(), true);
    assert_eq!(false.succ(), Some(true));
    assert_eq!(true.succ(), None);
    assert_eq!(true.pred(), Some(false));
    assert_eq!(false.pred(), None);
    assert_eq!(true.index(), 1);
    assert_eq!(bool::from_index(0), Some(false));
    assert_eq!(bool::from_index(2), None);
    assert_eq!(false.bit(), 1u8);
    assert_eq!(true.bit(), 2u8);
    assert_eq!(collect(all::<bool>()), vec![false, true]);
}

#[test]
fn ordering_is_enumerable() {
    assert_eq!(Ordering::size(), 3);
    assert_eq!(collect(all::<Ordering>()), vec![Ordering::Less, Ordering::Equal, Ordering::Greater]);
    assert_eq!(Ordering::Equal.succ(), Some(Ordering::Greater));
    assert_eq!(Ordering::Greater.succ(), None);
    assert_eq!(Ordering::Less.pred(), None);
    assert_eq!(Ordering::Greater.index(), 2);
    assert_eq!(Ordering::from_index(1), Some(Ordering::Equal));
    assert_eq!(Ordering::from_index(3), None);
    assert_eq!(Ordering::Greater.bit(), 4u8);
}

#[test]
fn optional_values_sit_one_slot_up() {
    assert_eq!(<Option<bool>>::size(), 3);
    assert_eq!(<Option<bool>>::min_value(), None);
    assert_eq!(<Option<bool>>::max_value(), Some(true));
    assert_eq!(collect(all::<Option<bool>>()), vec![None, Some(false), Some(true)]);
    assert_eq!(None::<bool>.succ(), Some(Some(false)));
    assert_eq!(Some(true).succ(), None);
    assert_eq!(Some(false).pred(), Some(None));
    assert_eq!(None::<bool>.pred(), None);
    assert_eq!(Some(true).index(), 2);
    assert_eq!(<Option<bool>>::from_index(0), Some(None));
    assert_eq!(<Option<bool>>::from_index(2), Some(Some(true)));
    assert_eq!(<Option<bool>>::from_index(3), None);
    assert_eq!(None::<bool>.bit(), 1u8);
    assert_eq!(Some(false).bit(), 2u8);
    assert_eq!(Some(true).bit(), 4u8);
}
