use enumeration::{Enum, EnumSet};

#[derive(Copy, Clone, Debug, PartialEq, Eq, PartialOrd, Ord, Hash)]
enum DemoEnum {
    A,
    B,
    C,
    D,
    E,
    F,
    G,
    H,
    I,
    J,
}

const ALL: [DemoEnum; 10] = [
    DemoEnum::A,
    DemoEnum::B,
    DemoEnum::C,
    DemoEnum::D,
    DemoEnum::E,
    DemoEnum::F,
    DemoEnum::G,
    DemoEnum::H,
    DemoEnum::I,
    DemoEnum::J,
];

impl Enum for DemoEnum {
    type Rep = u16;

    fn size() -> usize {
        10
    }

    fn min_value() -> Self {
        DemoEnum::A
    }

    fn max_value() -> Self {
        DemoEnum::J
    }

    fn succ(self) -> Option<Self> {
        Self::from_index(self.index() + 1)
    }

    fn pred(self) -> Option<Self> {
        match self.index() {
            0 => None,
            i => Self::from_index(i - 1),
        }
    }

    fn index(self) -> usize {
        self as usize
    }

    fn from_index(i: usize) -> Option<Self> {
        ALL.get(i).copied()
    }
}

fn set(values: &[DemoEnum]) -> EnumSet<DemoEnum> {
    EnumSet::from_slice(values)
}

#[test]
fn empty_set() {
    let s: EnumSet<DemoEnum> = EnumSet::new();
    assert!(s.is_empty());
    assert_eq!(s.len(), 0);
    assert_eq!(s.capacity(), 10);
    assert_eq!(s.to_raw(), 0);
    assert!(s.to_vec().is_empty());
}

#[test]
fn insert_remove_contains() {
    let mut s = EnumSet::new();
    s.insert(DemoEnum::C);
    s.insert(DemoEnum::C);
    s.insert(DemoEnum::J);
    assert_eq!(s.len(), 2);
    assert!(s.contains(DemoEnum::C));
    assert!(!s.contains(DemoEnum::D));
    assert_eq!(s.to_raw(), 0b10_0000_0100);
    s.remove(DemoEnum::C);
    s.remove(DemoEnum::A);
    assert_eq!(s.to_vec(), vec![DemoEnum::J]);
    s.clear();
    assert!(s.is_empty());
}

#[test]
fn boolean_algebra() {
    let a = set(&[DemoEnum::A, DemoEnum::B, DemoEnum::C]);
    let b = set(&[DemoEnum::B, DemoEnum::C, DemoEnum::D]);
    assert_eq!(a.union(&b).to_vec(), vec![DemoEnum::A, DemoEnum::B, DemoEnum::C, DemoEnum::D]);
    assert_eq!(a.intersection(&b).to_vec(), vec![DemoEnum::B, DemoEnum::C]);
    assert_eq!(a.difference(&b).to_vec(), vec![DemoEnum::A]);
    assert_eq!(a.symmetric_difference(&b).to_vec(), vec![DemoEnum::A, DemoEnum::D]);
    assert!(!a.is_disjoint(&b));
    assert!(a.is_disjoint(&set(&[DemoEnum::J])));
    assert!(set(&[DemoEnum::B]).is_subset(&a));
    assert!(!b.is_subset(&a));
    assert!(a.is_superset(&set(&[DemoEnum::A, DemoEnum::C])));
    assert!(!a.is_superset(&b));
    assert!(EnumSet::new().is_subset(&a));
}

#[test]
fn inverse_of_empty_and_full() {
    let empty: EnumSet<DemoEnum> = EnumSet::new();
    assert_eq!(empty.inverse().len(), 10);
    assert_eq!(empty.inverse().to_raw(), 0b11_1111_1111);
    assert!(empty.inverse().inverse().is_empty());
}

#[test]
fn inverse_holds_exactly_the_missing_values() {
    let s = set(&[DemoEnum::A, DemoEnum::C, DemoEnum::H, DemoEnum::I, DemoEnum::J]);
    let inv = s.inverse();
    assert_eq!(inv.to_vec(), vec![DemoEnum::B, DemoEnum::D, DemoEnum::E, DemoEnum::F, DemoEnum::G]);
    for i in 0..10 {
        let x = DemoEnum::from_index(i).unwrap();
        assert_eq!(inv.contains(x), !s.contains(x));
    }
}

#[test]
fn retain_asks_only_about_present_values() {
    let mut s = set(&[DemoEnum::B, DemoEnum::C, DemoEnum::F]);
    let mut asked = Vec::new();
    let asked_cell = std::cell::RefCell::new(&mut asked);
    s.retain(|x| {
        asked_cell.borrow_mut().push(x);
        x != DemoEnum::C
    });
    assert_eq!(asked, vec![DemoEnum::B, DemoEnum::C, DemoEnum::F]);
    assert_eq!(s.to_vec(), vec![DemoEnum::B, DemoEnum::F]);
}

#[test]
fn iterator_from_both_ends() {
    let s = set(&[DemoEnum::A, DemoEnum::D, DemoEnum::G, DemoEnum::J]);
    let mut it = s.iter();
    assert_eq!(it.len(), 4);
    assert_eq!(it.next(), Some(DemoEnum::A));
    assert_eq!(it.next_back(), Some(DemoEnum::J));
    assert_eq!(it.len(), 2);
    assert_eq!(it.next_back(), Some(DemoEnum::G));
    assert_eq!(it.next(), Some(DemoEnum::D));
    assert_eq!(it.next(), None);
    assert_eq!(it.next_back(), None);
    assert_eq!(it.len(), 0);
}

#[test]
fn raw_words_outside_the_type_are_ignored_by_traversal() {
    let s: EnumSet<DemoEnum> = EnumSet::from_raw(0b1100_0000_0000_0001);
    assert_eq!(s.to_vec(), vec![DemoEnum::A]);
    assert_eq!(s.iter().len(), 1);
    assert_eq!(s.len(), 3);
}

#[test]
fn iterator_folds_both_ways() {
    let s = set(&[DemoEnum::B, DemoEnum::E, DemoEnum::H]);
    let up = s.iter().fold(Vec::new(), |mut v, x| {
        v.push(x);
        v
    });
    let down = s.iter().rfold(Vec::new(), |mut v, x| {
        v.push(x);
        v
    });
    assert_eq!(up, vec![DemoEnum::B, DemoEnum::E, DemoEnum::H]);
    assert_eq!(down, vec![DemoEnum::H, DemoEnum::E, DemoEnum::B]);
    assert_eq!(s.iter().fold(0usize, |c, _| c + 1), s.len());
}

#[test]
fn extend_adds_values_and_default_is_empty() {
    let mut s: EnumSet<DemoEnum> = EnumSet::default();
    assert!(s.is_empty());
    s.extend(&[DemoEnum::G, DemoEnum::A, DemoEnum::G]);
    s.extend(&[]);
    assert_eq!(s.to_vec(), vec![DemoEnum::A, DemoEnum::G]);
    let copy = s;
    assert_eq!(copy, s);
}
