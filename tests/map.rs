use enumeration::{Enum, EnumMap, Entry};

#[derive(Copy, Clone, Debug, PartialEq, Eq, PartialOrd, Ord, Hash)]
enum DemoEnum {
    A,
    B,
    C,
    D,
    E,
    F,
    G,
    H,
    I,
    J,
}

const ALL: [DemoEnum; 10] = [
    DemoEnum::A,
    DemoEnum::B,
    DemoEnum::C,
    DemoEnum::D,
    DemoEnum::E,
    DemoEnum::F,
    DemoEnum::G,
    DemoEnum::H,
    DemoEnum::I,
    DemoEnum::J,
];

impl Enum for DemoEnum {
    type Rep = u16;

    fn size() -> usize {
        10
    }

    fn min_value() -> Self {
        DemoEnum::A
    }

    fn max_value() -> Self {
        DemoEnum::J
    }

    fn succ(self) -> Option<Self> {
        Self::from_index(self.index() + 1)
    }

    fn pred(self) -> Option<Self> {
        match self.index() {
            0 => None,
            i => Self::from_index(i - 1),
        }
    }

    fn index(self) -> usize {
        self as usize
    }

    fn from_index(i: usize) -> Option<Self> {
        ALL.get(i).copied()
    }
}

#[test]
fn map_new_is_empty() {
    let map: EnumMap<DemoEnum, u32> = EnumMap::new();
    assert!(map.is_empty());
    assert_eq!(map.len(), 0);
    assert_eq!(map.capacity(), 10);
    assert_eq!(map.get(DemoEnum::A), None);
    assert!(!map.contains_key(DemoEnum::J));
    assert!(map.keys().is_empty());
    assert_eq!(map.iter().next(), None);
}

#[test]
fn map_insert_absent_then_present() {
    let mut map: EnumMap<DemoEnum, u32> = EnumMap::new();
    assert_eq!(map.insert(DemoEnum::C, 7), None);
    assert_eq!(map.len(), 1);
    assert_eq!(map.get(DemoEnum::C), Some(&7));
    assert_eq!(map.insert(DemoEnum::C, 9), Some(7));
    assert_eq!(map.len(), 1);
    assert_eq!(*map.index(DemoEnum::C), 9);
}

#[test]
fn map_remove_present_and_absent() {
    let mut map: EnumMap<DemoEnum, u32> = EnumMap::new();
    assert_eq!(map.remove(DemoEnum::B), None);
    map.insert(DemoEnum::B, 1);
    map.insert(DemoEnum::H, 2);
    assert_eq!(map.remove(DemoEnum::B), Some(1));
    assert_eq!(map.len(), 1);
    assert_eq!(map.get(DemoEnum::B), None);
    assert_eq!(map.remove(DemoEnum::B), None);
    assert_eq!(map.len(), 1);
}

#[test]
fn map_get_mut_changes_value() {
    let mut map: EnumMap<DemoEnum, u32> = EnumMap::new();
    assert!(map.get_mut(DemoEnum::A).is_none());
    map.insert(DemoEnum::A, 5);
    *map.get_mut(DemoEnum::A).unwrap() += 10;
    assert_eq!(map.get(DemoEnum::A), Some(&15));
}

#[test]
fn map_traversals_in_key_order() {
    let mut map: EnumMap<DemoEnum, u32> = EnumMap::new();
    map.insert(DemoEnum::J, 3);
    map.insert(DemoEnum::A, 1);
    map.insert(DemoEnum::E, 2);
    assert_eq!(map.keys(), vec![DemoEnum::A, DemoEnum::E, DemoEnum::J]);
    assert_eq!(map.values(), vec![&1, &2, &3]);
    let mut it = map.iter();
    assert_eq!(it.len(), 3);
    assert_eq!(it.next(), Some((DemoEnum::A, &1)));
    assert_eq!(it.next_back(), Some((DemoEnum::J, &3)));
    assert_eq!(it.len(), 1);
    assert_eq!(it.next_back(), Some((DemoEnum::E, &2)));
    assert_eq!(it.next(), None);
    assert_eq!(it.len(), 0);
    assert_eq!(map.size(), 3);
    assert_eq!(map.iter_copied(), vec![(DemoEnum::A, 1), (DemoEnum::E, 2), (DemoEnum::J, 3)]);
    assert_eq!(map.clone().into_values(), vec![1, 2, 3]);
}

#[test]
fn map_retain_and_extract_if() {
    let mut map: EnumMap<DemoEnum, u32> = EnumMap::from_pairs(vec![(DemoEnum::A, 1), (DemoEnum::B, 2), (DemoEnum::C, 3), (DemoEnum::D, 4)]);
    map.retain(|_, v| v % 2 == 0);
    assert_eq!(map.iter_copied(), vec![(DemoEnum::B, 2), (DemoEnum::D, 4)]);
    assert_eq!(map.len(), 2);
    let mut it = map.extract_if(|k, _| k == DemoEnum::D);
    assert_eq!(it.next(), Some((DemoEnum::D, 4)));
    assert_eq!(it.next(), None);
    assert_eq!(map.len(), 1);
    assert_eq!(map.iter_copied(), vec![(DemoEnum::B, 2)]);
}

#[test]
fn map_drain_and_clear() {
    let mut map: EnumMap<DemoEnum, u32> = EnumMap::from_pairs(vec![(DemoEnum::F, 6), (DemoEnum::G, 7)]);
    assert_eq!(map.drain(), vec![(DemoEnum::F, 6), (DemoEnum::G, 7)]);
    assert!(map.is_empty());
    map.insert(DemoEnum::A, 1);
    map.clear();
    assert!(map.is_empty());
    assert_eq!(map.get(DemoEnum::A), None);
}

#[test]
fn entry_and_modify_or_insert_on_absent_key() {
    let mut map: EnumMap<DemoEnum, u32> = EnumMap::new();
    let called = std::cell::Cell::new(false);
    let v = *map.entry(DemoEnum::E).and_modify(|v| {
        called.set(true);
        *v += 100;
    }).or_insert(42);
    assert_eq!(v, 42);
    assert_eq!(map.get(DemoEnum::E), Some(&42));
    assert_eq!(map.len(), 1);
    assert!(!called.get());
}

#[test]
fn entry_and_modify_or_insert_on_present_key() {
    let mut map: EnumMap<DemoEnum, u32> = EnumMap::new();
    map.insert(DemoEnum::E, 1);
    let v = *map.entry(DemoEnum::E).and_modify(|v| *v += 100).or_insert(42);
    assert_eq!(v, 101);
    assert_eq!(map.get(DemoEnum::E), Some(&101));
    assert_eq!(map.len(), 1);
}

#[test]
fn entry_variants_and_handles() {
    let mut map: EnumMap<DemoEnum, u32> = EnumMap::new();
    match map.entry(DemoEnum::B) {
        Entry::Vacant(e) => {
            assert_eq!(e.key(), DemoEnum::B);
            *e.insert(3) += 1;
        }
        Entry::Occupied(_) => panic!("slot should be vacant"),
    }
    assert_eq!(map.get(DemoEnum::B), Some(&4));
    match map.entry(DemoEnum::B) {
        Entry::Occupied(mut e) => {
            assert_eq!(e.key(), DemoEnum::B);
            assert_eq!(*e.get(), 4);
            assert_eq!(e.insert(8), 4);
            *e.get_mut() += 1;
            assert_eq!(e.remove_entry(), (DemoEnum::B, 9));
        }
        Entry::Vacant(_) => panic!("slot should be occupied"),
    }
    assert!(map.is_empty());
    assert_eq!(map.entry(DemoEnum::C).key(), DemoEnum::C);
    assert_eq!(*map.entry(DemoEnum::C).or_insert_with(|| 5), 5);
    assert_eq!(*map.entry(DemoEnum::D).or_insert_with_key(|k| k.index() as u32), 3);
    assert_eq!(*map.entry(DemoEnum::D).or_insert_with_key(|_| 99), 3);
    match map.entry(DemoEnum::C) {
        Entry::Occupied(e) => assert_eq!(e.remove(), 5),
        Entry::Vacant(_) => panic!("slot should be occupied"),
    }
    assert_eq!(map.len(), 1);
}

#[test]
fn map_default_is_empty() {
    let map: EnumMap<DemoEnum, String> = EnumMap::default();
    assert!(map.is_empty());
    assert_eq!(map, EnumMap::new());
}

#[test]
fn extract_if_leaves_unvisited_values() {
    let mut map: EnumMap<DemoEnum, u32> = EnumMap::from_pairs(vec![(DemoEnum::A, 10), (DemoEnum::C, 30), (DemoEnum::E, 50)]);
    {
        let mut it = map.extract_if(|_, v| *v >= 30);
        assert_eq!(it.next(), Some((DemoEnum::C, 30)));
    }
    assert_eq!(map.iter_copied(), vec![(DemoEnum::A, 10), (DemoEnum::E, 50)]);
    assert_eq!(map.len(), 2);
}

#[test]
fn extract_if_from_the_back() {
    let mut map: EnumMap<DemoEnum, u32> = EnumMap::from_pairs(vec![(DemoEnum::B, 2), (DemoEnum::C, 3), (DemoEnum::H, 8)]);
    {
        let mut it = map.extract_if(|_, v| *v != 3);
        assert_eq!(it.next_back(), Some((DemoEnum::H, 8)));
        assert_eq!(it.next(), Some((DemoEnum::B, 2)));
        assert_eq!(it.next_back(), None);
    }
    assert_eq!(map.iter_copied(), vec![(DemoEnum::C, 3)]);
}
