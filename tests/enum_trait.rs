use enumeration::{enumerate, Bound, Enum, Enumeration};

#[derive(Copy, Clone, Debug, PartialEq, Eq, PartialOrd, Ord, Hash)]
enum DemoEnum {
    A,
    B,
    C,
    D,
    E,
    F,
    G,
    H,
    I,
    J,
}

const ALL: [DemoEnum; 10] = [
    DemoEnum::A,
    DemoEnum::B,
    DemoEnum::C,
    DemoEnum::D,
    DemoEnum::E,
    DemoEnum::F,
    DemoEnum::G,
    DemoEnum::H,
    DemoEnum::I,
    DemoEnum::J,
];

impl Enum for DemoEnum {
    type Rep = u16;

    fn size() -> usize {
        10
    }

    fn min_value() -> Self {
        DemoEnum::A
    }

    fn max_value() -> Self {
        DemoEnum::J
    }

    fn succ(self) -> Option<Self> {
        Self::from_index(self.index() + 1)
    }

    fn pred(self) -> Option<Self> {
        match self.index() {
            0 => None,
            i => Self::from_index(i - 1),
        }
    }

    fn index(self) -> usize {
        self as usize
    }

    fn from_index(i: usize) -> Option<Self> {
        ALL.get(i).copied()
    }
}

fn all<T: Enum>() -> Enumeration<T> {
    enumerate(Bound::Unbounded, Bound::Unbounded)
}

fn collect<T: Enum>(mut e: Enumeration<T>) -> Vec<T> {
    let mut out = Vec::new();
    while let Some(x) = e.next() {
        out.push(x);
    }
    out
}

fn assert_all<F: FnMut(DemoEnum) -> bool>(mut f: F) {
    let checked: Vec<(DemoEnum, bool)> = collect(all::<DemoEnum>()).into_iter().map(|x| (x, f(x))).collect();
    let expected: Vec<(DemoEnum, bool)> = collect(all::<DemoEnum>()).into_iter().map(|x| (x, true)).collect();
    assert_eq!(checked, expected);
}

#[test]
fn enum_trait_test_min() {
    assert_all(|x: DemoEnum| x.succ() != Some(DemoEnum::min_value()));
}

#[test]
fn enum_trait_test_max() {
    assert_all(|x: DemoEnum| x.pred() != Some(DemoEnum::max_value()));
}

#[test]
fn enum_trait_test_succ() {
    assert_all(|x: DemoEnum| (x == DemoEnum::max_value()) == x.succ().is_none());
}

#[test]
fn enum_trait_test_pred() {
    assert_all(|x: DemoEnum| (x == DemoEnum::min_value()) == x.pred().is_none());
}

#[test]
fn enum_trait_test_index() {
    let indices: Vec<usize> = collect(all::<DemoEnum>()).into_iter().map(Enum::index).collect();
    assert_eq!(indices, (0..DemoEnum::size()).collect::<Vec<_>>());
}

#[test]
fn enum_trait_test_from_index() {
    let values: Vec<Option<DemoEnum>> = collect(all::<DemoEnum>()).into_iter().map(Some).collect();
    let looked_up: Vec<Option<DemoEnum>> = (0..DemoEnum::size()).map(DemoEnum::from_index).collect();
    assert_eq!(values, looked_up);
}

#[test]
fn enum_trait_test_from_index_out_of_range() {
    assert_eq!(DemoEnum::from_index(DemoEnum::size()), None);
}

#[test]
fn enum_trait_test_count() {
    for x in collect(all::<DemoEnum>()) {
        for y in collect(all::<DemoEnum>()) {
            let our_count = enumerate(Bound::Included(x), Bound::Included(y)).count();
            let std_count = collect(enumerate(Bound::Included(x), Bound::Included(y))).len();
            assert_eq!(our_count, std_count, "for {:?}..={:?}, {} != {}", x, y, our_count, std_count);
        }
    }
}

#[test]
fn enum_trait_test_rev() {
    let forward: Vec<DemoEnum> = collect(all::<DemoEnum>());
    let mut e = all::<DemoEnum>();
    let mut backward: Vec<DemoEnum> = Vec::new();
    while let Some(x) = e.next_back() {
        backward.push(x);
    }
    backward.reverse();
    assert_eq!(forward, backward);
}
