use vstd::prelude::*;

verus! {

/// The positions of the bits that are set in a word.
pub open spec fn ones<W: Wordlike>(w: W) -> Set<nat> {
    Set::new(|i: nat| w.spec_bit(i))
}

/// The set of all naturals below `n`.
pub open spec fn below(n: nat) -> Set<nat> {
    Set::new(|i: nat| i < n)
}

/// `below(n)` is finite and holds `n` elements.
pub proof fn lemma_below(n: nat)
    ensures
        below(n).finite(),
        below(n).len() == n,
    decreases n,
{
    if n > 0 {
        lemma_below((n - 1) as nat);
        assert(below(n) =~= below((n - 1) as nat).insert((n - 1) as nat));
    } else {
        assert(below(n) =~= Set::<nat>::empty());
    }
}

/// A fixed-width unsigned integer read as a set of bit positions.
pub trait Wordlike: Copy + Sized + core::fmt::Debug + Eq {
    /// Whether bit `i` of the word is set.
    spec fn spec_bit(self, i: nat) -> bool;

    /// The number of bits in the word.
    spec fn width() -> nat;

    /// No bit at or beyond the width is ever set.
    proof fn lemma_width()
        ensures
            0 < Self::width() <= 128,
            forall|w: Self, i: nat| #[trigger] w.spec_bit(i) ==> i < Self::width(),
    ;

    /// The word with no bit set.
    fn zero() -> (r: Self)
        ensures
            forall|i: nat| !#[trigger] r.spec_bit(i),
    ;

    /// The number of bits set in `this`.
    fn count_ones(this: Self) -> (r: u32)
        ensures
            r as nat == Set::new(|i: nat| this.spec_bit(i)).len(),
    ;

    /// Bitwise and.
    fn and(self, other: Self) -> (r: Self)
        ensures
            forall|i: nat| #[trigger] r.spec_bit(i) == (self.spec_bit(i) && other.spec_bit(i)),
    ;

    /// Bitwise or.
    fn or(self, other: Self) -> (r: Self)
        ensures
            forall|i: nat| #[trigger] r.spec_bit(i) == (self.spec_bit(i) || other.spec_bit(i)),
    ;

    /// Bitwise exclusive or.
    fn xor(self, other: Self) -> (r: Self)
        ensures
            forall|i: nat| #[trigger] r.spec_bit(i) == (self.spec_bit(i) != other.spec_bit(i)),
    ;

    /// Bitwise complement within the width.
    fn not(self) -> (r: Self)
        ensures
            forall|i: nat| #[trigger] r.spec_bit(i) == (i < Self::width() && !self.spec_bit(i)),
    ;

    /// The word whose low `n` bits are set.
    fn mask(n: u32) -> (r: Self)
        requires
            n <= Self::width(),
        ensures
            forall|i: nat| #[trigger] r.spec_bit(i) == (i < n),
    ;

    /// The word with bit `i` alone set.
    fn single(i: u32) -> (r: Self)
        requires
            i < Self::width(),
        ensures
            forall|j: nat| #[trigger] r.spec_bit(j) == (j == i),
    ;

    /// Whether no bit of the word is set.
    fn is_zero(self) -> (r: bool)
        ensures
            r == (forall|i: nat| !#[trigger] self.spec_bit(i)),
    {
        let n = Self::count_ones(self);
        proof {
            Self::lemma_width();
            lemma_below(Self::width());
            assert(Set::new(|i: nat| self.spec_bit(i)).subset_of(below(Self::width())));
            vstd::set_lib::lemma_len_subset(Set::new(|i: nat| self.spec_bit(i)), below(Self::width()));
            if n == 0 {
                assert forall|i: nat| !#[trigger] self.spec_bit(i) by {
                    if self.spec_bit(i) {
                        assert(Set::new(|i: nat| self.spec_bit(i)).contains(i));
                    }
                }
            } else {
                if forall|i: nat| !#[trigger] self.spec_bit(i) {
                    assert(Set::new(|i: nat| self.spec_bit(i)) =~= Set::<nat>::empty());
                }
            }
        }
        n == 0
    }
}

/// Relies on `u8::count_ones`: the number of ones in the binary representation.
#[verifier::external_body]
fn count_ones_u8(x: u8) -> (r: u32)
    ensures
        r as nat == Set::new(|i: nat| i < 8 && (x >> (i as u8)) & 1 == 1).len(),
{
    x.count_ones()
}

/// Bit `i` of the results of the `u8` operations.
proof fn lemma_bits_u8(a: u8, b: u8, i: u8)
    by (bit_vector)
    requires
        i < 8,
    ensures
        ((a & b) >> i) & 1 == 1 <==> ((a >> i) & 1 == 1 && (b >> i) & 1 == 1),
        ((a | b) >> i) & 1 == 1 <==> ((a >> i) & 1 == 1 || (b >> i) & 1 == 1),
        ((a ^ b) >> i) & 1 == 1 <==> ((a >> i) & 1 == 1) != ((b >> i) & 1 == 1),
        ((!a) >> i) & 1 == 1 <==> !((a >> i) & 1 == 1),
        !((0u8 >> i) & 1 == 1),
        ((!0u8) >> i) & 1 == 1,
        a < 8 ==> ((((1u8 << a) >> i) & 1 == 1) <==> a == i),
        a < 8 ==> (1u8 << a) >= 1,
        a < 8 ==> (((((1u8 << a) - 1) as u8 >> i) & 1 == 1) <==> i < a),
{
}

impl Wordlike for u8 {
    open spec fn spec_bit(self, i: nat) -> bool {
        i < 8 && (self >> (i as u8)) & 1 == 1
    }

    open spec fn width() -> nat {
        8
    }

    proof fn lemma_width() {
        assert(Self::width() == 8);
        assert forall|w: u8, i: nat| #[trigger] w.spec_bit(i) implies i < 8 by {}
    }

    fn zero() -> (r: Self) {
        proof {
            assert forall|i: nat| !#[trigger] 0u8.spec_bit(i) by {
                if i < 8 {
                    lemma_bits_u8(0, 0, i as u8);
                }
            }
        }
        0
    }

    fn count_ones(this: Self) -> (r: u32) {
        let r = count_ones_u8(this);
        proof {
            assert(Set::new(|i: nat| this.spec_bit(i)) =~= Set::new(
                |i: nat| i < 8 && (this >> (i as u8)) & 1 == 1,
            ));
        }
        r
    }

    fn and(self, other: Self) -> (r: Self) {
        let r = self & other;
        proof {
            assert forall|i: nat| #[trigger] r.spec_bit(i) == (self.spec_bit(i) && other.spec_bit(i)) by {
                if i < 8 {
                    lemma_bits_u8(self, other, i as u8);
                }
            }
        }
        r
    }

    fn or(self, other: Self) -> (r: Self) {
        let r = self | other;
        proof {
            assert forall|i: nat| #[trigger] r.spec_bit(i) == (self.spec_bit(i) || other.spec_bit(i)) by {
                if i < 8 {
                    lemma_bits_u8(self, other, i as u8);
                }
            }
        }
        r
    }

    fn xor(self, other: Self) -> (r: Self) {
        let r = self ^ other;
        proof {
            assert forall|i: nat| #[trigger] r.spec_bit(i) == (self.spec_bit(i) != other.spec_bit(i)) by {
                if i < 8 {
                    lemma_bits_u8(self, other, i as u8);
                }
            }
        }
        r
    }

    fn not(self) -> (r: Self) {
        let r = !self;
        proof {
            assert forall|i: nat| #[trigger] r.spec_bit(i) == (i < 8 && !self.spec_bit(i)) by {
                if i < 8 {
                    lemma_bits_u8(self, self, i as u8);
                }
            }
        }
        r
    }

    fn mask(n: u32) -> (r: Self) {
        if n == 8 {
            let r: u8 = !0;
            proof {
                assert forall|i: nat| #[trigger] r.spec_bit(i) == (i < n) by {
                    if i < 8 {
                        lemma_bits_u8(0, 0, i as u8);
                    }
                }
            }
            r
        } else {
            let k = n as u8;
            proof {
                lemma_bits_u8(k, k, 0);
            }
            let r: u8 = (1u8 << k) - 1;
            proof {
                assert forall|i: nat| #[trigger] r.spec_bit(i) == (i < n) by {
                    if i < 8 {
                        lemma_bits_u8(k, k, i as u8);
                    }
                }
            }
            r
        }
    }

    fn single(i: u32) -> (r: Self) {
        let k = i as u8;
        let r: u8 = 1u8 << k;
        proof {
            assert forall|j: nat| #[trigger] r.spec_bit(j) == (j == i) by {
                if j < 8 {
                    lemma_bits_u8(k, k, j as u8);
                }
            }
        }
        r
    }
}

/// Relies on `u16::count_ones`: the number of ones in the binary representation.
#[verifier::external_body]
fn count_ones_u16(x: u16) -> (r: u32)
    ensures
        r as nat == Set::new(|i: nat| i < 16 && (x >> (i as u16)) & 1 == 1).len(),
{
    x.count_ones()
}

/// Bit `i` of the results of the `u16` operations.
proof fn lemma_bits_u16(a: u16, b: u16, i: u16)
    by (bit_vector)
    requires
        i < 16,
    ensures
        ((a & b) >> i) & 1 == 1 <==> ((a >> i) & 1 == 1 && (b >> i) & 1 == 1),
        ((a | b) >> i) & 1 == 1 <==> ((a >> i) & 1 == 1 || (b >> i) & 1 == 1),
        ((a ^ b) >> i) & 1 == 1 <==> ((a >> i) & 1 == 1) != ((b >> i) & 1 == 1),
        ((!a) >> i) & 1 == 1 <==> !((a >> i) & 1 == 1),
        !((0u16 >> i) & 1 == 1),
        ((!0u16) >> i) & 1 == 1,
        a < 16 ==> ((((1u16 << a) >> i) & 1 == 1) <==> a == i),
        a < 16 ==> (1u16 << a) >= 1,
        a < 16 ==> (((((1u16 << a) - 1) as u16 >> i) & 1 == 1) <==> i < a),
{
}

impl Wordlike for u16 {
    open spec fn spec_bit(self, i: nat) -> bool {
        i < 16 && (self >> (i as u16)) & 1 == 1
    }

    open spec fn width() -> nat {
        16
    }

    proof fn lemma_width() {
        assert(Self::width() == 16);
        assert forall|w: u16, i: nat| #[trigger] w.spec_bit(i) implies i < 16 by {}
    }

    fn zero() -> (r: Self) {
        proof {
            assert forall|i: nat| !#[trigger] 0u16.spec_bit(i) by {
                if i < 16 {
                    lemma_bits_u16(0, 0, i as u16);
                }
            }
        }
        0
    }

    fn count_ones(this: Self) -> (r: u32) {
        let r = count_ones_u16(this);
        proof {
            assert(Set::new(|i: nat| this.spec_bit(i)) =~= Set::new(
                |i: nat| i < 16 && (this >> (i as u16)) & 1 == 1,
            ));
        }
        r
    }

    fn and(self, other: Self) -> (r: Self) {
        let r = self & other;
        proof {
            assert forall|i: nat| #[trigger] r.spec_bit(i) == (self.spec_bit(i) && other.spec_bit(i)) by {
                if i < 16 {
                    lemma_bits_u16(self, other, i as u16);
                }
            }
        }
        r
    }

    fn or(self, other: Self) -> (r: Self) {
        let r = self | other;
        proof {
            assert forall|i: nat| #[trigger] r.spec_bit(i) == (self.spec_bit(i) || other.spec_bit(i)) by {
                if i < 16 {
                    lemma_bits_u16(self, other, i as u16);
                }
            }
        }
        r
    }

    fn xor(self, other: Self) -> (r: Self) {
        let r = self ^ other;
        proof {
            assert forall|i: nat| #[trigger] r.spec_bit(i) == (self.spec_bit(i) != other.spec_bit(i)) by {
                if i < 16 {
                    lemma_bits_u16(self, other, i as u16);
                }
            }
        }
        r
    }

    fn not(self) -> (r: Self) {
        let r = !self;
        proof {
            assert forall|i: nat| #[trigger] r.spec_bit(i) == (i < 16 && !self.spec_bit(i)) by {
                if i < 16 {
                    lemma_bits_u16(self, self, i as u16);
                }
            }
        }
        r
    }

    fn mask(n: u32) -> (r: Self) {
        if n == 16 {
            let r: u16 = !0;
            proof {
                assert forall|i: nat| #[trigger] r.spec_bit(i) == (i < n) by {
                    if i < 16 {
                        lemma_bits_u16(0, 0, i as u16);
                    }
                }
            }
            r
        } else {
            let k = n as u16;
            proof {
                lemma_bits_u16(k, k, 0);
            }
            let r: u16 = (1u16 << k) - 1;
            proof {
                assert forall|i: nat| #[trigger] r.spec_bit(i) == (i < n) by {
                    if i < 16 {
                        lemma_bits_u16(k, k, i as u16);
                    }
                }
            }
            r
        }
    }

    fn single(i: u32) -> (r: Self) {
        let k = i as u16;
        let r: u16 = 1u16 << k;
        proof {
            assert forall|j: nat| #[trigger] r.spec_bit(j) == (j == i) by {
                if j < 16 {
                    lemma_bits_u16(k, k, j as u16);
                }
            }
        }
        r
    }
}

/// Relies on `u32::count_ones`: the number of ones in the binary representation.
#[verifier::external_body]
fn count_ones_u32(x: u32) -> (r: u32)
    ensures
        r as nat == Set::new(|i: nat| i < 32 && (x >> (i as u32)) & 1 == 1).len(),
{
    x.count_ones()
}

/// Bit `i` of the results of the `u32` operations.
proof fn lemma_bits_u32(a: u32, b: u32, i: u32)
    by (bit_vector)
    requires
        i < 32,
    ensures
        ((a & b) >> i) & 1 == 1 <==> ((a >> i) & 1 == 1 && (b >> i) & 1 == 1),
        ((a | b) >> i) & 1 == 1 <==> ((a >> i) & 1 == 1 || (b >> i) & 1 == 1),
        ((a ^ b) >> i) & 1 == 1 <==> ((a >> i) & 1 == 1) != ((b >> i) & 1 == 1),
        ((!a) >> i) & 1 == 1 <==> !((a >> i) & 1 == 1),
        !((0u32 >> i) & 1 == 1),
        ((!0u32) >> i) & 1 == 1,
        a < 32 ==> ((((1u32 << a) >> i) & 1 == 1) <==> a == i),
        a < 32 ==> (1u32 << a) >= 1,
        a < 32 ==> (((((1u32 << a) - 1) as u32 >> i) & 1 == 1) <==> i < a),
{
}

impl Wordlike for u32 {
    open spec fn spec_bit(self, i: nat) -> bool {
        i < 32 && (self >> (i as u32)) & 1 == 1
    }

    open spec fn width() -> nat {
        32
    }

    proof fn lemma_width() {
        assert(Self::width() == 32);
        assert forall|w: u32, i: nat| #[trigger] w.spec_bit(i) implies i < 32 by {}
    }

    fn zero() -> (r: Self) {
        proof {
            assert forall|i: nat| !#[trigger] 0u32.spec_bit(i) by {
                if i < 32 {
                    lemma_bits_u32(0, 0, i as u32);
                }
            }
        }
        0
    }

    fn count_ones(this: Self) -> (r: u32) {
        let r = count_ones_u32(this);
        proof {
            assert(Set::new(|i: nat| this.spec_bit(i)) =~= Set::new(
                |i: nat| i < 32 && (this >> (i as u32)) & 1 == 1,
            ));
        }
        r
    }

    fn and(self, other: Self) -> (r: Self) {
        let r = self & other;
        proof {
            assert forall|i: nat| #[trigger] r.spec_bit(i) == (self.spec_bit(i) && other.spec_bit(i)) by {
                if i < 32 {
                    lemma_bits_u32(self, other, i as u32);
                }
            }
        }
        r
    }

    fn or(self, other: Self) -> (r: Self) {
        let r = self | other;
        proof {
            assert forall|i: nat| #[trigger] r.spec_bit(i) == (self.spec_bit(i) || other.spec_bit(i)) by {
                if i < 32 {
                    lemma_bits_u32(self, other, i as u32);
                }
            }
        }
        r
    }

    fn xor(self, other: Self) -> (r: Self) {
        let r = self ^ other;
        proof {
            assert forall|i: nat| #[trigger] r.spec_bit(i) == (self.spec_bit(i) != other.spec_bit(i)) by {
                if i < 32 {
                    lemma_bits_u32(self, other, i as u32);
                }
            }
        }
        r
    }

    fn not(self) -> (r: Self) {
        let r = !self;
        proof {
            assert forall|i: nat| #[trigger] r.spec_bit(i) == (i < 32 && !self.spec_bit(i)) by {
                if i < 32 {
                    lemma_bits_u32(self, self, i as u32);
                }
            }
        }
        r
    }

    fn mask(n: u32) -> (r: Self) {
        if n == 32 {
            let r: u32 = !0;
            proof {
                assert forall|i: nat| #[trigger] r.spec_bit(i) == (i < n) by {
                    if i < 32 {
                        lemma_bits_u32(0, 0, i as u32);
                    }
                }
            }
            r
        } else {
            let k = n as u32;
            proof {
                lemma_bits_u32(k, k, 0);
            }
            let r: u32 = (1u32 << k) - 1;
            proof {
                assert forall|i: nat| #[trigger] r.spec_bit(i) == (i < n) by {
                    if i < 32 {
                        lemma_bits_u32(k, k, i as u32);
                    }
                }
            }
            r
        }
    }

    fn single(i: u32) -> (r: Self) {
        let k = i as u32;
        let r: u32 = 1u32 << k;
        proof {
            assert forall|j: nat| #[trigger] r.spec_bit(j) == (j == i) by {
                if j < 32 {
                    lemma_bits_u32(k, k, j as u32);
                }
            }
        }
        r
    }
}

/// Relies on `u64::count_ones`: the number of ones in the binary representation.
#[verifier::external_body]
fn count_ones_u64(x: u64) -> (r: u32)
    ensures
        r as nat == Set::new(|i: nat| i < 64 && (x >> (i as u64)) & 1 == 1).len(),
{
    x.count_ones()
}

/// Bit `i` of the results of the `u64` operations.
proof fn lemma_bits_u64(a: u64, b: u64, i: u64)
    by (bit_vector)
    requires
        i < 64,
    ensures
        ((a & b) >> i) & 1 == 1 <==> ((a >> i) & 1 == 1 && (b >> i) & 1 == 1),
        ((a | b) >> i) & 1 == 1 <==> ((a >> i) & 1 == 1 || (b >> i) & 1 == 1),
        ((a ^ b) >> i) & 1 == 1 <==> ((a >> i) & 1 == 1) != ((b >> i) & 1 == 1),
        ((!a) >> i) & 1 == 1 <==> !((a >> i) & 1 == 1),
        !((0u64 >> i) & 1 == 1),
        ((!0u64) >> i) & 1 == 1,
        a < 64 ==> ((((1u64 << a) >> i) & 1 == 1) <==> a == i),
        a < 64 ==> (1u64 << a) >= 1,
        a < 64 ==> (((((1u64 << a) - 1) as u64 >> i) & 1 == 1) <==> i < a),
{
}

impl Wordlike for u64 {
    open spec fn spec_bit(self, i: nat) -> bool {
        i < 64 && (self >> (i as u64)) & 1 == 1
    }

    open spec fn width() -> nat {
        64
    }

    proof fn lemma_width() {
        assert(Self::width() == 64);
        assert forall|w: u64, i: nat| #[trigger] w.spec_bit(i) implies i < 64 by {}
    }

    fn zero() -> (r: Self) {
        proof {
            assert forall|i: nat| !#[trigger] 0u64.spec_bit(i) by {
                if i < 64 {
                    lemma_bits_u64(0, 0, i as u64);
                }
            }
        }
        0
    }

    fn count_ones(this: Self) -> (r: u32) {
        let r = count_ones_u64(this);
        proof {
            assert(Set::new(|i: nat| this.spec_bit(i)) =~= Set::new(
                |i: nat| i < 64 && (this >> (i as u64)) & 1 == 1,
            ));
        }
        r
    }

    fn and(self, other: Self) -> (r: Self) {
        let r = self & other;
        proof {
            assert forall|i: nat| #[trigger] r.spec_bit(i) == (self.spec_bit(i) && other.spec_bit(i)) by {
                if i < 64 {
                    lemma_bits_u64(self, other, i as u64);
                }
            }
        }
        r
    }

    fn or(self, other: Self) -> (r: Self) {
        let r = self | other;
        proof {
            assert forall|i: nat| #[trigger] r.spec_bit(i) == (self.spec_bit(i) || other.spec_bit(i)) by {
                if i < 64 {
                    lemma_bits_u64(self, other, i as u64);
                }
            }
        }
        r
    }

    fn xor(self, other: Self) -> (r: Self) {
        let r = self ^ other;
        proof {
            assert forall|i: nat| #[trigger] r.spec_bit(i) == (self.spec_bit(i) != other.spec_bit(i)) by {
                if i < 64 {
                    lemma_bits_u64(self, other, i as u64);
                }
            }
        }
        r
    }

    fn not(self) -> (r: Self) {
        let r = !self;
        proof {
            assert forall|i: nat| #[trigger] r.spec_bit(i) == (i < 64 && !self.spec_bit(i)) by {
                if i < 64 {
                    lemma_bits_u64(self, self, i as u64);
                }
            }
        }
        r
    }

    fn mask(n: u32) -> (r: Self) {
        if n == 64 {
            let r: u64 = !0;
            proof {
                assert forall|i: nat| #[trigger] r.spec_bit(i) == (i < n) by {
                    if i < 64 {
                        lemma_bits_u64(0, 0, i as u64);
                    }
                }
            }
            r
        } else {
            let k = n as u64;
            proof {
                lemma_bits_u64(k, k, 0);
            }
            let r: u64 = (1u64 << k) - 1;
            proof {
                assert forall|i: nat| #[trigger] r.spec_bit(i) == (i < n) by {
                    if i < 64 {
                        lemma_bits_u64(k, k, i as u64);
                    }
                }
            }
            r
        }
    }

    fn single(i: u32) -> (r: Self) {
        let k = i as u64;
        let r: u64 = 1u64 << k;
        proof {
            assert forall|j: nat| #[trigger] r.spec_bit(j) == (j == i) by {
                if j < 64 {
                    lemma_bits_u64(k, k, j as u64);
                }
            }
        }
        r
    }
}

/// Relies on `u128::count_ones`: the number of ones in the binary representation.
#[verifier::external_body]
fn count_ones_u128(x: u128) -> (r: u32)
    ensures
        r as nat == Set::new(|i: nat| i < 128 && (x >> (i as u128)) & 1 == 1).len(),
{
    x.count_ones()
}

/// Bit `i` of the results of the `u128` operations.
proof fn lemma_bits_u128(a: u128, b: u128, i: u128)
    by (bit_vector)
    requires
        i < 128,
    ensures
        ((a & b) >> i) & 1 == 1 <==> ((a >> i) & 1 == 1 && (b >> i) & 1 == 1),
        ((a | b) >> i) & 1 == 1 <==> ((a >> i) & 1 == 1 || (b >> i) & 1 == 1),
        ((a ^ b) >> i) & 1 == 1 <==> ((a >> i) & 1 == 1) != ((b >> i) & 1 == 1),
        ((!a) >> i) & 1 == 1 <==> !((a >> i) & 1 == 1),
        !((0u128 >> i) & 1 == 1),
        ((!0u128) >> i) & 1 == 1,
        a < 128 ==> ((((1u128 << a) >> i) & 1 == 1) <==> a == i),
        a < 128 ==> (1u128 << a) >= 1,
        a < 128 ==> (((((1u128 << a) - 1) as u128 >> i) & 1 == 1) <==> i < a),
{
}

impl Wordlike for u128 {
    open spec fn spec_bit(self, i: nat) -> bool {
        i < 128 && (self >> (i as u128)) & 1 == 1
    }

    open spec fn width() -> nat {
        128
    }

    proof fn lemma_width() {
        assert(Self::width() == 128);
        assert forall|w: u128, i: nat| #[trigger] w.spec_bit(i) implies i < 128 by {}
    }

    fn zero() -> (r: Self) {
        proof {
            assert forall|i: nat| !#[trigger] 0u128.spec_bit(i) by {
                if i < 128 {
                    lemma_bits_u128(0, 0, i as u128);
                }
            }
        }
        0
    }

    fn count_ones(this: Self) -> (r: u32) {
        let r = count_ones_u128(this);
        proof {
            assert(Set::new(|i: nat| this.spec_bit(i)) =~= Set::new(
                |i: nat| i < 128 && (this >> (i as u128)) & 1 == 1,
            ));
        }
        r
    }

    fn and(self, other: Self) -> (r: Self) {
        let r = self & other;
        proof {
            assert forall|i: nat| #[trigger] r.spec_bit(i) == (self.spec_bit(i) && other.spec_bit(i)) by {
                if i < 128 {
                    lemma_bits_u128(self, other, i as u128);
                }
            }
        }
        r
    }

    fn or(self, other: Self) -> (r: Self) {
        let r = self | other;
        proof {
            assert forall|i: nat| #[trigger] r.spec_bit(i) == (self.spec_bit(i) || other.spec_bit(i)) by {
                if i < 128 {
                    lemma_bits_u128(self, other, i as u128);
                }
            }
        }
        r
    }

    fn xor(self, other: Self) -> (r: Self) {
        let r = self ^ other;
        proof {
            assert forall|i: nat| #[trigger] r.spec_bit(i) == (self.spec_bit(i) != other.spec_bit(i)) by {
                if i < 128 {
                    lemma_bits_u128(self, other, i as u128);
                }
            }
        }
        r
    }

    fn not(self) -> (r: Self) {
        let r = !self;
        proof {
            assert forall|i: nat| #[trigger] r.spec_bit(i) == (i < 128 && !self.spec_bit(i)) by {
                if i < 128 {
                    lemma_bits_u128(self, self, i as u128);
                }
            }
        }
        r
    }

    fn mask(n: u32) -> (r: Self) {
        if n == 128 {
            let r: u128 = !0;
            proof {
                assert forall|i: nat| #[trigger] r.spec_bit(i) == (i < n) by {
                    if i < 128 {
                        lemma_bits_u128(0, 0, i as u128);
                    }
                }
            }
            r
        } else {
            let k = n as u128;
            proof {
                lemma_bits_u128(k, k, 0);
            }
            let r: u128 = (1u128 << k) - 1;
            proof {
                assert forall|i: nat| #[trigger] r.spec_bit(i) == (i < n) by {
                    if i < 128 {
                        lemma_bits_u128(k, k, i as u128);
                    }
                }
            }
            r
        }
    }

    fn single(i: u32) -> (r: Self) {
        let k = i as u128;
        let r: u128 = 1u128 << k;
        proof {
            assert forall|j: nat| #[trigger] r.spec_bit(j) == (j == i) by {
                if j < 128 {
                    lemma_bits_u128(k, k, j as u128);
                }
            }
        }
        r
    }
}

} // verus!
