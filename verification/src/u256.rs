//! Fixed-width 256-bit unsigned integers.
//!
//! A `U256` is four 64-bit limbs in little-endian limb order; every value is
//! interpreted through the spec function [`U256::as_nat`].  All ring
//! operations wrap silently modulo 2^256, as the mathematical contracts
//! state.

use vstd::prelude::*;
use vstd::arithmetic::div_mod::lemma_fundamental_div_mod;
use vstd::arithmetic::div_mod::lemma_small_mod;
use vstd::arithmetic::div_mod::lemma_mod_multiples_vanish;
use vstd::arithmetic::div_mod::lemma_mod_sub_multiples_vanish;
use vstd::arithmetic::mul::lemma_mul_is_associative;
use vstd::arithmetic::mul::lemma_mul_is_distributive_add;
use vstd::arithmetic::mul::lemma_mul_is_distributive_add_other_way;
use vstd::arithmetic::mul::lemma_mul_inequality;
use vstd::arithmetic::power2::pow2;
use vstd::arithmetic::power2::lemma_pow2_adds;
use vstd::arithmetic::power2::lemma_pow2_unfold;
use vstd::arithmetic::power2::lemma_pow2_strictly_increases;
use vstd::arithmetic::power2::lemma2_to64;
use vstd::arithmetic::power2::lemma2_to64_rest;
use core::cmp::Ordering;

verus! {

/// The value of the bit suffix `s[i..]`, least-significant bit first.
pub open spec fn bits_val_from(s: Seq<bool>, i: int) -> nat
    decreases s.len() - i,
{
    if 0 <= i < s.len() {
        (if s[i] { 1nat } else { 0nat }) + 2 * bits_val_from(s, i + 1)
    } else {
        0
    }
}

/// Appending a bit on the most-significant end adds its weighted value.
pub proof fn lemma_bits_val_push(s: Seq<bool>, b: bool, i: int)
    requires
        0 <= i <= s.len(),
    ensures
        bits_val_from(s.push(b), i)
            == bits_val_from(s, i) + (if b { 1nat } else { 0nat }) * pow2((s.len() - i) as nat),
    decreases s.len() - i,
{
    let t = s.push(b);
    if i == s.len() {
        assert(t[i] == b);
        assert(bits_val_from(t, i + 1) == 0);
        assert(pow2(0) == 1) by { lemma2_to64(); }
    } else {
        lemma_bits_val_push(s, b, i + 1);
        assert(t[i] == s[i]);
        lemma_pow2_unfold((s.len() - i) as nat);
        if b {
            assert(2 * (bits_val_from(s, i + 1) + pow2((s.len() - i - 1) as nat))
                == 2 * bits_val_from(s, i + 1) + 2 * pow2((s.len() - i - 1) as nat));
        }
    }
}

/// A bit suffix of length `n` is worth less than `2^n`.
pub proof fn lemma_bits_val_upper(s: Seq<bool>, i: int)
    requires
        0 <= i <= s.len(),
    ensures
        bits_val_from(s, i) < pow2((s.len() - i) as nat),
    decreases s.len() - i,
{
    if i == s.len() {
        assert(pow2(0) == 1) by { lemma2_to64(); }
    } else {
        lemma_bits_val_upper(s, i + 1);
        lemma_pow2_unfold((s.len() - i) as nat);
    }
}

/// When every bit at or above `k` is clear, the suffix from `i <= k` is worth
/// less than `2^(k - i)`.
pub proof fn lemma_bits_val_upper_cleared(s: Seq<bool>, i: int, k: int)
    requires
        0 <= i <= k <= s.len(),
        forall|j: int| k <= j < s.len() ==> !s[j],
    ensures
        bits_val_from(s, i) < pow2((k - i) as nat),
    decreases s.len() - i,
{
    if i == k {
        lemma_bits_val_zero_suffix(s, i);
        assert(pow2(0) == 1) by { lemma2_to64(); }
    } else {
        lemma_bits_val_upper_cleared(s, i + 1, k);
        lemma_pow2_unfold((k - i) as nat);
    }
}

/// A suffix of cleared bits is worth nothing.
pub proof fn lemma_bits_val_zero_suffix(s: Seq<bool>, i: int)
    requires
        0 <= i <= s.len(),
        forall|j: int| i <= j < s.len() ==> !s[j],
    ensures
        bits_val_from(s, i) == 0,
    decreases s.len() - i,
{
    if i < s.len() {
        lemma_bits_val_zero_suffix(s, i + 1);
    }
}

/// A set bit at position `j` puts the suffix value at or above `2^(j - i)`.
pub proof fn lemma_bits_val_lower(s: Seq<bool>, i: int, j: int)
    requires
        0 <= i <= j < s.len(),
        s[j],
    ensures
        bits_val_from(s, i) >= pow2((j - i) as nat),
    decreases j - i,
{
    if i == j {
        assert(pow2(0) == 1) by { lemma2_to64(); }
    } else {
        lemma_bits_val_lower(s, i + 1, j);
        lemma_pow2_unfold((j - i) as nat);
    }
}

/// The value of the byte suffix `s[i..]`, least-significant byte first.
pub open spec fn le_bytes_val_from(s: Seq<u8>, i: int) -> nat
    decreases s.len() - i,
{
    if 0 <= i < s.len() {
        (s[i] + 0x100 * le_bytes_val_from(s, i + 1)) as nat
    } else {
        0
    }
}

/// Eight consecutive bytes gather into one 64-bit digit.
proof fn lemma_le_bytes_limb(s: Seq<u8>, i: int)
    requires
        0 <= i,
        i + 8 <= s.len(),
    ensures
        le_bytes_val_from(s, i) == s[i]
            + s[i + 1] * 0x100
            + s[i + 2] * 0x1_0000
            + s[i + 3] * 0x100_0000
            + s[i + 4] * 0x1_0000_0000
            + s[i + 5] * 0x100_0000_0000
            + s[i + 6] * 0x1_0000_0000_0000
            + s[i + 7] * 0x100_0000_0000_0000
            + 0x1_0000_0000_0000_0000 * le_bytes_val_from(s, i + 8),
{
    assert(le_bytes_val_from(s, i) == s[i] + 0x100 * le_bytes_val_from(s, i + 1));
    assert(le_bytes_val_from(s, i + 1) == s[i + 1] + 0x100 * le_bytes_val_from(s, i + 2));
    assert(le_bytes_val_from(s, i + 2) == s[i + 2] + 0x100 * le_bytes_val_from(s, i + 3));
    assert(le_bytes_val_from(s, i + 3) == s[i + 3] + 0x100 * le_bytes_val_from(s, i + 4));
    assert(le_bytes_val_from(s, i + 4) == s[i + 4] + 0x100 * le_bytes_val_from(s, i + 5));
    assert(le_bytes_val_from(s, i + 5) == s[i + 5] + 0x100 * le_bytes_val_from(s, i + 6));
    assert(le_bytes_val_from(s, i + 6) == s[i + 6] + 0x100 * le_bytes_val_from(s, i + 7));
    assert(le_bytes_val_from(s, i + 7) == s[i + 7] + 0x100 * le_bytes_val_from(s, i + 8));
}

/// The canonical 32-byte little-endian encoding of a value.
pub open spec fn nat_le_bytes32(v: nat) -> Seq<u8> {
    Seq::new(32, |i: int| ((v / pow2((8 * i) as nat)) % 0x100) as u8)
}

/// The value of the canonical encoding is the value itself.
pub proof fn lemma_nat_le_bytes32_val(v: nat)
    requires
        v < radix256(),
    ensures
        le_bytes_val_from(nat_le_bytes32(v), 0) == v,
{
    lemma_pow2_named();
    lemma_le_tail(v, 0);
    assert(pow2(0) == 1) by { lemma2_to64(); }
    vstd::arithmetic::div_mod::lemma_div_basics(v as int);
}

/// Little-endian digit runs are determined by their value.
pub proof fn lemma_le_bytes_unique(s1: Seq<u8>, s2: Seq<u8>, i: int)
    requires
        s1.len() == s2.len(),
        0 <= i <= s1.len(),
        le_bytes_val_from(s1, i) == le_bytes_val_from(s2, i),
    ensures
        s1.skip(i) =~= s2.skip(i),
    decreases s1.len() - i,
{
    if i < s1.len() {
        let v: nat = le_bytes_val_from(s1, i);
        assert(s1[i] == v % 0x100 && s2[i] == v % 0x100) by {
            lemma_mod_multiples_vanish(
                le_bytes_val_from(s1, i + 1) as int,
                s1[i] as int,
                0x100,
            );
            lemma_small_mod(s1[i] as nat, 0x100);
            lemma_mod_multiples_vanish(
                le_bytes_val_from(s2, i + 1) as int,
                s2[i] as int,
                0x100,
            );
            lemma_small_mod(s2[i] as nat, 0x100);
        }
        assert(le_bytes_val_from(s1, i + 1) == le_bytes_val_from(s2, i + 1));
        lemma_le_bytes_unique(s1, s2, i + 1);
        assert forall|t: int| 0 <= t < s1.len() - i
            implies s1.skip(i)[t] == s2.skip(i)[t] by {
            if t > 0 {
                assert(s1.skip(i + 1)[t - 1] == s2.skip(i + 1)[t - 1]);
            }
        }
        assert(s1.skip(i) =~= s2.skip(i));
    } else {
        assert(s1.skip(i) =~= s2.skip(i));
    }
}

/// The suffix of the canonical encoding from byte `j` carries `v / 2^(8 j)`.
proof fn lemma_le_tail(v: nat, j: int)
    requires
        v < pow2(256),
        0 <= j <= 32,
    ensures
        le_bytes_val_from(nat_le_bytes32(v), j) == v / pow2((8 * j) as nat),
    decreases 32 - j,
{
    let s = nat_le_bytes32(v);
    if j == 32 {
        lemma_pow2_named();
        assert(v / pow2(256) == 0) by {
            vstd::arithmetic::power2::lemma_pow2_pos(256);
            vstd::arithmetic::div_mod::lemma_basic_div(v as int, pow2(256) as int);
        }
    } else {
        lemma_le_tail(v, j + 1);
        let x: nat = v / pow2((8 * j) as nat);
        vstd::arithmetic::power2::lemma_pow2_pos((8 * j) as nat);
        vstd::arithmetic::power2::lemma_pow2_pos(8);
        lemma_pow2_adds((8 * j) as nat, 8);
        vstd::arithmetic::div_mod::lemma_div_denominator(
            v as int,
            pow2((8 * j) as nat) as int,
            0x100,
        );
        assert(pow2(8) == 0x100) by { lemma2_to64(); }
        lemma_fundamental_div_mod(x as int, 0x100);
        assert(s[j] == x % 0x100);
        assert(x / 0x100 == v / pow2((8 * j + 8) as nat));
    }
}

/// The value named by a 32-byte little-endian run fits in 256 bits.
pub proof fn lemma_le_bytes_bound(s: Seq<u8>, i: int)
    requires
        0 <= i <= s.len(),
    ensures
        le_bytes_val_from(s, i) < pow2((8 * (s.len() - i)) as nat),
    decreases s.len() - i,
{
    if i == s.len() {
        assert(pow2(0) == 1) by { lemma2_to64(); }
    } else {
        lemma_le_bytes_bound(s, i + 1);
        lemma_pow2_adds((8 * (s.len() - i - 1)) as nat, 8);
        assert(pow2(8) == 0x100) by { lemma2_to64(); }
        let t: nat = le_bytes_val_from(s, i + 1);
        let c: nat = pow2((8 * (s.len() - i - 1)) as nat);
        assert(s[i] + 0x100 * t < 0x100 * c) by (nonlinear_arith)
            requires
                s[i] < 0x100,
                t < c,
        ;
        assert(c * 0x100 == 0x100 * c) by (nonlinear_arith);
    }
}

/// The integer with the given value, as limbs.
pub closed spec fn u256_of_nat(v: nat) -> U256 {
    U256 {
        d0: (v % 0x1_0000_0000_0000_0000) as u64,
        d1: ((v / 0x1_0000_0000_0000_0000) % 0x1_0000_0000_0000_0000) as u64,
        d2: ((v / 0x1_0000_0000_0000_0000_0000_0000_0000_0000nat)
            % 0x1_0000_0000_0000_0000) as u64,
        d3: ((v / 0x1_0000_0000_0000_0000_0000_0000_0000_0000_0000_0000_0000_0000nat)
            % 0x1_0000_0000_0000_0000) as u64,
    }
}

/// `u256_of_nat` names the integer with exactly that value.
pub proof fn lemma_u256_of_nat(v: nat)
    requires
        v < radix256(),
    ensures
        u256_of_nat(v).as_nat() == v,
{
    let b: int = 0x1_0000_0000_0000_0000;
    let x: int = v as int;
    vstd::arithmetic::div_mod::lemma_div_denominator(x, b, b);
    vstd::arithmetic::div_mod::lemma_div_denominator(x, b * b, b);
    lemma_fundamental_div_mod(x, b);
    lemma_fundamental_div_mod(x / b, b);
    lemma_fundamental_div_mod(x / (b * b), b);
    assert(x / (b * b) / b == x / (b * b * b));
    assert(x / (b * b * b) < b) by {
        vstd::arithmetic::div_mod::lemma_multiply_divide_lt(x, b * b * b, b);
    }
    assert(x / (b * b * b) >= 0) by {
        vstd::arithmetic::div_mod::lemma_div_pos_is_pos(x, b * b * b);
    }
    lemma_small_mod((x / (b * b * b)) as nat, b as nat);
}

/// The powers of two this module keeps reaching for.
pub proof fn lemma_pow2_named()
    ensures
        pow2(64) == radix64(),
        pow2(256) == radix256(),
        pow2(255) * 2 == radix256(),
{
    lemma2_to64();
    lemma2_to64_rest();
    lemma_pow2_adds(64, 64);
    lemma_pow2_adds(128, 64);
    lemma_pow2_adds(192, 63);
    lemma_pow2_adds(255, 1);
    lemma_pow2_adds(192, 64);
    assert(pow2(1) == 2);
}

/// 2^64, the limb radix.
pub open spec fn radix64() -> nat {
    0x1_0000_0000_0000_0000nat
}

/// 2^256, the modulus of the whole ring.
pub open spec fn radix256() -> nat {
    0x1_0000_0000_0000_0000_0000_0000_0000_0000_0000_0000_0000_0000_0000_0000_0000_0000nat
}

/// Every `U256` value sits below 2^256.
pub broadcast proof fn lemma_u256_nat_bound(x: U256)
    ensures
        #[trigger] x.as_nat() < radix256(),
{
}

/// A 256-bit unsigned integer: four 64-bit limbs, least significant first.
#[derive(Clone, Copy, PartialEq, Eq, Structural, Debug)]
pub struct U256 {
    d0: u64,
    d1: u64,
    d2: u64,
    d3: u64,
}

impl U256 {
    /// The mathematical value of this integer.
    pub closed spec fn as_nat(&self) -> nat {
        (self.d0
            + self.d1 * 0x1_0000_0000_0000_0000
            + self.d2 * 0x1_0000_0000_0000_0000_0000_0000_0000_0000
            + self.d3 * 0x1_0000_0000_0000_0000_0000_0000_0000_0000_0000_0000_0000_0000) as nat
    }

    /// Every value fits below 2^256.
    pub proof fn lemma_as_nat_bound(&self)
        ensures
            self.as_nat() < radix256(),
    {
    }

    /// Two integers with the same value are the same integer.
    pub proof fn lemma_as_nat_injective(a: U256, b: U256)
        ensures
            a.as_nat() == b.as_nat() ==> a == b,
    {
        if a.as_nat() == b.as_nat() {
            assert(a.d0 == b.d0 && a.d1 == b.d1 && a.d2 == b.d2 && a.d3 == b.d3) by {
                lemma_limbs_unique(a.d0, a.d1, a.d2, a.d3, b.d0, b.d1, b.d2, b.d3);
            }
        }
    }

    /// The zero value.
    pub fn new() -> (r: Self)
        ensures
            r.as_nat() == 0,
    {
        U256 { d0: 0, d1: 0, d2: 0, d3: 0 }
    }

    /// Embed a 64-bit value.
    pub fn from_u64(v: u64) -> (r: Self)
        ensures
            r.as_nat() == v,
    {
        U256 { d0: v, d1: 0, d2: 0, d3: 0 }
    }

    /// Sum modulo 2^256, with the carry out of the top limb.
    pub fn overflowing_add(self, other: Self) -> (r: (Self, bool))
        ensures
            r.0.as_nat() + (if r.1 { radix256() } else { 0nat }) == self.as_nat() + other.as_nat(),
    {
        let (s0, c0) = add_limb(self.d0, other.d0, 0);
        let (s1, c1) = add_limb(self.d1, other.d1, c0);
        let (s2, c2) = add_limb(self.d2, other.d2, c1);
        let (s3, c3) = add_limb(self.d3, other.d3, c2);
        (U256 { d0: s0, d1: s1, d2: s2, d3: s3 }, c3 == 1)
    }

    /// Sum modulo 2^256.
    pub fn wrapping_add(self, other: Self) -> (r: Self)
        ensures
            r.as_nat() == (self.as_nat() + other.as_nat()) % radix256(),
    {
        let (s, carry) = self.overflowing_add(other);
        proof {
            if carry {
                assert((self.as_nat() + other.as_nat()) % radix256() == s.as_nat()) by {
                    vstd::arithmetic::div_mod::lemma_mod_sub_multiples_vanish(
                        (self.as_nat() + other.as_nat()) as int,
                        radix256() as int,
                    );
                    vstd::arithmetic::div_mod::lemma_small_mod(s.as_nat(), radix256());
                }
            } else {
                vstd::arithmetic::div_mod::lemma_small_mod(s.as_nat(), radix256());
            }
        }
        s
    }

    /// Difference modulo 2^256 (wrapping below zero), with the borrow flag.
    pub fn overflowing_sub(self, other: Self) -> (r: (Self, bool))
        ensures
            r.0.as_nat() == self.as_nat() + (if r.1 { radix256() } else { 0nat }) - other.as_nat(),
            r.1 == (self.as_nat() < other.as_nat()),
    {
        let (s0, b0) = sub_limb(self.d0, other.d0, 0);
        let (s1, b1) = sub_limb(self.d1, other.d1, b0);
        let (s2, b2) = sub_limb(self.d2, other.d2, b1);
        let (s3, b3) = sub_limb(self.d3, other.d3, b2);
        let r = U256 { d0: s0, d1: s1, d2: s2, d3: s3 };
        proof {
            assert(r.as_nat() + other.as_nat()
                == self.as_nat() + (if b3 == 1 { radix256() } else { 0nat }));
        }
        (r, b3 == 1)
    }

    /// Difference modulo 2^256.
    pub fn wrapping_sub(self, other: Self) -> (r: Self)
        ensures
            r.as_nat() == ((self.as_nat() + radix256() - other.as_nat()) as nat) % radix256(),
    {
        let (s, borrow) = self.overflowing_sub(other);
        proof {
            let d: nat = (self.as_nat() + radix256() - other.as_nat()) as nat;
            if borrow {
                vstd::arithmetic::div_mod::lemma_small_mod(s.as_nat(), radix256());
            } else {
                assert(d == s.as_nat() + radix256());
                vstd::arithmetic::div_mod::lemma_mod_sub_multiples_vanish(d as int, radix256() as int);
                vstd::arithmetic::div_mod::lemma_small_mod(s.as_nat(), radix256());
            }
        }
        s
    }

    /// True when the value is zero.
    pub fn is_zero(&self) -> (r: bool)
        ensures
            r == (self.as_nat() == 0),
    {
        self.d0 == 0 && self.d1 == 0 && self.d2 == 0 && self.d3 == 0
    }

    /// True when the value is odd.
    pub fn is_odd(&self) -> (r: bool)
        ensures
            r == (self.as_nat() % 2 == 1),
    {
        proof {
            self.lemma_parity();
        }
        self.d0 % 2 == 1
    }

    /// The parity of the value is the parity of the lowest limb.
    proof fn lemma_parity(&self)
        ensures
            self.as_nat() % 2 == self.d0 % 2,
    {
        let k: int = 0x8000_0000_0000_0000 * self.d1
            + 0x8000_0000_0000_0000_0000_0000_0000_0000 * self.d2
            + 0x8000_0000_0000_0000_0000_0000_0000_0000_0000_0000_0000_0000 * self.d3;
        assert(self.as_nat() == 2 * k + self.d0);
        lemma_mod_multiples_vanish(k, self.d0 as int, 2);
        lemma_small_mod((self.d0 % 2) as nat, 2);
    }

    /// Halve the value, rounding down.
    pub fn half(&self) -> (r: Self)
        ensures
            self.as_nat() == 2 * r.as_nat() + self.as_nat() % 2,
    {
        let r = U256 {
            d0: self.d0 / 2 + (self.d1 % 2) * 0x8000_0000_0000_0000,
            d1: self.d1 / 2 + (self.d2 % 2) * 0x8000_0000_0000_0000,
            d2: self.d2 / 2 + (self.d3 % 2) * 0x8000_0000_0000_0000,
            d3: self.d3 / 2,
        };
        proof {
            self.lemma_parity();
            assert(self.as_nat() == 2 * r.as_nat() + self.d0 % 2);
        }
        r
    }

    /// The little-endian bit decomposition, all 256 positions.
    pub fn to_bits(&self) -> (bits: Vec<bool>)
        ensures
            bits@.len() == 256,
            bits_val_from(bits@, 0) == self.as_nat(),
    {
        let mut bits: Vec<bool> = Vec::new();
        let mut x: U256 = *self;
        proof {
            assert(pow2(0) == 1) by { lemma2_to64(); }
        }
        for j in 0..256usize
            invariant
                bits@.len() == j,
                self.as_nat() == bits_val_from(bits@, 0) + pow2(j as nat) * x.as_nat(),
        {
            let b = x.is_odd();
            let ghost old_bits = bits@;
            let ghost old_x = x;
            bits.push(b);
            x = x.half();
            proof {
                lemma_bits_val_push(old_bits, b, 0);
                assert(pow2(0) == 1) by { lemma2_to64(); }
                lemma_pow2_unfold((j + 1) as nat);
                assert(old_x.as_nat() == 2 * x.as_nat() + (if b { 1nat } else { 0nat }));
                assert(pow2(j as nat) * old_x.as_nat()
                    == pow2(j as nat) * (2 * x.as_nat()) + pow2(j as nat) * (if b { 1nat } else { 0nat }))
                by {
                    lemma_mul_is_distributive_add(
                        pow2(j as nat) as int,
                        2 * x.as_nat() as int,
                        (if b { 1int } else { 0int }),
                    );
                }
                assert(pow2(j as nat) * (2 * x.as_nat()) == pow2((j + 1) as nat) * x.as_nat()) by {
                    lemma_mul_is_associative(pow2(j as nat) as int, 2, x.as_nat() as int);
                }
                if b {
                    assert(pow2(j as nat) * 1nat == pow2(j as nat));
                }
            }
        }
        proof {
            lemma_pow2_named();
            if x.as_nat() > 0 {
                lemma_mul_inequality(1, x.as_nat() as int, pow2(256) as int);
                vstd::arithmetic::mul::lemma_mul_is_commutative(pow2(256) as int, x.as_nat() as int);
                assert(false);
            }
        }
        bits
    }

    /// Position of the highest set bit: zero for zero, else the unique `r`
    /// with `2^(r-1) <= value < 2^r`.
    pub fn highest_bit(&self) -> (r: usize)
        ensures
            r <= 256,
            self.as_nat() < pow2(r as nat),
            r == 0 ==> self.as_nat() == 0,
            r > 0 ==> pow2((r - 1) as nat) <= self.as_nat(),
    {
        let bits = self.to_bits();
        let mut i: usize = 256;
        while i > 0
            invariant
                i <= 256,
                bits@.len() == 256,
                bits_val_from(bits@, 0) == self.as_nat(),
                forall|j: int| i <= j < 256 ==> !bits@[j],
            decreases i,
        {
            i -= 1;
            if bits[i] {
                proof {
                    lemma_bits_val_lower(bits@, 0, i as int);
                    lemma_bits_val_upper_cleared(bits@, 0, i + 1);
                }
                return i + 1;
            }
        }
        proof {
            lemma_bits_val_zero_suffix(bits@, 0);
            assert(pow2(0) == 1) by { lemma2_to64(); }
        }
        0
    }

    /// How many leading zero bits the 256-bit representation has.
    pub fn leading_zeros(&self) -> (r: usize)
        ensures
            r <= 256,
            self.as_nat() < pow2((256 - r) as nat),
            r == 256 ==> self.as_nat() == 0,
            r < 256 ==> pow2((255 - r) as nat) <= self.as_nat(),
    {
        256 - self.highest_bit()
    }

    /// Euclidean division: quotient and remainder.
    pub fn div_rem(self, other: Self) -> (r: (Self, Self))
        requires
            other.as_nat() > 0,
        ensures
            self.as_nat() == r.0.as_nat() * other.as_nat() + r.1.as_nat(),
            r.1.as_nat() < other.as_nat(),
    {
        let bits = self.to_bits();
        let one = U256::from_u64(1);
        let d = other;
        let mut q = U256::new();
        let mut r = U256::new();
        let mut i: usize = 256;
        while i > 0
            invariant
                i <= 256,
                bits@.len() == 256,
                bits_val_from(bits@, 0) == self.as_nat(),
                one.as_nat() == 1,
                d == other,
                d.as_nat() > 0,
                q.as_nat() * d.as_nat() + r.as_nat() == bits_val_from(bits@, i as int),
                r.as_nat() < d.as_nat(),
            decreases i,
        {
            i -= 1;
            let bit = bits[i];
            let ghost qv = q.as_nat() as int;
            let ghost rv = r.as_nat() as int;
            let ghost dv = d.as_nat() as int;
            let ghost m: int = radix256() as int;
            let ghost bv: int = if bit { 1 } else { 0 };
            let ghost v: int = 2 * rv + bv;
            proof {
                // the suffix value at i, and the bound that keeps q from wrapping
                assert(bits_val_from(bits@, i as int) == bv + 2 * bits_val_from(bits@, i + 1));
                lemma_bits_val_upper(bits@, i + 1);
                lemma_mul_inequality(1, dv, qv);
                vstd::arithmetic::mul::lemma_mul_is_commutative(qv, dv);
                lemma_pow2_named();
                if i > 0 {
                    lemma_pow2_strictly_increases((256 - i) as nat, 256);
                }
                assert(pow2((255 - i) as nat) * 2 == pow2((256 - i) as nat)) by {
                    lemma_pow2_unfold((256 - i) as nat);
                }
                assert(2 * qv + 1 < m);
            }
            let (r2, ovf) = r.overflowing_add(r);
            let r2b = if bit {
                proof {
                    assert(r2.as_nat() == 2 * rv - (if ovf { m } else { 0int }));
                    assert(r2.as_nat() % 2 == 0) by {
                        let half: int = rv - (if ovf { m / 2 } else { 0int });
                        assert(r2.as_nat() == 2 * half);
                        lemma_mod_multiples_vanish(half, 0, 2);
                    }
                    lemma_small_mod((r2.as_nat() + 1) as nat, radix256());
                }
                r2.wrapping_add(one)
            } else {
                r2
            };
            proof {
                assert(r2b.as_nat() + (if ovf { m } else { 0int }) == v);
                assert(v < 2 * dv);
            }
            let (q2, qovf) = q.overflowing_add(q);
            proof {
                assert(!qovf);
            }
            if ovf || !(r2b < d) {
                proof {
                    // the subtracted value v - d lands in [0, d)
                    if ovf {
                        assert(r2b.as_nat() < dv);
                    }
                    assert(v - dv < dv);
                    assert(v - dv >= 0);
                    if r2b.as_nat() < dv {
                        lemma_small_mod((r2b.as_nat() + radix256() - d.as_nat()) as nat, radix256());
                    } else {
                        lemma_mod_sub_multiples_vanish(
                            r2b.as_nat() + m - dv,
                            m,
                        );
                        lemma_small_mod((r2b.as_nat() - d.as_nat()) as nat, radix256());
                    }
                    lemma_small_mod((q2.as_nat() + 1) as nat, radix256());
                }
                r = r2b.wrapping_sub(d);
                q = q2.wrapping_add(one);
                proof {
                    assert(r.as_nat() == v - dv);
                    assert(q.as_nat() == 2 * qv + 1);
                    assert(q.as_nat() * d.as_nat() + r.as_nat() == bits_val_from(bits@, i as int))
                    by {
                        lemma_mul_is_distributive_add_other_way(dv, 2 * qv, 1);
                        lemma_mul_is_associative(2, qv, dv);
                    }
                }
            } else {
                r = r2b;
                q = q2;
                proof {
                    assert(q.as_nat() == 2 * qv);
                    assert(q.as_nat() * d.as_nat() + r.as_nat() == bits_val_from(bits@, i as int))
                    by {
                        lemma_mul_is_associative(2, qv, dv);
                    }
                }
            }
        }
        (q, r)
    }

    /// Build from a 32-byte little-endian array.
    pub fn from_le_bytes(bytes: &[u8; 32]) -> (r: Self)
        ensures
            r.as_nat() == le_bytes_val_from(bytes@, 0),
            r == u256_of_nat(le_bytes_val_from(bytes@, 0)),
    {
        proof {
            lemma_le_bytes_bound(bytes@, 0);
            lemma_pow2_named();
            lemma_u256_of_nat(le_bytes_val_from(bytes@, 0));
        }
        let d0 = gather_limb(
            bytes[0], bytes[1], bytes[2], bytes[3], bytes[4], bytes[5], bytes[6], bytes[7],
        );
        let d1 = gather_limb(
            bytes[8], bytes[9], bytes[10], bytes[11], bytes[12], bytes[13], bytes[14], bytes[15],
        );
        let d2 = gather_limb(
            bytes[16], bytes[17], bytes[18], bytes[19], bytes[20], bytes[21], bytes[22], bytes[23],
        );
        let d3 = gather_limb(
            bytes[24], bytes[25], bytes[26], bytes[27], bytes[28], bytes[29], bytes[30], bytes[31],
        );
        let r = U256 { d0, d1, d2, d3 };
        proof {
            lemma_le_bytes_limb(bytes@, 0);
            lemma_le_bytes_limb(bytes@, 8);
            lemma_le_bytes_limb(bytes@, 16);
            lemma_le_bytes_limb(bytes@, 24);
            U256::lemma_as_nat_injective(r, u256_of_nat(le_bytes_val_from(bytes@, 0)));
        }
        r
    }

    /// Build from a 32-byte big-endian array.
    pub fn from_be_bytes(bytes: &[u8; 32]) -> (r: Self)
        ensures
            r.as_nat() == le_bytes_val_from(bytes@.reverse(), 0),
    {
        let rev: [u8; 32] = [
            bytes[31], bytes[30], bytes[29], bytes[28], bytes[27], bytes[26], bytes[25], bytes[24],
            bytes[23], bytes[22], bytes[21], bytes[20], bytes[19], bytes[18], bytes[17], bytes[16],
            bytes[15], bytes[14], bytes[13], bytes[12], bytes[11], bytes[10], bytes[9], bytes[8],
            bytes[7], bytes[6], bytes[5], bytes[4], bytes[3], bytes[2], bytes[1], bytes[0],
        ];
        proof {
            assert(rev@ =~= bytes@.reverse());
        }
        Self::from_le_bytes(&rev)
    }

    /// The 32-byte little-endian encoding.
    pub fn into_le_bytes(self) -> (r: [u8; 32])
        ensures
            r@.len() == 32,
            le_bytes_val_from(r@, 0) == self.as_nat(),
            r@ == nat_le_bytes32(self.as_nat()),
    {
        let a = scatter_limb(self.d0);
        let b = scatter_limb(self.d1);
        let c = scatter_limb(self.d2);
        let d = scatter_limb(self.d3);
        let r: [u8; 32] = [
            a.0, a.1, a.2, a.3, a.4, a.5, a.6, a.7,
            b.0, b.1, b.2, b.3, b.4, b.5, b.6, b.7,
            c.0, c.1, c.2, c.3, c.4, c.5, c.6, c.7,
            d.0, d.1, d.2, d.3, d.4, d.5, d.6, d.7,
        ];
        proof {
            lemma_le_bytes_limb(r@, 0);
            lemma_le_bytes_limb(r@, 8);
            lemma_le_bytes_limb(r@, 16);
            lemma_le_bytes_limb(r@, 24);
            lemma_nat_le_bytes32_val(self.as_nat());
            lemma_le_bytes_unique(r@, nat_le_bytes32(self.as_nat()), 0);
            assert(r@.skip(0) =~= r@);
            assert(nat_le_bytes32(self.as_nat()).skip(0) =~= nat_le_bytes32(self.as_nat()));
        }
        r
    }

    /// The 32-byte big-endian encoding.
    pub fn into_be_bytes(self) -> (r: [u8; 32])
        ensures
            r@.len() == 32,
            le_bytes_val_from(r@.reverse(), 0) == self.as_nat(),
    {
        let le = self.into_le_bytes();
        let r: [u8; 32] = [
            le[31], le[30], le[29], le[28], le[27], le[26], le[25], le[24],
            le[23], le[22], le[21], le[20], le[19], le[18], le[17], le[16],
            le[15], le[14], le[13], le[12], le[11], le[10], le[9], le[8],
            le[7], le[6], le[5], le[4], le[3], le[2], le[1], le[0],
        ];
        proof {
            assert(r@.reverse() =~= le@);
        }
        r
    }

    /// Build from four little-endian 64-bit limbs.
    pub fn from_le_u64_array(array: &[u64; 4]) -> (r: Self)
        ensures
            r.as_nat() == array@[0]
                + array@[1] * 0x1_0000_0000_0000_0000
                + array@[2] * 0x1_0000_0000_0000_0000_0000_0000_0000_0000
                + array@[3] * 0x1_0000_0000_0000_0000_0000_0000_0000_0000_0000_0000_0000_0000,
    {
        U256 { d0: array[0], d1: array[1], d2: array[2], d3: array[3] }
    }

    /// Build from four big-endian 64-bit limbs.
    pub fn from_be_u64_array(array: &[u64; 4]) -> (r: Self)
        ensures
            r.as_nat() == array@[3]
                + array@[2] * 0x1_0000_0000_0000_0000
                + array@[1] * 0x1_0000_0000_0000_0000_0000_0000_0000_0000
                + array@[0] * 0x1_0000_0000_0000_0000_0000_0000_0000_0000_0000_0000_0000_0000,
    {
        U256 { d0: array[3], d1: array[2], d2: array[1], d3: array[0] }
    }

    /// The four limbs, least significant first.
    pub fn into_le_u64_array(self) -> (r: [u64; 4])
        ensures
            r@.len() == 4,
            self.as_nat() == r@[0]
                + r@[1] * 0x1_0000_0000_0000_0000
                + r@[2] * 0x1_0000_0000_0000_0000_0000_0000_0000_0000
                + r@[3] * 0x1_0000_0000_0000_0000_0000_0000_0000_0000_0000_0000_0000_0000,
    {
        [self.d0, self.d1, self.d2, self.d3]
    }

    /// The four limbs, most significant first.
    pub fn into_be_u64_array(self) -> (r: [u64; 4])
        ensures
            r@.len() == 4,
            self.as_nat() == r@[3]
                + r@[2] * 0x1_0000_0000_0000_0000
                + r@[1] * 0x1_0000_0000_0000_0000_0000_0000_0000_0000
                + r@[0] * 0x1_0000_0000_0000_0000_0000_0000_0000_0000_0000_0000_0000_0000,
    {
        [self.d3, self.d2, self.d1, self.d0]
    }

    /// Logical left shift: multiply by `2^k` and wrap modulo 2^256.
    pub fn shl(self, k: u32) -> (r: Self)
        ensures
            k <= 256 ==> r.as_nat() == (self.as_nat() * pow2(k as nat)) % radix256(),
            k > 256 ==> r.as_nat() == 0,
    {
        if k > 256 {
            return U256::new();
        }
        let mut x = self;
        proof {
            assert(pow2(0) == 1) by { lemma2_to64(); }
            self.lemma_as_nat_bound();
            lemma_small_mod(self.as_nat(), radix256());
            vstd::arithmetic::mul::lemma_mul_basics(self.as_nat() as int);
            assert((self.as_nat() * pow2(0)) % radix256() == self.as_nat());
        }
        for j in 0..k
            invariant
                x.as_nat() == (self.as_nat() * pow2(j as nat)) % radix256(),
        {
            let ghost v: int = (self.as_nat() * pow2(j as nat)) as int;
            x = x.wrapping_add(x);
            proof {
                vstd::arithmetic::div_mod::lemma_add_mod_noop(v, v, radix256() as int);
                lemma_pow2_unfold((j + 1) as nat);
                lemma_mul_is_associative(self.as_nat() as int, 2, pow2(j as nat) as int);
                vstd::arithmetic::mul::lemma_mul_is_commutative(self.as_nat() as int, 2);
                lemma_mul_is_associative(2, self.as_nat() as int, pow2(j as nat) as int);
                assert(self.as_nat() * (2 * pow2(j as nat))
                    == 2 * (self.as_nat() * pow2(j as nat)));
            }
        }
        x
    }

    /// Logical right shift: divide by `2^k`, shifting in zeros.
    pub fn shr(self, k: u32) -> (r: Self)
        ensures
            k <= 256 ==> r.as_nat() == self.as_nat() / pow2(k as nat),
            k > 256 ==> r.as_nat() == 0,
    {
        if k > 256 {
            return U256::new();
        }
        let mut x = self;
        proof {
            assert(pow2(0) == 1) by { lemma2_to64(); }
            vstd::arithmetic::div_mod::lemma_div_basics(self.as_nat() as int);
        }
        for j in 0..k
            invariant
                x.as_nat() == self.as_nat() / pow2(j as nat),
        {
            let ghost before: nat = x.as_nat();
            x = x.half();
            proof {
                assert(x.as_nat() == before / 2);
                vstd::arithmetic::power2::lemma_pow2_pos(j as nat);
                vstd::arithmetic::div_mod::lemma_div_denominator(
                    self.as_nat() as int,
                    pow2(j as nat) as int,
                    2,
                );
                lemma_pow2_adds(j as nat, 1);
                assert(pow2(1) == 2) by { lemma2_to64(); }
            }
        }
        x
    }

    /// A uniformly random 256-bit value from the process-wide generator.
    pub fn random() -> (r: Self) {
        let bytes = random_bytes_32();
        Self::from_le_bytes(&bytes)
    }

    /// Rejection-sample a value in `[min, max)`.  Gives up (returning
    /// `None`) only after a generous retry threshold, so that a degenerate
    /// range surfaces as an internal fault instead of an endless loop.
    pub fn random_in_range(min: Self, max: Self) -> (r: Option<Self>)
        requires
            min.as_nat() < max.as_nat(),
        ensures
            r matches Some(v) ==> min.as_nat() <= v.as_nat() < max.as_nat(),
    {
        let mut tries: u32 = 0;
        while tries < 100000
            invariant
                true,
            decreases 100000 - tries,
        {
            let candidate = Self::random();
            if !(candidate < min) && candidate < max {
                return Some(candidate);
            }
            tries += 1;
        }
        None
    }

    /// The remainder of division by `modulus`.
    pub fn modded(self, modulus: Self) -> (r: Self)
        requires
            modulus.as_nat() > 0,
        ensures
            r.as_nat() == self.as_nat() % modulus.as_nat(),
    {
        let (q, r) = self.div_rem(modulus);
        proof {
            vstd::arithmetic::div_mod::lemma_fundamental_div_mod_converse_mod(
                self.as_nat() as int,
                modulus.as_nat() as int,
                q.as_nat() as int,
                r.as_nat() as int,
            );
        }
        r
    }
}

impl PartialOrd for U256 {
    /// Limb-lexicographic comparison, most significant limb first.
    fn partial_cmp(&self, other: &Self) -> (r: Option<Ordering>) {
        proof {
            lemma_limb_order(*self, *other);
        }
        if self.d3 != other.d3 {
            if self.d3 < other.d3 { Some(Ordering::Less) } else { Some(Ordering::Greater) }
        } else if self.d2 != other.d2 {
            if self.d2 < other.d2 { Some(Ordering::Less) } else { Some(Ordering::Greater) }
        } else if self.d1 != other.d1 {
            if self.d1 < other.d1 { Some(Ordering::Less) } else { Some(Ordering::Greater) }
        } else if self.d0 != other.d0 {
            if self.d0 < other.d0 { Some(Ordering::Less) } else { Some(Ordering::Greater) }
        } else {
            Some(Ordering::Equal)
        }
    }
}

impl vstd::std_specs::cmp::PartialOrdSpecImpl for U256 {
    open spec fn obeys_partial_cmp_spec() -> bool {
        true
    }

    open spec fn partial_cmp_spec(&self, other: &Self) -> Option<Ordering> {
        if self.as_nat() < other.as_nat() {
            Some(Ordering::Less)
        } else if self.as_nat() == other.as_nat() {
            Some(Ordering::Equal)
        } else {
            Some(Ordering::Greater)
        }
    }
}

/// Lexicographic order on limbs agrees with the order on values.
proof fn lemma_limb_order(a: U256, b: U256)
    ensures
        a.d3 < b.d3 ==> a.as_nat() < b.as_nat(),
        a.d3 == b.d3 && a.d2 < b.d2 ==> a.as_nat() < b.as_nat(),
        a.d3 == b.d3 && a.d2 == b.d2 && a.d1 < b.d1 ==> a.as_nat() < b.as_nat(),
        a.d3 == b.d3 && a.d2 == b.d2 && a.d1 == b.d1 && a.d0 < b.d0 ==> a.as_nat() < b.as_nat(),
        b.d3 < a.d3 ==> b.as_nat() < a.as_nat(),
        b.d3 == a.d3 && b.d2 < a.d2 ==> b.as_nat() < a.as_nat(),
        b.d3 == a.d3 && b.d2 == a.d2 && b.d1 < a.d1 ==> b.as_nat() < a.as_nat(),
        b.d3 == a.d3 && b.d2 == a.d2 && b.d1 == a.d1 && b.d0 < a.d0 ==> b.as_nat() < a.as_nat(),
        a.d3 == b.d3 && a.d2 == b.d2 && a.d1 == b.d1 && a.d0 == b.d0 ==> a.as_nat() == b.as_nat(),
{
}

/// Gather eight little-endian bytes into one 64-bit limb.
fn gather_limb(b0: u8, b1: u8, b2: u8, b3: u8, b4: u8, b5: u8, b6: u8, b7: u8) -> (r: u64)
    ensures
        r == b0
            + b1 * 0x100
            + b2 * 0x1_0000
            + b3 * 0x100_0000
            + b4 * 0x1_0000_0000
            + b5 * 0x100_0000_0000
            + b6 * 0x1_0000_0000_0000
            + b7 * 0x100_0000_0000_0000,
{
    (b0 as u64)
        + (b1 as u64) * 0x100
        + (b2 as u64) * 0x1_0000
        + (b3 as u64) * 0x100_0000
        + (b4 as u64) * 0x1_0000_0000
        + (b5 as u64) * 0x100_0000_0000
        + (b6 as u64) * 0x1_0000_0000_0000
        + (b7 as u64) * 0x100_0000_0000_0000
}

/// Scatter one 64-bit limb into eight little-endian bytes.
fn scatter_limb(w: u64) -> (r: (u8, u8, u8, u8, u8, u8, u8, u8))
    ensures
        w == r.0
            + r.1 * 0x100
            + r.2 * 0x1_0000
            + r.3 * 0x100_0000
            + r.4 * 0x1_0000_0000
            + r.5 * 0x100_0000_0000
            + r.6 * 0x1_0000_0000_0000
            + r.7 * 0x100_0000_0000_0000,
{
    proof {
        vstd::arithmetic::div_mod::lemma_div_denominator(w as int, 0x100, 0x100);
        vstd::arithmetic::div_mod::lemma_div_denominator(w as int, 0x1_0000, 0x100);
        vstd::arithmetic::div_mod::lemma_div_denominator(w as int, 0x100_0000, 0x100);
        vstd::arithmetic::div_mod::lemma_div_denominator(w as int, 0x1_0000_0000, 0x100);
        vstd::arithmetic::div_mod::lemma_div_denominator(w as int, 0x100_0000_0000, 0x100);
        vstd::arithmetic::div_mod::lemma_div_denominator(w as int, 0x1_0000_0000_0000, 0x100);
        lemma_fundamental_div_mod(w as int, 0x100);
        lemma_fundamental_div_mod(w as int / 0x100, 0x100);
        lemma_fundamental_div_mod(w as int / 0x1_0000, 0x100);
        lemma_fundamental_div_mod(w as int / 0x100_0000, 0x100);
        lemma_fundamental_div_mod(w as int / 0x1_0000_0000, 0x100);
        lemma_fundamental_div_mod(w as int / 0x100_0000_0000, 0x100);
        lemma_fundamental_div_mod(w as int / 0x1_0000_0000_0000, 0x100);
        vstd::arithmetic::div_mod::lemma_multiply_divide_lt(
            w as int,
            0x100_0000_0000_0000,
            0x100,
        );
        lemma_small_mod((w / 0x100_0000_0000_0000) as nat, 0x100);
    }
    (
        (w % 0x100) as u8,
        ((w / 0x100) % 0x100) as u8,
        ((w / 0x1_0000) % 0x100) as u8,
        ((w / 0x100_0000) % 0x100) as u8,
        ((w / 0x1_0000_0000) % 0x100) as u8,
        ((w / 0x100_0000_0000) % 0x100) as u8,
        ((w / 0x1_0000_0000_0000) % 0x100) as u8,
        ((w / 0x100_0000_0000_0000) % 0x100) as u8,
    )
}

/// Relies on `rand::rng()` (the thread-local generator, a `CryptoRng`) and
/// `rand::Rng::fill_bytes`, which fills the whole buffer with random bytes
/// and is infallible for the thread-local generator.
#[verifier::external_body]
fn random_bytes_32() -> (r: [u8; 32]) {
    let mut buf = [0u8; 32];
    rand::Rng::fill_bytes(&mut rand::rng(), &mut buf);
    buf
}

/// One limb of an addition chain: `a + b + carry_in` split into a limb and a
/// carry out.
fn add_limb(a: u64, b: u64, carry: u64) -> (r: (u64, u64))
    requires
        carry <= 1,
    ensures
        r.0 + r.1 * radix64() == a + b + carry,
        r.1 <= 1,
{
    let s: u128 = (a as u128) + (b as u128) + (carry as u128);
    let lo = (s % 0x1_0000_0000_0000_0000) as u64;
    let hi = (s / 0x1_0000_0000_0000_0000) as u64;
    proof {
        lemma_fundamental_div_mod(s as int, 0x1_0000_0000_0000_0000);
    }
    (lo, hi)
}

/// One limb of a subtraction chain: `a - b - borrow_in` as a limb and a
/// borrow out.
fn sub_limb(a: u64, b: u64, borrow: u64) -> (r: (u64, u64))
    requires
        borrow <= 1,
    ensures
        r.0 == a + r.1 * radix64() - b - borrow,
        r.1 <= 1,
{
    if (b as u128) + (borrow as u128) <= a as u128 {
        (a - b - borrow, 0)
    } else {
        let s: u128 = 0x1_0000_0000_0000_0000u128 + (a as u128) - (b as u128) - (borrow as u128);
        proof {
            vstd::arithmetic::div_mod::lemma_small_mod(s as nat, radix64());
        }
        ((s % 0x1_0000_0000_0000_0000) as u64, 1)
    }
}

/// Base-2^64 digits determine the value uniquely.
proof fn lemma_limbs_unique(
    a0: u64, a1: u64, a2: u64, a3: u64,
    b0: u64, b1: u64, b2: u64, b3: u64,
)
    requires
        a0 + a1 * 0x1_0000_0000_0000_0000
            + a2 * 0x1_0000_0000_0000_0000_0000_0000_0000_0000
            + a3 * 0x1_0000_0000_0000_0000_0000_0000_0000_0000_0000_0000_0000_0000
        == b0 + b1 * 0x1_0000_0000_0000_0000
            + b2 * 0x1_0000_0000_0000_0000_0000_0000_0000_0000
            + b3 * 0x1_0000_0000_0000_0000_0000_0000_0000_0000_0000_0000_0000_0000,
    ensures
        a0 == b0 && a1 == b1 && a2 == b2 && a3 == b3,
{
    let m: int = 0x1_0000_0000_0000_0000;
    let ka: int = a1 + a2 * m + a3 * m * m;
    let kb: int = b1 + b2 * m + b3 * m * m;
    let va: int = a0 + a1 * m
        + a2 * 0x1_0000_0000_0000_0000_0000_0000_0000_0000
        + a3 * 0x1_0000_0000_0000_0000_0000_0000_0000_0000_0000_0000_0000_0000;
    assert(va == m * ka + a0);
    assert(va % m == a0) by {
        vstd::arithmetic::div_mod::lemma_mod_multiples_vanish(ka, a0 as int, m);
        vstd::arithmetic::div_mod::lemma_small_mod(a0 as nat, m as nat);
    }
    let vb: int = b0 + b1 * m
        + b2 * 0x1_0000_0000_0000_0000_0000_0000_0000_0000
        + b3 * 0x1_0000_0000_0000_0000_0000_0000_0000_0000_0000_0000_0000_0000;
    assert(vb == m * kb + b0);
    assert(vb % m == b0) by {
        vstd::arithmetic::div_mod::lemma_mod_multiples_vanish(kb, b0 as int, m);
        vstd::arithmetic::div_mod::lemma_small_mod(b0 as nat, m as nat);
    }
    assert(a0 == b0);
    assert(ka == kb);
    let ja: int = a2 + a3 * m;
    let jb: int = b2 + b3 * m;
    assert(ka == m * ja + a1);
    assert(ka % m == a1) by {
        vstd::arithmetic::div_mod::lemma_mod_multiples_vanish(ja, a1 as int, m);
        vstd::arithmetic::div_mod::lemma_small_mod(a1 as nat, m as nat);
    }
    assert(kb == m * jb + b1);
    assert(kb % m == b1) by {
        vstd::arithmetic::div_mod::lemma_mod_multiples_vanish(jb, b1 as int, m);
        vstd::arithmetic::div_mod::lemma_small_mod(b1 as nat, m as nat);
    }
    assert(a1 == b1);
    assert(ja == jb);
    assert(ja == m * (a3 as int) + a2);
    assert(ja % m == a2) by {
        vstd::arithmetic::div_mod::lemma_mod_multiples_vanish(a3 as int, a2 as int, m);
        vstd::arithmetic::div_mod::lemma_small_mod(a2 as nat, m as nat);
    }
    assert(jb % m == b2) by {
        vstd::arithmetic::div_mod::lemma_mod_multiples_vanish(b3 as int, b2 as int, m);
        vstd::arithmetic::div_mod::lemma_small_mod(b2 as nat, m as nat);
    }
    assert(a2 == b2);
}

} // verus!
