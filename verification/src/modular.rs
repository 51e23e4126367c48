//! Ring and modular arithmetic on top of [`U256`]: multiplication wrapping
//! modulo 2^256, and field operations under an arbitrary modulus.
//!
//! `mod_add` and `mod_mul` return fully reduced results for any modulus the
//! contracts admit; `mod_inv` is the extended Euclidean inverse, with its
//! success condition pinned to coprimality.

use vstd::prelude::*;
use vstd::arithmetic::div_mod::lemma_fundamental_div_mod_converse_div;
use vstd::arithmetic::div_mod::lemma_fundamental_div_mod_converse_mod;
use vstd::arithmetic::div_mod::lemma_small_mod;
use vstd::arithmetic::div_mod::lemma_mod_sub_multiples_vanish;
use vstd::arithmetic::div_mod::lemma_mod_multiples_vanish;
use vstd::arithmetic::div_mod::lemma_mod_self_0;
use vstd::arithmetic::div_mod::lemma_mul_mod_noop_left;
use vstd::arithmetic::div_mod::lemma_mul_mod_noop_right;
use vstd::arithmetic::div_mod::lemma_add_mod_noop;
use vstd::arithmetic::div_mod::lemma_sub_mod_noop;
use vstd::arithmetic::mul::lemma_mul_is_commutative;
use vstd::arithmetic::mul::lemma_mul_basics;
use crate::u256::U256;
use crate::u256::bits_val_from;
use crate::u256::radix256;

verus! {

broadcast use crate::u256::lemma_u256_nat_bound;

/// Euclid's greatest common divisor.
pub open spec fn gcd(a: nat, b: nat) -> nat
    decreases b,
{
    if b == 0 {
        a
    } else {
        gcd(b, a % b)
    }
}

impl U256 {
    /// Modular addition of two reduced values.
    pub fn mod_add(self, other: Self, modulus: Self) -> (r: Self)
        requires
            self.as_nat() < modulus.as_nat(),
            other.as_nat() < modulus.as_nat(),
        ensures
            r.as_nat() == (self.as_nat() + other.as_nat()) % modulus.as_nat(),
            r.as_nat() < modulus.as_nat(),
    {
        let ghost m: int = modulus.as_nat() as int;
        let ghost v: int = (self.as_nat() + other.as_nat()) as int;
        let (sum, carry) = self.overflowing_add(other);
        if carry || !(sum < modulus) {
            let r = sum.wrapping_sub(modulus);
            proof {
                if carry {
                    assert(sum.as_nat() < modulus.as_nat());
                    lemma_small_mod(
                        (sum.as_nat() + radix256() - modulus.as_nat()) as nat,
                        radix256(),
                    );
                } else {
                    lemma_mod_sub_multiples_vanish(
                        sum.as_nat() + radix256() as int - m,
                        radix256() as int,
                    );
                    lemma_small_mod((sum.as_nat() - modulus.as_nat()) as nat, radix256());
                }
                assert(r.as_nat() == v - m);
                lemma_mod_sub_multiples_vanish(v, m);
                lemma_small_mod((v - m) as nat, modulus.as_nat());
            }
            r
        } else {
            proof {
                lemma_small_mod(sum.as_nat(), modulus.as_nat());
            }
            sum
        }
    }

    /// Wrapping subtraction followed by reduction, as the ring layer defines
    /// subtraction under a modulus.
    pub fn mod_sub(self, other: Self, modulus: Self) -> (r: Self)
        requires
            modulus.as_nat() > 0,
        ensures
            r.as_nat() == (((self.as_nat() + radix256() - other.as_nat()) as nat) % radix256())
                % modulus.as_nat(),
    {
        self.wrapping_sub(other).modded(modulus)
    }

    /// Plain division followed by reduction.
    pub fn mod_div(self, other: Self, modulus: Self) -> (r: Self)
        requires
            other.as_nat() > 0,
            modulus.as_nat() > 0,
        ensures
            r.as_nat() == (self.as_nat() / other.as_nat()) % modulus.as_nat(),
    {
        let (q, rem) = self.div_rem(other);
        proof {
            lemma_fundamental_div_mod_converse_div(
                self.as_nat() as int,
                other.as_nat() as int,
                q.as_nat() as int,
                rem.as_nat() as int,
            );
        }
        q.modded(modulus)
    }

    /// Modular multiplication by most-significant-first double-and-add, so
    /// the full double-width product never has to materialise.
    #[verifier::loop_isolation(false)]
    pub fn mod_mul(self, other: Self, modulus: Self) -> (r: Self)
        requires
            modulus.as_nat() > 0,
        ensures
            r.as_nat() == (self.as_nat() * other.as_nat()) % modulus.as_nat(),
            r.as_nat() < modulus.as_nat(),
    {
        let ghost m: int = modulus.as_nat() as int;
        let ghost av: int = self.as_nat() as int;
        let a_red = self.modded(modulus);
        let ghost ar: int = a_red.as_nat() as int;
        let bits = other.to_bits();
        let mut acc = U256::new();
        let mut i: usize = 256;
        proof {
            lemma_mul_basics(ar);
            lemma_small_mod(0, modulus.as_nat());
        }
        while i > 0
            invariant
                i <= 256,
                bits@.len() == 256,
                bits_val_from(bits@, 0) == other.as_nat(),
                a_red.as_nat() < modulus.as_nat(),
                a_red.as_nat() == self.as_nat() % modulus.as_nat(),
                modulus.as_nat() > 0,
                acc.as_nat() == (a_red.as_nat() * bits_val_from(bits@, i as int))
                    % modulus.as_nat(),
                acc.as_nat() < modulus.as_nat(),
            decreases i,
        {
            i -= 1;
            let bit = bits[i];
            let ghost vprev: int = bits_val_from(bits@, i + 1) as int;
            let ghost vcur: int = bits_val_from(bits@, i as int) as int;
            let ghost bv: int = if bit { 1 } else { 0 };
            proof {
                assert(vcur == bv + 2 * vprev);
            }
            let doubled = acc.mod_add(acc, modulus);
            proof {
                // (2 * ((ar*v) % m)) % m == (2*ar*v) % m
                lemma_mul_mod_noop_left(ar * vprev, 2, m);
                lemma_mul_is_commutative((ar * vprev) % m, 2);
                lemma_mul_is_commutative(ar * vprev, 2);
                assert(doubled.as_nat() == (2 * (ar * vprev)) % m);
            }
            if bit {
                acc = doubled.mod_add(a_red, modulus);
                proof {
                    lemma_small_mod(a_red.as_nat(), modulus.as_nat());
                    lemma_add_mod_noop(2 * (ar * vprev), ar, m);
                    assert(acc.as_nat() == (2 * (ar * vprev) + ar) % m);
                    assert(ar * vcur == 2 * (ar * vprev) + ar) by (nonlinear_arith)
                        requires
                            vcur == 1 + 2 * vprev,
                    ;
                }
            } else {
                acc = doubled;
                proof {
                    assert(ar * vcur == 2 * (ar * vprev)) by (nonlinear_arith)
                        requires
                            vcur == 2 * vprev,
                    ;
                }
            }
        }
        proof {
            lemma_mul_mod_noop_left(av, other.as_nat() as int, m);
            assert(acc.as_nat() == (self.as_nat() * other.as_nat()) % modulus.as_nat());
        }
        acc
    }

    /// Multiplication modulo 2^256, by most-significant-first double-and-add.
    #[verifier::loop_isolation(false)]
    pub fn wrapping_mul(self, other: Self) -> (r: Self)
        ensures
            r.as_nat() == (self.as_nat() * other.as_nat()) % radix256(),
    {
        let ghost m: int = radix256() as int;
        let ghost av: int = self.as_nat() as int;
        let bits = other.to_bits();
        let mut acc = U256::new();
        let mut i: usize = 256;
        proof {
            lemma_mul_basics(av);
            lemma_small_mod(0, radix256());
        }
        while i > 0
            invariant
                i <= 256,
                bits@.len() == 256,
                bits_val_from(bits@, 0) == other.as_nat(),
                acc.as_nat() == (self.as_nat() * bits_val_from(bits@, i as int))
                    % radix256(),
            decreases i,
        {
            i -= 1;
            let bit = bits[i];
            let ghost vprev: int = bits_val_from(bits@, i + 1) as int;
            let ghost vcur: int = bits_val_from(bits@, i as int) as int;
            let ghost bv: int = if bit { 1 } else { 0 };
            proof {
                assert(vcur == bv + 2 * vprev);
            }
            let doubled = acc.wrapping_add(acc);
            proof {
                lemma_mul_mod_noop_left(av * vprev, 2, m);
                lemma_mul_is_commutative((av * vprev) % m, 2);
                lemma_mul_is_commutative(av * vprev, 2);
                lemma_add_mod_noop(av * vprev, av * vprev, m);
                assert(doubled.as_nat() == (2 * (av * vprev)) % m);
            }
            if bit {
                acc = doubled.wrapping_add(self);
                proof {
                    lemma_small_mod(self.as_nat(), radix256());
                    lemma_add_mod_noop(2 * (av * vprev), av, m);
                    assert(acc.as_nat() == (2 * (av * vprev) + av) % m);
                    assert(av * vcur == 2 * (av * vprev) + av) by (nonlinear_arith)
                        requires
                            vcur == 1 + 2 * vprev,
                    ;
                }
            } else {
                acc = doubled;
                proof {
                    assert(av * vcur == 2 * (av * vprev)) by (nonlinear_arith)
                        requires
                            vcur == 2 * vprev,
                    ;
                }
            }
        }
        acc
    }

    /// The modular inverse by the extended Euclidean algorithm: defined
    /// exactly when the modulus exceeds one and the operands are coprime.
    #[verifier::loop_isolation(false)]
    pub fn mod_inv(self, modulus: Self) -> (r: Option<Self>)
        ensures
            (r is Some) <==> (modulus.as_nat() > 1
                && gcd(self.as_nat(), modulus.as_nat()) == 1),
            r matches Some(v) ==> v.as_nat() < modulus.as_nat()
                && (self.as_nat() * v.as_nat()) % modulus.as_nat() == 1,
    {
        let ghost a: int = self.as_nat() as int;
        let ghost m: int = modulus.as_nat() as int;
        let one = U256::from_u64(1);
        if !(one < modulus) {
            return None;
        }
        let mut rp = self;
        let mut rc = modulus;
        let mut tp = one;
        let mut tc = U256::new();
        proof {
            lemma_mul_basics(a);
            lemma_mod_self_0(m);
            lemma_small_mod(0, modulus.as_nat());
        }
        while !rc.is_zero()
            invariant
                modulus.as_nat() > 1,
                one.as_nat() == 1,
                gcd(rp.as_nat(), rc.as_nat()) == gcd(self.as_nat(), modulus.as_nat()),
                (tp.as_nat() * self.as_nat()) % modulus.as_nat()
                    == rp.as_nat() % modulus.as_nat(),
                (tc.as_nat() * self.as_nat()) % modulus.as_nat()
                    == rc.as_nat() % modulus.as_nat(),
                tp.as_nat() < modulus.as_nat(),
                tc.as_nat() < modulus.as_nat(),
            decreases rc.as_nat(),
        {
            let ghost rpv: int = rp.as_nat() as int;
            let ghost rcv: int = rc.as_nat() as int;
            let ghost tpv: int = tp.as_nat() as int;
            let ghost tcv: int = tc.as_nat() as int;
            let (q, rn) = rp.div_rem(rc);
            let ghost qv: int = q.as_nat() as int;
            let ghost rnv: int = rn.as_nat() as int;
            let qt = q.mod_mul(tc, modulus);
            let tn = sub_mod(tp, qt, modulus);
            let ghost tnv: int = tn.as_nat() as int;
            proof {
                // the Euclidean step keeps the gcd
                lemma_fundamental_div_mod_converse_mod(rpv, rcv, qv, rnv);
                assert(gcd(rc.as_nat(), rn.as_nat())
                    == gcd(rp.as_nat(), rc.as_nat()));
                // and the cofactor keeps its congruence:
                //   tn * a == (tp - q*tc) * a == rp - q*rc == rn  (mod m)
                lemma_mul_mod_noop_left(tpv + m - (qv * tcv) % m, a, m);
                assert((tpv + m - (qv * tcv) % m) * a
                    == tpv * a + m * a - ((qv * tcv) % m) * a) by (nonlinear_arith);
                lemma_mod_multiples_vanish(a, tpv * a - ((qv * tcv) % m) * a, m);
                lemma_sub_mod_noop(tpv * a, ((qv * tcv) % m) * a, m);
                // ((q*tc) % m) * a == (q*tc)*a == q*(tc*a)  (mod m)
                lemma_mul_mod_noop_left(qv * tcv, a, m);
                assert((qv * tcv) * a == qv * (tcv * a)) by (nonlinear_arith);
                lemma_mul_mod_noop_right(qv, tcv * a, m);
                lemma_mul_mod_noop_right(qv, rcv, m);
                // so tn*a == (tp*a) - q*rc  (mod m); replace tp*a by rp
                lemma_sub_mod_noop(tpv * a, qv * rcv, m);
                lemma_sub_mod_noop(rpv, qv * rcv, m);
                assert(rpv - qv * rcv == rnv);
                assert((tnv * a) % m == rnv % m) by {
                    lemma_sub_mod_noop(tpv * a, (qv * (tcv * a)) % m, m);
                    lemma_sub_mod_noop(tpv * a, qv * (tcv * a), m);
                }
            }
            rp = rc;
            rc = rn;
            tp = tc;
            tc = tn;
        }
        if rp == one {
            proof {
                lemma_small_mod(1, modulus.as_nat());
                lemma_mul_is_commutative(tp.as_nat() as int, a);
            }
            Some(tp)
        } else {
            proof {
                if rp.as_nat() == 1 {
                    U256::lemma_as_nat_injective(rp, one);
                }
            }
            None
        }
    }
}

/// `(a - b) mod m` for reduced operands, without ever dipping below zero.
pub(crate) fn sub_mod(a: U256, b: U256, m: U256) -> (r: U256)
    requires
        a.as_nat() < m.as_nat(),
        b.as_nat() < m.as_nat(),
    ensures
        r.as_nat() as int == (a.as_nat() + m.as_nat() - b.as_nat()) % (m.as_nat() as int),
        r.as_nat() < m.as_nat(),
{
    let ghost mv: int = m.as_nat() as int;
    if !(a < b) {
        let r = a.wrapping_sub(b);
        proof {
            lemma_mod_sub_multiples_vanish(a.as_nat() + mv - b.as_nat(), mv);
            lemma_small_mod((a.as_nat() - b.as_nat()) as nat, m.as_nat());
            lemma_mod_sub_multiples_vanish(
                a.as_nat() + radix256() as int - b.as_nat(),
                radix256() as int,
            );
            lemma_small_mod((a.as_nat() - b.as_nat()) as nat, radix256());
        }
        r
    } else {
        let r = a.wrapping_add(m.wrapping_sub(b));
        proof {
            lemma_mod_sub_multiples_vanish(
                m.as_nat() + radix256() as int - b.as_nat(),
                radix256() as int,
            );
            lemma_small_mod((m.as_nat() - b.as_nat()) as nat, radix256());
            lemma_small_mod((a.as_nat() + m.as_nat() - b.as_nat()) as nat, radix256());
            lemma_small_mod((a.as_nat() + m.as_nat() - b.as_nat()) as nat, m.as_nat());
        }
        r
    }
}

} // verus!
