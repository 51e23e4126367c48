//! The general algebraic laws the library promises, stated once over the
//! spec-level models its contracts use.

use vstd::prelude::*;
use vstd::arithmetic::div_mod::lemma_small_mod;
use vstd::arithmetic::div_mod::lemma_add_mod_noop;
use vstd::arithmetic::div_mod::lemma_mod_add_multiples_vanish;
use crate::u256::U256;
use crate::u256::radix256;
use crate::bytes::bytes_bits;
use crate::sm_3::bytes_of_bits;

verus! {

broadcast use crate::u256::lemma_u256_nat_bound;

/// Adding and then subtracting the same value round-trips modulo 2^256:
/// `(a + b) - b == a` in the wrapping ring, exactly as the contracts of
/// `U256::wrapping_add` and `U256::wrapping_sub` compose.
pub proof fn lemma_add_sub_roundtrip(a: U256, b: U256)
    ensures
        ((((a.as_nat() + b.as_nat()) % radix256()) + radix256() - b.as_nat()) as nat)
            % radix256() == a.as_nat(),
{
    let m: int = radix256() as int;
    let x: int = a.as_nat() as int;
    let y: int = b.as_nat() as int;
    let s: int = (x + y) % m;
    assert((s + (m - y) % m) % m == (x + y + m - y) % m) by {
        lemma_add_mod_noop(x + y, m - y, m);
        assert(s % m == s) by {
            lemma_small_mod(((x + y) % m) as nat, radix256());
        }
    }
    if y == 0 {
        assert((m - y) % m == 0) by {
            vstd::arithmetic::div_mod::lemma_mod_self_0(m);
        }
        assert((s + m - y) % m == (s + (m - y) % m) % m) by {
            lemma_mod_add_multiples_vanish(s + 0, m);
        }
    } else {
        assert((m - y) % m == m - y) by {
            lemma_small_mod((m - y) as nat, radix256());
        }
    }
    assert((x + y + m - y) % m == x % m) by {
        lemma_mod_add_multiples_vanish(x, m);
    }
    assert(x % m == x) by {
        lemma_small_mod(a.as_nat(), radix256());
    }
}

/// Turning bytes into their bit run and regrouping gives the bytes back:
/// appending bytes to an empty sequence and slicing the whole range
/// reconstructs them, as the `append_bytes` and `slice` contracts compose.
pub proof fn lemma_bytes_bits_roundtrip(s: Seq<u8>)
    ensures
        bytes_of_bits(bytes_bits(s)) == s,
{
    crate::sm_3::lemma_bytes_of_their_bits(s);
}

/// Exclusive-or with the same mask twice is the identity, as the `xor`
/// contract composes with itself on equal-length sequences.
pub proof fn lemma_xor_involutive(a: Seq<bool>, b: Seq<bool>)
    requires
        a.len() == b.len(),
    ensures
        Seq::new(a.len(), |i: int| (Seq::new(a.len(), |j: int| a[j] != b[j])[i] != b[i]))
            == a,
{
    assert(Seq::new(
        a.len(),
        |i: int| (Seq::new(a.len(), |j: int| a[j] != b[j])[i] != b[i]),
    ) =~= a);
}

} // verus!
