//! The SM3 digest, the hash this suite feeds every transcript through.
//!
//! The exec code is proved equal to a spec-level transcription of the
//! algorithm ([`sm3_digest_bits`]), which pins the digest down as a function
//! of the input bits alone — in particular it is deterministic, which the
//! key-derivation contracts rely on.

use vstd::prelude::*;
use vstd::arithmetic::div_mod::lemma_fundamental_div_mod;
use vstd::arithmetic::div_mod::lemma_fundamental_div_mod_converse_div;
use vstd::arithmetic::div_mod::lemma_fundamental_div_mod_converse_mod;
use vstd::arithmetic::div_mod::lemma_div_denominator;
use vstd::arithmetic::power2::pow2;
use vstd::arithmetic::power2::lemma2_to64;
use crate::bytes::BitSequence;
use crate::bytes::byte_bit;
use crate::bytes::bytes_bits;

verus! {

/// The eight-word working state.
#[derive(Clone, Copy, PartialEq, Eq, Structural, Debug)]
pub struct Sm3State {
    pub a: u32,
    pub b: u32,
    pub c: u32,
    pub d: u32,
    pub e: u32,
    pub f: u32,
    pub g: u32,
    pub h: u32,
}

/// Addition modulo 2^32.
pub open spec fn add32(x: u32, y: u32) -> u32 {
    if x + y > u32::MAX {
        (x + y - 0x1_0000_0000) as u32
    } else {
        (x + y) as u32
    }
}

/// Left rotation of a 32-bit word.
pub open spec fn spec_rotl(x: u32, n: nat) -> u32 {
    let s = n % 32;
    if s == 0 {
        x
    } else {
        (x << (s as u32)) | (x >> ((32 - s) as u32))
    }
}

/// The round constant.
pub open spec fn spec_t_j(j: nat) -> u32 {
    if j < 16 {
        0x79cc4519
    } else {
        0x7a879d8a
    }
}

/// The compression boolean function on the top row.
pub open spec fn spec_ff_j(j: nat, x: u32, y: u32, z: u32) -> u32 {
    if j < 16 {
        x ^ y ^ z
    } else {
        (x & y) | (x & z) | (y & z)
    }
}

/// The compression boolean function on the bottom row.
pub open spec fn spec_gg_j(j: nat, x: u32, y: u32, z: u32) -> u32 {
    if j < 16 {
        x ^ y ^ z
    } else {
        (x & y) | ((!x) & z)
    }
}

/// The permutation applied to the new `e` word.
pub open spec fn spec_p_0(x: u32) -> u32 {
    x ^ spec_rotl(x, 9) ^ spec_rotl(x, 17)
}

/// The permutation inside the message expansion.
pub open spec fn spec_p_1(x: u32) -> u32 {
    x ^ spec_rotl(x, 15) ^ spec_rotl(x, 23)
}

/// Big-endian word `j` of a 64-byte block.
pub open spec fn word_at(block: Seq<u8>, j: int) -> u32 {
    (block[4 * j] * 0x100_0000
        + block[4 * j + 1] * 0x1_0000
        + block[4 * j + 2] * 0x100
        + block[4 * j + 3]) as u32
}

/// The first `n` words of the expanded message schedule.
pub open spec fn sched(block: Seq<u8>, n: nat) -> Seq<u32>
    decreases n,
{
    if n == 0 {
        Seq::empty()
    } else {
        let prev = sched(block, (n - 1) as nat);
        let j = n - 1;
        prev.push(
            if j < 16 {
                word_at(block, j)
            } else {
                spec_p_1(prev[j - 16] ^ prev[j - 9] ^ spec_rotl(prev[j - 3], 15))
                    ^ spec_rotl(prev[j - 13], 7) ^ prev[j - 6]
            },
        )
    }
}

/// The schedule has exactly as many words as were asked for.
pub proof fn lemma_sched_len(block: Seq<u8>, n: nat)
    ensures
        sched(block, n).len() == n,
    decreases n,
{
    if n > 0 {
        lemma_sched_len(block, (n - 1) as nat);
    }
}

/// One compression round.
pub open spec fn spec_round(st: Sm3State, w: u32, ws: u32, j: nat) -> Sm3State {
    let ss1 = spec_rotl(
        add32(add32(spec_rotl(st.a, 12), st.e), spec_rotl(spec_t_j(j), j)),
        7,
    );
    let ss2 = ss1 ^ spec_rotl(st.a, 12);
    let tt1 = add32(add32(add32(spec_ff_j(j, st.a, st.b, st.c), st.d), ss2), ws);
    let tt2 = add32(add32(add32(spec_gg_j(j, st.e, st.f, st.g), st.h), ss1), w);
    Sm3State {
        a: tt1,
        b: st.a,
        c: spec_rotl(st.b, 9),
        d: st.c,
        e: spec_p_0(tt2),
        f: st.e,
        g: spec_rotl(st.f, 19),
        h: st.g,
    }
}

/// The state after the first `j` rounds on one block.
pub open spec fn spec_rounds(st: Sm3State, block: Seq<u8>, j: nat) -> Sm3State
    decreases j,
{
    if j == 0 {
        st
    } else {
        let w = sched(block, 68);
        spec_round(
            spec_rounds(st, block, (j - 1) as nat),
            w[j - 1],
            w[j - 1] ^ w[j - 1 + 4],
            (j - 1) as nat,
        )
    }
}

/// One whole block compression, including the final feed-forward.
pub open spec fn spec_compress(st: Sm3State, block: Seq<u8>) -> Sm3State {
    let r = spec_rounds(st, block, 64);
    Sm3State {
        a: r.a ^ st.a,
        b: r.b ^ st.b,
        c: r.c ^ st.c,
        d: r.d ^ st.d,
        e: r.e ^ st.e,
        f: r.f ^ st.f,
        g: r.g ^ st.g,
        h: r.h ^ st.h,
    }
}

/// The state after the first `i` blocks of a padded message.
pub open spec fn spec_iterate(st: Sm3State, bytes: Seq<u8>, i: nat) -> Sm3State
    decreases i,
{
    if i == 0 {
        st
    } else {
        spec_compress(
            spec_iterate(st, bytes, (i - 1) as nat),
            bytes.subrange(64 * (i - 1), 64 * i as int),
        )
    }
}

/// The initial state.
pub open spec fn spec_iv() -> Sm3State {
    Sm3State {
        a: 0x7380166f,
        b: 0x4914b2b9,
        c: 0x172442d7,
        d: 0xda8a0600,
        e: 0xa96f30bc,
        f: 0x163138aa,
        g: 0xe38dee4d,
        h: 0xb0fb0e4e,
    }
}

/// A run of cleared bits.
pub open spec fn zero_bits(k: nat) -> Seq<bool> {
    Seq::new(k, |i: int| false)
}

/// The 64 bits of a length field, most significant first.
pub open spec fn len_bits(v: nat) -> Seq<bool> {
    Seq::new(64, |i: int| (v / pow2((63 - i) as nat)) % 2 == 1)
}

/// A message padded to a multiple of 512 bits: the message, a set bit, the
/// shortest run of cleared bits, then the 64-bit message length.
pub open spec fn sm3_padded_bits(bits: Seq<bool>) -> Seq<bool> {
    let k = (512 - ((bits.len() + 65) % 512)) % 512;
    bits + seq![true] + zero_bits(k as nat) + len_bits(bits.len())
}

/// The byte whose bits start at `base`.
pub open spec fn bits_byte(bs: Seq<bool>, base: int) -> u8 {
    (((if bs[base] { 0x80nat } else { 0nat }))
        + (if bs[base + 1] { 0x40nat } else { 0nat })
        + (if bs[base + 2] { 0x20nat } else { 0nat })
        + (if bs[base + 3] { 0x10nat } else { 0nat })
        + (if bs[base + 4] { 8nat } else { 0nat })
        + (if bs[base + 5] { 4nat } else { 0nat })
        + (if bs[base + 6] { 2nat } else { 0nat })
        + (if bs[base + 7] { 1nat } else { 0nat })) as u8
}

/// A byte-aligned bit run, regrouped into bytes.
pub open spec fn bytes_of_bits(bs: Seq<bool>) -> Seq<u8> {
    Seq::new(bs.len() / 8, |i: int| bits_byte(bs, 8 * i))
}

/// The digest state serialised as 32 big-endian bytes.
pub open spec fn state_bytes(st: Sm3State) -> Seq<u8> {
    word_be_bytes(st.a) + word_be_bytes(st.b) + word_be_bytes(st.c) + word_be_bytes(st.d)
        + word_be_bytes(st.e) + word_be_bytes(st.f) + word_be_bytes(st.g)
        + word_be_bytes(st.h)
}

/// One word as four big-endian bytes.
pub open spec fn word_be_bytes(w: u32) -> Seq<u8> {
    seq![
        (w / 0x100_0000) as u8,
        ((w / 0x1_0000) % 0x100) as u8,
        ((w / 0x100) % 0x100) as u8,
        (w % 0x100) as u8,
    ]
}

/// The SM3 digest of a bit sequence.
#[verifier::opaque]
pub open spec fn sm3_digest_bits(bits: Seq<bool>) -> Seq<u8> {
    let padded = bytes_of_bits(sm3_padded_bits(bits));
    state_bytes(spec_iterate(spec_iv(), padded, padded.len() / 64))
}

/// Left rotation of a 32-bit word.
fn rotl(x: u32, n: u32) -> (r: u32)
    ensures
        r == spec_rotl(x, n as nat),
{
    let s = n % 32;
    if s == 0 {
        x
    } else {
        (x << s) | (x >> (32 - s))
    }
}

/// The round constant.
pub fn t_j(index: usize) -> (r: u32)
    ensures
        r == spec_t_j(index as nat),
{
    if index < 16 {
        0x79cc4519
    } else {
        0x7a879d8a
    }
}

/// The compression boolean function on the top row.
pub fn ff_j(index: usize, xyz: (u32, u32, u32)) -> (r: u32)
    ensures
        r == spec_ff_j(index as nat, xyz.0, xyz.1, xyz.2),
{
    let (x, y, z) = xyz;
    if index < 16 {
        x ^ y ^ z
    } else {
        (x & y) | (x & z) | (y & z)
    }
}

/// The compression boolean function on the bottom row.
pub fn gg_j(index: usize, xyz: (u32, u32, u32)) -> (r: u32)
    ensures
        r == spec_gg_j(index as nat, xyz.0, xyz.1, xyz.2),
{
    let (x, y, z) = xyz;
    if index < 16 {
        x ^ y ^ z
    } else {
        (x & y) | ((!x) & z)
    }
}

/// The permutation applied to the new `e` word.
pub fn p_0(input: u32) -> (r: u32)
    ensures
        r == spec_p_0(input),
{
    input ^ rotl(input, 9) ^ rotl(input, 17)
}

/// The permutation inside the message expansion.
pub fn p_1(input: u32) -> (r: u32)
    ensures
        r == spec_p_1(input),
{
    input ^ rotl(input, 15) ^ rotl(input, 23)
}

/// One block of compression, reading 64 bytes at `base`.
#[verifier::loop_isolation(false)]
fn cf(last_result: &mut Sm3State, message: &[u8], base: usize)
    requires
        base + 64 <= message@.len(),
    ensures
        *final(last_result)
            == spec_compress(*old(last_result), message@.subrange(base as int, base + 64)),
{
    let ghost block: Seq<u8> = message@.subrange(base as int, base + 64);
    let mlen = message.len();
    let mut w: Vec<u32> = Vec::new();
    let mut j: usize = 0;
    while j < 16
        invariant
            j <= 16,
            w@.len() == j,
            w@ == sched(block, j as nat),
        decreases 16 - j,
    {
        let b0 = message[base + 4 * j];
        let b1 = message[base + 4 * j + 1];
        let b2 = message[base + 4 * j + 2];
        let b3 = message[base + 4 * j + 3];
        let word = (b0 as u32) * 0x100_0000 + (b1 as u32) * 0x1_0000 + (b2 as u32) * 0x100
            + (b3 as u32);
        proof {
            assert(block[4 * j as int] == message@[base + 4 * j]);
            assert(word == word_at(block, j as int));
        }
        w.push(word);
        j += 1;
    }
    while j < 68
        invariant
            16 <= j <= 68,
            w@.len() == j,
            w@ == sched(block, j as nat),
        decreases 68 - j,
    {
        let word = p_1(w[j - 16] ^ w[j - 9] ^ rotl(w[j - 3], 15)) ^ rotl(w[j - 13], 7)
            ^ w[j - 6];
        w.push(word);
        j += 1;
    }
    let ghost full = sched(block, 68);
    proof {
        assert(w@ == full);
        lemma_sched_len(block, 68);
    }
    let mut st: Sm3State = *last_result;
    let mut r: usize = 0;
    while r < 64
        invariant
            r <= 64,
            w@ == full,
            w@.len() == 68,
            st == spec_rounds(*old(last_result), block, r as nat),
        decreases 64 - r,
    {
        let ss_1 = rotl(
            rotl(st.a, 12).wrapping_add(st.e).wrapping_add(rotl(t_j(r), r as u32)),
            7,
        );
        let ss_2 = ss_1 ^ rotl(st.a, 12);
        let wj = w[r];
        let wsj = w[r] ^ w[r + 4];
        let tt_1 = ff_j(r, (st.a, st.b, st.c))
            .wrapping_add(st.d)
            .wrapping_add(ss_2)
            .wrapping_add(wsj);
        let tt_2 = gg_j(r, (st.e, st.f, st.g))
            .wrapping_add(st.h)
            .wrapping_add(ss_1)
            .wrapping_add(wj);
        let next = Sm3State {
            a: tt_1,
            b: st.a,
            c: rotl(st.b, 9),
            d: st.c,
            e: p_0(tt_2),
            f: st.e,
            g: rotl(st.f, 19),
            h: st.g,
        };
        proof {
            assert(next == spec_round(st, wj, wsj, r as nat));
        }
        st = next;
        r += 1;
    }
    *last_result = Sm3State {
        a: st.a ^ last_result.a,
        b: st.b ^ last_result.b,
        c: st.c ^ last_result.c,
        d: st.d ^ last_result.d,
        e: st.e ^ last_result.e,
        f: st.f ^ last_result.f,
        g: st.g ^ last_result.g,
        h: st.h ^ last_result.h,
    };
}

/// The SM3 hash of a bit sequence, as 32 bytes.
#[verifier::loop_isolation(false)]
pub fn hash(input: &BitSequence) -> (r: [u8; 32])
    requires
        input.wf(),
        input@.len() < 0x0800_0000,
    ensures
        r@ == sm3_digest_bits(input@),
        r@.len() == 32,
{
    let bit_len: u64 = input.len();
    let mut padded = input.duplicate();
    padded.push_bit(true);
    let rem = (bit_len + 65) % 512;
    let k: u64 = (512 - rem) % 512;
    let mut z: u64 = 0;
    while z < k
        invariant
            z <= k,
            padded.wf(),
            padded@ == input@ + seq![true] + zero_bits(z as nat),
            padded@.len() == bit_len + 1 + z,
            k < 512,
            bit_len == input@.len(),
            bit_len < 0x0800_0000,
        decreases k - z,
    {
        padded.push_bit(false);
        z += 1;
        proof {
            assert(padded@ =~= input@ + seq![true] + zero_bits(z as nat));
        }
    }
    let mut lb: Vec<u8> = Vec::new();
    let mut t: usize = 0;
    while t < 8
        invariant
            t <= 8,
            lb@.len() == t,
            bit_len == input@.len(),
            forall|i: int| 0 <= i < t
                ==> lb@[i] == ((bit_len as nat / pow2((8 * (7 - i)) as nat)) % 0x100) as u8,
        decreases 8 - t,
    {
        let sh: u64 = pw64(8 * (7 - t as u64));
        lb.push(((bit_len / sh) % 0x100) as u8);
        t += 1;
    }
    proof {
        lemma2_to64();
        vstd::arithmetic::power2::lemma_pow2_strictly_increases(27, 64);
        lemma_len_field_bits(bit_len as nat, lb@);
        assert(padded@ + bytes_bits(lb@) =~= sm3_padded_bits(input@));
        crate::bytes::lemma_byte_count(&padded);
        vstd::arithmetic::div_mod::lemma_div_is_ordered(
            padded@.len() as int,
            0x0800_0000 + 577int,
            8,
        );
    }
    padded.append_bytes(lb.as_slice());
    proof {
        assert(padded@ == sm3_padded_bits(input@));
        // the padded length is a whole number of 512-bit blocks
        let total: int = padded@.len() as int;
        let r0: int = (bit_len as int + 65) % 512;
        let q0: int = (bit_len as int + 65) / 512;
        lemma_fundamental_div_mod(bit_len as int + 65, 512);
        if r0 == 0 {
            lemma_fundamental_div_mod_converse_mod(total, 512, q0, 0);
        } else {
            lemma_fundamental_div_mod_converse_mod(total, 512, q0 + 1, 0);
        }
        lemma_padded_aligned(&padded);
    }
    let bytes = padded.get_bytes();
    let n_bytes = bytes.len();
    let blocks = n_bytes / 64;
    let mut state = Sm3State {
        a: 0x7380166f,
        b: 0x4914b2b9,
        c: 0x172442d7,
        d: 0xda8a0600,
        e: 0xa96f30bc,
        f: 0x163138aa,
        g: 0xe38dee4d,
        h: 0xb0fb0e4e,
    };
    let mut i: usize = 0;
    while i < blocks
        invariant
            i <= blocks,
            blocks == n_bytes / 64,
            n_bytes == bytes@.len(),
            n_bytes % 64 == 0,
            bytes@ == bytes_of_bits(sm3_padded_bits(input@)),
            state == spec_iterate(spec_iv(), bytes@, i as nat),
        decreases blocks - i,
    {
        proof {
            vstd::arithmetic::div_mod::lemma_remainder_lower(n_bytes as int, 64);
            assert(64 * (i + 1) <= n_bytes) by (nonlinear_arith)
                requires
                    i < blocks,
                    blocks == n_bytes / 64,
                    n_bytes % 64 == 0,
                    n_bytes == 64 * blocks + n_bytes % 64,
            ;
        }
        cf(&mut state, bytes, 64 * i);
        proof {
            assert(64 * i + 64 == 64 * (i + 1) as int);
        }
        i += 1;
    }
    proof {
        lemma_fundamental_div_mod(n_bytes as int, 64);
        assert(blocks == bytes@.len() / 64);
    }
    let out: [u8; 32] = [
        (state.a >> 24) as u8, ((state.a >> 16) & 0xff) as u8,
        ((state.a >> 8) & 0xff) as u8, (state.a & 0xff) as u8,
        (state.b >> 24) as u8, ((state.b >> 16) & 0xff) as u8,
        ((state.b >> 8) & 0xff) as u8, (state.b & 0xff) as u8,
        (state.c >> 24) as u8, ((state.c >> 16) & 0xff) as u8,
        ((state.c >> 8) & 0xff) as u8, (state.c & 0xff) as u8,
        (state.d >> 24) as u8, ((state.d >> 16) & 0xff) as u8,
        ((state.d >> 8) & 0xff) as u8, (state.d & 0xff) as u8,
        (state.e >> 24) as u8, ((state.e >> 16) & 0xff) as u8,
        ((state.e >> 8) & 0xff) as u8, (state.e & 0xff) as u8,
        (state.f >> 24) as u8, ((state.f >> 16) & 0xff) as u8,
        ((state.f >> 8) & 0xff) as u8, (state.f & 0xff) as u8,
        (state.g >> 24) as u8, ((state.g >> 16) & 0xff) as u8,
        ((state.g >> 8) & 0xff) as u8, (state.g & 0xff) as u8,
        (state.h >> 24) as u8, ((state.h >> 16) & 0xff) as u8,
        ((state.h >> 8) & 0xff) as u8, (state.h & 0xff) as u8,
    ];
    proof {
        reveal(sm3_digest_bits);
        lemma_word_shift_bytes(state.a);
        lemma_word_shift_bytes(state.b);
        lemma_word_shift_bytes(state.c);
        lemma_word_shift_bytes(state.d);
        lemma_word_shift_bytes(state.e);
        lemma_word_shift_bytes(state.f);
        lemma_word_shift_bytes(state.g);
        lemma_word_shift_bytes(state.h);
        assert(out@ =~= state_bytes(state));
    }
    out
}

/// `2^s` as a `u64`, for `s < 64`.
fn pw64(s: u64) -> (r: u64)
    requires
        s < 64,
    ensures
        r == pow2(s as nat),
        r >= 1,
{
    let mut r: u64 = 1;
    let mut j: u64 = 0;
    proof {
        lemma2_to64();
        vstd::arithmetic::power2::lemma2_to64_rest();
    }
    while j < s
        invariant
            j <= s,
            s < 64,
            r == pow2(j as nat),
            r >= 1,
        decreases s - j,
    {
        proof {
            vstd::arithmetic::power2::lemma_pow2_strictly_increases(j as nat, 63);
            vstd::arithmetic::power2::lemma2_to64_rest();
            vstd::arithmetic::power2::lemma_pow2_unfold((j + 1) as nat);
        }
        r = r * 2;
        j += 1;
    }
    r
}

/// Shifting a word right and masking reads its big-endian bytes.
proof fn lemma_word_shift_bytes(w: u32)
    ensures
        (w >> 24) as u8 == (w / 0x100_0000) as u8,
        ((w >> 16) & 0xff) as u8 == ((w / 0x1_0000) % 0x100) as u8,
        ((w >> 8) & 0xff) as u8 == ((w / 0x100) % 0x100) as u8,
        (w & 0xff) as u8 == (w % 0x100) as u8,
{
    assert((w >> 24) == w / 0x100_0000) by (bit_vector);
    assert(((w >> 16) & 0xff) == (w / 0x1_0000) % 0x100) by (bit_vector);
    assert(((w >> 8) & 0xff) == (w / 0x100) % 0x100) by (bit_vector);
    assert((w & 0xff) == w % 0x100) by (bit_vector);
}

/// The eight bytes of the length field carry exactly its 64 length bits.
proof fn lemma_len_field_bits(v: nat, lb: Seq<u8>)
    requires
        v < pow2(64),
        lb.len() == 8,
        forall|i: int| 0 <= i < 8
            ==> lb[i] == ((v / pow2((8 * (7 - i)) as nat)) % 0x100) as u8,
    ensures
        bytes_bits(lb) == len_bits(v),
{
    lemma2_to64();
    assert forall|t: int| 0 <= t < 64 implies bytes_bits(lb)[t] == len_bits(v)[t] by {
        let i = t / 8;
        let k = t % 8;
        assert(0 <= i < 8) by {
            vstd::arithmetic::div_mod::lemma_div_pos_is_pos(t, 8);
            vstd::arithmetic::div_mod::lemma_multiply_divide_lt(t, 8, 8);
        }
        // byte_bit(lb[i], k) == (v / 2^(63 - t)) % 2
        let e_byte: nat = (8 * (7 - i)) as nat;
        let e_bit: nat = (7 - k) as nat;
        let e_tot: nat = (63 - t) as nat;
        assert(e_tot == e_byte + e_bit);
        lemma_pow2_pos_all();
        vstd::arithmetic::power2::lemma_pow2_adds(e_byte, e_bit);
        // lb[i] == (v / 2^e_byte) % 256, so lb[i] / 2^e_bit % 2
        //        == v / 2^(e_byte + e_bit) % 2
        let q: int = v as int / pow2(e_byte) as int;
        let b: int = q % 0x100;
        // q / 2^e_bit % 2 == b / 2^e_bit % 2 because 0x100 == 2^e_bit * 2^(8 - e_bit)
        lemma_low_bits_agree(q, e_bit);
        lemma_div_denominator(v as int, pow2(e_byte) as int, pow2(e_bit) as int);
    }
    assert(bytes_bits(lb) =~= len_bits(v));
}

/// All the byte-level powers of two are positive.
proof fn lemma_pow2_pos_all()
    ensures
        forall|e: nat| e <= 64 ==> #[trigger] pow2(e) >= 1,
{
    assert forall|e: nat| e <= 64 implies #[trigger] pow2(e) >= 1 by {
        vstd::arithmetic::power2::lemma_pow2_pos(e);
    }
}

/// A value and its low byte agree on bits below the byte boundary.
proof fn lemma_low_bits_agree(q: int, e_bit: nat)
    requires
        0 <= q,
        e_bit < 8,
    ensures
        (q % 0x100) / pow2(e_bit) as int % 2 == q / pow2(e_bit) as int % 2,
{
    lemma2_to64();
    vstd::arithmetic::power2::lemma_pow2_pos(e_bit);
    let p: int = pow2(e_bit) as int;
    let hi: int = q / 0x100;
    let lo: int = q % 0x100;
    lemma_fundamental_div_mod(q, 0x100);
    // q == 0x100 * hi + lo, and 0x100 == p * 2^(8 - e_bit)
    vstd::arithmetic::power2::lemma_pow2_adds(e_bit, (8 - e_bit) as nat);
    let m: int = pow2((8 - e_bit) as nat) as int;
    vstd::arithmetic::power2::lemma_pow2_pos((8 - e_bit) as nat);
    // q / p == m * hi + lo / p
    assert(q == (m * hi) * p + lo) by (nonlinear_arith)
        requires
            q == 0x100 * hi + lo,
            0x100 == p * m,
    ;
    assert(lo / p < m) by {
        vstd::arithmetic::div_mod::lemma_multiply_divide_lt(lo, p, m);
    }
    assert(lo / p >= 0) by {
        vstd::arithmetic::div_mod::lemma_div_pos_is_pos(lo, p);
    }
    lemma_fundamental_div_mod(lo, p);
    assert(q == (m * hi + lo / p) * p + lo % p) by (nonlinear_arith)
        requires
            q == (m * hi) * p + lo,
            lo == (lo / p) * p + lo % p,
    ;
    lemma_fundamental_div_mod_converse_div(q, p, m * hi + lo / p, lo % p);
    // now mod 2: m is even because e_bit < 8
    assert(m % 2 == 0) by {
        vstd::arithmetic::power2::lemma_pow2_unfold((8 - e_bit) as nat);
        lemma_fundamental_div_mod_converse_mod(
            m,
            2,
            pow2((8 - e_bit - 1) as nat) as int,
            0,
        );
    }
    let hm: int = m / 2;
    lemma_fundamental_div_mod(m, 2);
    assert((m * hi + lo / p) % 2 == (lo / p) % 2) by {
        vstd::arithmetic::div_mod::lemma_mod_multiples_vanish(hm * hi, lo / p, 2);
        assert(m * hi == 2 * (hm * hi)) by (nonlinear_arith)
            requires
                m == 2 * hm,
        ;
    }
}

/// A sequence whose bit length is a whole number of bytes is byte-aligned,
/// and its bytes carry exactly its bits.
pub proof fn lemma_aligned_bytes(s: &BitSequence)
    requires
        s.wf(),
        s@.len() % 8 == 0,
    ensures
        s.spec_bytes() == bytes_of_bits(s@),
        s@ == bytes_bits(s.spec_bytes()),
        s.spec_bytes().len() * 8 == s@.len(),
{
    let n = s.spec_bytes().len() as int;
    crate::bytes::lemma_wf_facts(s);
    // alignment: a partial last byte would make the length not divisible by 8
    if s.spec_last_len() > 0 {
        let l = s.spec_last_len() as int;
        assert(s.spec_bytes().len() > 0);
        assert(s.spec_bit_len() == ((s.spec_bytes().len() - 1) * 8 + s.spec_last_len()) as nat);
        assert(s@.len() == s.spec_bit_len());
        assert(s@.len() == 8 * (n - 1) + l);
        lemma_fundamental_div_mod_converse_mod(8 * (n - 1) + l, 8, n - 1, l);
        assert(s@.len() % 8 == l);
        assert(false);
    }
    assert(s@.len() == 8 * n || n == 0);
    assert(s@ =~= bytes_bits(s.spec_bytes()));
    assert forall|i: int| 0 <= i < n
        implies bytes_of_bits(s@)[i] == s.spec_bytes()[i] by {
        lemma_fundamental_div_mod_converse_div(8 * n, 8, n, 0);
        assert(bytes_of_bits(s@).len() == n);
        lemma_byte_of_its_bits(s.spec_bytes(), i);
    }
    assert(bytes_of_bits(s@) =~= s.spec_bytes());
}

/// A 512-bit multiple is byte-aligned with a block-aligned byte count.
proof fn lemma_padded_aligned(s: &BitSequence)
    requires
        s.wf(),
        s@.len() % 512 == 0,
    ensures
        s.spec_bytes() == bytes_of_bits(s@),
        s.spec_bytes().len() % 64 == 0,
        s@ == bytes_bits(s.spec_bytes()),
{
    lemma_mod_chain_512_8(s@.len() as int);
    lemma_aligned_bytes(s);
    let n = s.spec_bytes().len() as int;
    lemma_fundamental_div_mod(s@.len() as int, 512);
    let q: int = s@.len() as int / 512;
    assert(8 * n == 512 * q || n == 0);
    if n > 0 {
        assert(n == 64 * q);
        lemma_fundamental_div_mod_converse_mod(n, 64, q, 0);
    } else {
        lemma_fundamental_div_mod_converse_mod(0, 64, 0, 0);
    }
}

/// A multiple of 512 bits is a multiple of 8 bits.
proof fn lemma_mod_chain_512_8(v: int)
    requires
        v >= 0,
        v % 512 == 0,
    ensures
        v % 8 == 0,
{
    let q: int = v / 512;
    lemma_fundamental_div_mod(v, 512);
    assert(v == 8 * (64 * q)) by (nonlinear_arith)
        requires
            v == 512 * q,
    ;
    lemma_fundamental_div_mod_converse_mod(v, 8, 64 * q, 0);
}

/// Regrouping a byte run's bits gives the bytes back.
pub proof fn lemma_bytes_of_their_bits(s: Seq<u8>)
    ensures
        bytes_of_bits(bytes_bits(s)) == s,
{
    let bits = bytes_bits(s);
    assert(bits.len() == s.len() * 8);
    lemma_fundamental_div_mod_converse_div(s.len() as int * 8, 8, s.len() as int, 0);
    assert(bytes_of_bits(bits).len() == s.len());
    assert forall|i: int| 0 <= i < s.len()
        implies bytes_of_bits(bits)[i] == s[i] by {
        lemma_byte_of_its_bits(s, i);
    }
    assert(bytes_of_bits(bits) =~= s);
}

/// Reassembling a byte from its eight bits gives the byte back.
proof fn lemma_byte_of_its_bits(s: Seq<u8>, i: int)
    requires
        0 <= i < s.len(),
    ensures
        bits_byte(bytes_bits(s), 8 * i) == s[i],
{
    let b = s[i];
    lemma2_to64();
    assert forall|k: int| 0 <= k < 8
        implies bytes_bits(s)[8 * i + k] == byte_bit(b, k) by {
        lemma_fundamental_div_mod_converse_div(8 * i + k, 8, i, k);
        lemma_fundamental_div_mod_converse_mod(8 * i + k, 8, i, k);
    }
    // b equals the weighted sum of its bits
    lemma_byte_digits(b);
}

/// A byte is the weighted sum of its eight bits.
proof fn lemma_byte_digits(b: u8)
    ensures
        b == (if byte_bit(b, 0) { 0x80nat } else { 0nat })
            + (if byte_bit(b, 1) { 0x40nat } else { 0nat })
            + (if byte_bit(b, 2) { 0x20nat } else { 0nat })
            + (if byte_bit(b, 3) { 0x10nat } else { 0nat })
            + (if byte_bit(b, 4) { 8nat } else { 0nat })
            + (if byte_bit(b, 5) { 4nat } else { 0nat })
            + (if byte_bit(b, 6) { 2nat } else { 0nat })
            + (if byte_bit(b, 7) { 1nat } else { 0nat }),
{
    lemma2_to64();
    let v: int = b as int;
    lemma_div_denominator(v, 2, 2);
    lemma_div_denominator(v, 4, 2);
    lemma_div_denominator(v, 8, 2);
    lemma_div_denominator(v, 16, 2);
    lemma_div_denominator(v, 32, 2);
    lemma_div_denominator(v, 64, 2);
    lemma_fundamental_div_mod(v, 2);
    lemma_fundamental_div_mod(v / 2, 2);
    lemma_fundamental_div_mod(v / 4, 2);
    lemma_fundamental_div_mod(v / 8, 2);
    lemma_fundamental_div_mod(v / 16, 2);
    lemma_fundamental_div_mod(v / 32, 2);
    lemma_fundamental_div_mod(v / 64, 2);
    assert(v / 128 < 2) by {
        vstd::arithmetic::div_mod::lemma_multiply_divide_lt(v, 128, 2);
    }
    assert(v / 128 >= 0) by {
        vstd::arithmetic::div_mod::lemma_div_pos_is_pos(v, 128);
    }
    lemma_fundamental_div_mod(v / 128, 2);
    assert((v / 128) % 2 == v / 128) by {
        vstd::arithmetic::div_mod::lemma_small_mod((v / 128) as nat, 2);
    }
    vstd::arithmetic::div_mod::lemma_div_basics(v);
    assert(v == 128 * ((v / 128) % 2) + 64 * ((v / 64) % 2) + 32 * ((v / 32) % 2)
        + 16 * ((v / 16) % 2) + 8 * ((v / 8) % 2) + 4 * ((v / 4) % 2)
        + 2 * ((v / 2) % 2) + v % 2);
    assert(byte_bit(b, 0) == ((v / 128) % 2 == 1));
    assert(byte_bit(b, 1) == ((v / 64) % 2 == 1));
    assert(byte_bit(b, 2) == ((v / 32) % 2 == 1));
    assert(byte_bit(b, 3) == ((v / 16) % 2 == 1));
    assert(byte_bit(b, 4) == ((v / 8) % 2 == 1));
    assert(byte_bit(b, 5) == ((v / 4) % 2 == 1));
    assert(byte_bit(b, 6) == ((v / 2) % 2 == 1));
    assert(byte_bit(b, 7) == (v % 2 == 1));
}

} // verus!
