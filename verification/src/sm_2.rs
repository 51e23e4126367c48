//! The SM2 protocols: key generation, signing and verification, the
//! three-pass authenticated key exchange, and hybrid encryption.
//!
//! Every deterministic computation is pinned to a spec-level transcription;
//! the randomised entry points state what holds of their output for some
//! admissible draw of the ephemeral scalar.

use vstd::prelude::*;
use vstd::arithmetic::power2::pow2;
use crate::u256::U256;
use crate::u256::le_bytes_val_from;
use crate::u256::nat_le_bytes32;
use crate::u256::u256_of_nat;
use crate::bytes::BitSequence;
use crate::bytes::bytes_bits;
use crate::sm_3::hash;
use crate::sm_3::sm3_digest_bits;
use crate::ecc::EccParams;
use crate::ecc::EccPoint;
use crate::ecc::EccError;
use crate::ecc::spec_ecc_mul;
use crate::ecc::spec_ecc_add;
use crate::ecc::spec_pt_wf;
use crate::ecc::spec_on_curve;

pub use crate::ecc::pubkey_validate;

verus! {

broadcast use crate::u256::lemma_u256_nat_bound;

/// The reasons an SM2 protocol step can be refused.
#[derive(Clone, Copy, PartialEq, Eq, Structural, Debug)]
pub enum Sm2Error {
    /// A received point is not a valid point of the agreed curve.
    InvalidPoint,
    /// A shared or derived point degenerated to the identity.
    DegeneratePoint,
    /// A derived key stream was entirely zero.
    DegenerateKey,
    /// A confirmation or integrity tag did not match.
    InvalidTag,
    /// A ciphertext is too short to parse.
    InvalidCiphertext,
    /// A point lies outside the prime-order subgroup.
    InvalidSubgroup,
    /// A required modular inverse does not exist.
    NoInverse,
    /// The randomness source kept yielding values outside the needed range.
    RandomFailure,
    /// A curve operation failed on degenerate input.
    CurveFault,
}

/// Curve parameters fit for the protocols: moduli large enough for the
/// arithmetic, and a base point with reduced coordinates.
pub open spec fn spec_params_wf(params: EccParams) -> bool {
    &&& params.p.as_nat() > 2
    &&& params.n.as_nat() > 2
    &&& params.g_x.as_nat() < params.p.as_nat()
    &&& params.g_y.as_nat() < params.p.as_nat()
}

/// The base point.
pub open spec fn spec_base(params: EccParams) -> EccPoint {
    EccPoint { x: params.g_x, y: params.g_y, params, infinity: false }
}

/// The standard SM2 curve.
pub fn sm2_params() -> (r: EccParams)
    ensures
        spec_params_wf(r),
        r.p.as_nat() == 0xFFFFFFFE_FFFFFFFF_FFFFFFFF_FFFFFFFF_FFFFFFFF_00000000_FFFFFFFF_FFFFFFFF,
        r.a.as_nat() == 0xFFFFFFFE_FFFFFFFF_FFFFFFFF_FFFFFFFF_FFFFFFFF_00000000_FFFFFFFF_FFFFFFFC,
        r.b.as_nat() == 0x28E9FA9E_9D9F5E34_4D5A9E4B_CF6509A7_F39789F5_15AB8F92_DDBCBD41_4D940E93,
        r.n.as_nat() == 0xFFFFFFFE_FFFFFFFF_FFFFFFFF_FFFFFFFF_7203DF6B_21C6052B_53BBF409_39D54123,
        r.g_x.as_nat() == 0x32C4AE2C_1F198119_5F990446_6A39C994_8FE30BBF_F2660BE1_715A4589_334C74C7,
        r.g_y.as_nat() == 0xBC3736A2_F4F6779C_59BDCEE3_6B692153_D0A9877C_C62A4740_02DF32E5_2139F0A0,
{
    let p = U256::from_be_u64_array(&[
        0xFFFFFFFE_FFFFFFFF,
        0xFFFFFFFF_FFFFFFFF,
        0xFFFFFFFF_00000000,
        0xFFFFFFFF_FFFFFFFF,
    ]);
    let a = U256::from_be_u64_array(&[
        0xFFFFFFFE_FFFFFFFF,
        0xFFFFFFFF_FFFFFFFF,
        0xFFFFFFFF_00000000,
        0xFFFFFFFF_FFFFFFFC,
    ]);
    let b = U256::from_be_u64_array(&[
        0x28E9FA9E_9D9F5E34,
        0x4D5A9E4B_CF6509A7,
        0xF39789F5_15AB8F92,
        0xDDBCBD41_4D940E93,
    ]);
    let n = U256::from_be_u64_array(&[
        0xFFFFFFFE_FFFFFFFF,
        0xFFFFFFFF_FFFFFFFF,
        0x7203DF6B_21C6052B,
        0x53BBF409_39D54123,
    ]);
    let g_x = U256::from_be_u64_array(&[
        0x32C4AE2C_1F198119,
        0x5F990446_6A39C994,
        0x8FE30BBF_F2660BE1,
        0x715A4589_334C74C7,
    ]);
    let g_y = U256::from_be_u64_array(&[
        0xBC3736A2_F4F6779C,
        0x59BDCEE3_6B692153,
        0xD0A9877C_C62A4740,
        0x02DF32E5_2139F0A0,
    ]);
    EccParams { a, b, p, n, g_x, g_y }
}

/// The bits of a 16-bit little-endian length prefix.
pub open spec fn u16_le_bits(v: nat) -> Seq<bool> {
    bytes_bits(seq![(v % 0x100) as u8, ((v / 0x100) % 0x100) as u8])
}

/// The bits of a 32-bit little-endian counter.
pub open spec fn ctr_le_bytes(i: nat) -> Seq<u8> {
    seq![
        (i % 0x100) as u8,
        ((i / 0x100) % 0x100) as u8,
        ((i / 0x1_0000) % 0x100) as u8,
        ((i / 0x100_0000) % 0x100) as u8,
    ]
}

/// The bits of a 256-bit value, serialised as its 32 little-endian bytes.
pub open spec fn u256_le_bits(x: U256) -> Seq<bool> {
    bytes_bits(nat_le_bytes32(x.as_nat()))
}

/// The transcript the Z-value hashes: the identifier length and bits, the
/// curve constants, the base point, and the public key.
pub open spec fn spec_z_input(params: EccParams, id: Seq<bool>, pk: EccPoint) -> Seq<bool> {
    u16_le_bits(id.len()) + id + u256_le_bits(params.a) + u256_le_bits(params.b)
        + u256_le_bits(params.g_x) + u256_le_bits(params.g_y) + u256_le_bits(pk.x)
        + u256_le_bits(pk.y)
}

/// The identity-binding Z-value.
pub open spec fn spec_get_z(params: EccParams, id: Seq<bool>, pk: EccPoint) -> U256 {
    u256_of_nat(le_bytes_val_from(sm3_digest_bits(spec_z_input(params, id, pk)), 0))
}

/// The first `cnt` counter blocks of the key-derivation stream.
pub open spec fn spec_kdf_blocks(z: Seq<bool>, cnt: nat) -> Seq<bool>
    decreases cnt,
{
    if cnt == 0 {
        Seq::empty()
    } else {
        spec_kdf_blocks(z, (cnt - 1) as nat)
            + bytes_bits(sm3_digest_bits(z + bytes_bits(ctr_le_bytes(cnt))))
    }
}

/// The key-derivation function: counter-mode hashing, truncated to the
/// requested bit length.
pub open spec fn spec_kdf(z: Seq<bool>, l: nat) -> Seq<bool> {
    spec_kdf_blocks(z, (l + 255) / 256).take(l as int)
}

/// Append a `U256` as its 32 little-endian bytes.
fn append_u256(seq: &mut BitSequence, x: &U256)
    requires
        old(seq).wf(),
        old(seq)@.len() < 0x0200_0000,
    ensures
        final(seq).wf(),
        final(seq)@ == old(seq)@ + u256_le_bits(*x),
{
    let bytes = x.into_le_bytes();
    proof {
        crate::bytes::lemma_byte_count(old(seq));
    }
    seq.append_bytes(bytes.as_slice());
}

/// The Z-value of an identity and public key under a curve.
pub fn get_z(params: &EccParams, id: &BitSequence, public_key: &EccPoint) -> (r: U256)
    requires
        id.wf(),
        id@.len() < 0x1_0000,
    ensures
        r == spec_get_z(*params, id@, *public_key),
{
    let mut bits = BitSequence::new_empty();
    let id_len: u64 = id.len();
    let prefix: [u8; 2] = [(id_len % 0x100) as u8, ((id_len / 0x100) % 0x100) as u8];
    proof {
        assert(prefix@ =~= seq![
            ((id@.len() % 0x100) as u8),
            (((id@.len() / 0x100) % 0x100) as u8),
        ]);
        crate::bytes::lemma_byte_count(id);
    }
    bits.append_bytes(prefix.as_slice());
    proof {
        crate::bytes::lemma_byte_count(&bits);
    }
    bits.append_bits(id);
    append_u256(&mut bits, &params.a);
    append_u256(&mut bits, &params.b);
    append_u256(&mut bits, &params.g_x);
    append_u256(&mut bits, &params.g_y);
    append_u256(&mut bits, &public_key.x);
    append_u256(&mut bits, &public_key.y);
    proof {
        assert(bits@ =~= spec_z_input(*params, id@, *public_key));
    }
    let digest = hash(&bits);
    U256::from_le_bytes(&digest)
}

/// Expand a seed into exactly `target_length` pseudorandom bits.
pub fn key_derivation_function(sequence: &BitSequence, target_length: u64) -> (r: BitSequence)
    requires
        sequence.wf(),
        sequence@.len() < 0x0100_0000,
        target_length < 0x0100_0000,
    ensures
        r.wf(),
        r@ == spec_kdf(sequence@, target_length as nat),
        r@.len() == target_length,
{
    let mut result = BitSequence::new_empty();
    let full_blocks: u64 = target_length / 256;
    let rem: u64 = target_length % 256;
    let mut i: u64 = 0;
    proof {
        assert(result@ =~= spec_kdf_blocks(sequence@, 0));
        crate::bytes::lemma_wf_facts(sequence);
        crate::bytes::lemma_byte_count(sequence);
    }
    while i < full_blocks
        invariant
            sequence.wf(),
            sequence@.len() < 0x0100_0000,
            result.wf(),
            i <= full_blocks,
            full_blocks == target_length / 256,
            target_length < 0x0100_0000,
            result@ == spec_kdf_blocks(sequence@, i as nat),
            result@.len() == 256 * i,
        decreases full_blocks - i,
    {
        let block = kdf_block(sequence, i + 1);
        proof {
            crate::bytes::lemma_byte_count(&result);
            vstd::arithmetic::div_mod::lemma_remainder_lower(target_length as int, 256);
        }
        result.append_bytes(block.as_slice());
        i += 1;
        proof {
            assert(result@ =~= spec_kdf_blocks(sequence@, i as nat));
        }
    }
    if rem > 0 {
        let block = kdf_block(sequence, full_blocks + 1);
        let hs = BitSequence::with_bytes(block.as_slice());
        let sliced = match hs.slice(0, rem) {
            Ok(s) => s,
            Err(_) => {
                proof {
                    assert(false);
                }
                BitSequence::new_empty()
            },
        };
        proof {
            crate::bytes::lemma_byte_count(&result);
            crate::bytes::lemma_byte_count(&sliced);
        }
        result.append_bits(&sliced);
        proof {
            assert((target_length as nat + 255) / 256 == full_blocks + 1) by {
                vstd::arithmetic::div_mod::lemma_fundamental_div_mod(
                    target_length as int,
                    256,
                );
                vstd::arithmetic::div_mod::lemma_fundamental_div_mod_converse_div(
                    target_length as int + 255,
                    256,
                    full_blocks as int + 1,
                    rem as int - 1,
                );
            }
            assert(sliced@
                == bytes_bits(sm3_digest_bits(
                    sequence@ + bytes_bits(ctr_le_bytes((full_blocks + 1) as nat)),
                )).subrange(0, rem as int));
            assert(result@ =~= spec_kdf(sequence@, target_length as nat));
        }
    } else {
        proof {
            assert((target_length as nat + 255) / 256 == full_blocks) by {
                vstd::arithmetic::div_mod::lemma_fundamental_div_mod(
                    target_length as int,
                    256,
                );
                vstd::arithmetic::div_mod::lemma_fundamental_div_mod_converse_div(
                    target_length as int + 255,
                    256,
                    full_blocks as int,
                    255,
                );
            }
            assert(result@ =~= spec_kdf(sequence@, target_length as nat));
        }
    }
    result
}

/// A private scalar with its public point.
pub struct KeyPair {
    pub private_key: U256,
    pub public_key: EccPoint,
}

/// Everything a signer needs besides the message.
#[derive(Clone)]
pub struct SigningInput {
    pub params: EccParams,
    pub id: BitSequence,
    pub public_key: EccPoint,
    pub private_key: U256,
}

impl SigningInput {
    /// Bundle the signer's parameters, identity, and keys.
    pub fn new(
        params: &EccParams,
        id: BitSequence,
        public_key: EccPoint,
        private_key: U256,
    ) -> (r: Self)
        ensures
            r.params == *params,
            r.id == id,
            r.public_key == public_key,
            r.private_key == private_key,
    {
        SigningInput { params: *params, id, public_key, private_key }
    }
}

/// Everything a verifier needs besides the message and signature.
#[derive(Clone)]
pub struct SigningVerificationInput {
    pub params: EccParams,
    pub id: BitSequence,
    pub public_key: EccPoint,
}

impl SigningVerificationInput {
    /// Bundle the verifier's parameters, identity, and key.
    pub fn new(params: &EccParams, id: BitSequence, public_key: EccPoint) -> (r: Self)
        ensures
            r.params == *params,
            r.id == id,
            r.public_key == public_key,
    {
        SigningVerificationInput { params: *params, id, public_key }
    }
}

/// The message digest bound to an identity: `H(Z || M)` as an integer.
pub open spec fn spec_e(params: EccParams, id: Seq<bool>, pk: EccPoint, msg: Seq<bool>) -> U256 {
    u256_of_nat(
        le_bytes_val_from(
            sm3_digest_bits(u256_le_bits(spec_get_z(params, id, pk)) + msg),
            0,
        ),
    )
}

/// Compute `H(Z || M)` as an integer.
fn message_digest(params: &EccParams, id: &BitSequence, pk: &EccPoint, message: &BitSequence)
    -> (r: U256)
    requires
        id.wf(),
        id@.len() < 0x1_0000,
        message.wf(),
        message@.len() < 0x0100_0000,
    ensures
        r == spec_e(*params, id@, *pk, message@),
{
    let z = get_z(params, id, pk);
    let zb = z.into_le_bytes();
    let mut m_bar = BitSequence::with_bytes(zb.as_slice());
    proof {
        crate::bytes::lemma_byte_count(message);
        crate::bytes::lemma_byte_count(&m_bar);
    }
    m_bar.append_bits(message);
    let digest = hash(&m_bar);
    U256::from_le_bytes(&digest)
}

/// One attempt at a signature with nonce `k`: the rejected draws give
/// nothing.
pub open spec fn spec_sign_attempt(params: EccParams, d: nat, e: nat, k: nat) -> Option<
    (nat, nat),
> {
    let n = params.n.as_nat();
    match spec_ecc_mul(params, spec_base(params), k) {
        Err(_) => None,
        Ok(pt) => {
            let r = (e % n + pt.x.as_nat() % n) % n;
            if r == 0 || (r + k) % n == 0 {
                None
            } else {
                match crate::ecc::spec_inv((d % n + 1) % n, n) {
                    None => None,
                    Some(iv) => {
                        let s = (iv * (((k + n - (r * d) % n) as nat) % n)) % n;
                        if s == 0 {
                            None
                        } else {
                            Some((r, s))
                        }
                    },
                }
            }
        },
    }
}

/// A signature byte pair is the successful outcome of an attempt.
pub open spec fn spec_sig_ok(
    params: EccParams,
    d: nat,
    e: nat,
    k: nat,
    rb: Seq<u8>,
    sb: Seq<u8>,
) -> bool {
    match spec_sign_attempt(params, d, e, k) {
        Some(pair) => rb == nat_le_bytes32(pair.0) && sb == nat_le_bytes32(pair.1),
        None => false,
    }
}

/// One signing attempt with a fixed nonce; `Ok(None)` means the nonce was
/// rejected and a fresh one is needed.
#[verifier::rlimit(100)]
fn sign_attempt(
    params: &EccParams,
    g: EccPoint,
    private_key: U256,
    inv: U256,
    e_red: U256,
    Ghost(e_full): Ghost<nat>,
    k: U256,
) -> (r: Result<Option<(U256, U256)>, Sm2Error>)
    requires
        spec_params_wf(*params),
        g == spec_base(*params),
        e_red.as_nat() == e_full % params.n.as_nat(),
        crate::ecc::spec_inv(
            (private_key.as_nat() % params.n.as_nat() + 1) % params.n.as_nat(),
            params.n.as_nat(),
        ) == Some(inv.as_nat()),
        inv.as_nat() < params.n.as_nat(),
        1 <= k.as_nat() < params.n.as_nat(),
    ensures
        r matches Ok(opt) ==> {
            match spec_sign_attempt(*params, private_key.as_nat(), e_full, k.as_nat()) {
                Some(pair) => opt matches Some(ru_su) && ru_su.0.as_nat() == pair.0
                    && ru_su.1.as_nat() == pair.1,
                None => opt is None,
            }
        },
        r matches Err(e) ==> e == Sm2Error::CurveFault,
{
    let n = params.n;
    let kg = match g.ecc_mul(k, params) {
        Err(_) => {
            return Err(Sm2Error::CurveFault);
        },
        Ok(pt) => pt,
    };
    let r_u = e_red.mod_add(kg.x.modded(n), n);
    if r_u.is_zero() {
        return Ok(None);
    }
    if r_u.mod_add(k, n).is_zero() {
        return Ok(None);
    }
    let rd = r_u.mod_mul(private_key, n);
    let km = crate::modular::sub_mod(k, rd, n);
    let s_u = inv.mod_mul(km, n);
    if s_u.is_zero() {
        return Ok(None);
    }
    Ok(Some((r_u, s_u)))
}

/// Draw nonces until an attempt succeeds, within a generous retry budget.
#[verifier::rlimit(100)]
fn sign_loop(
    params: &EccParams,
    g: EccPoint,
    private_key: U256,
    inv: U256,
    e_red: U256,
    Ghost(e_full): Ghost<nat>,
    one: U256,
) -> (r: Result<(U256, U256), Sm2Error>)
    requires
        spec_params_wf(*params),
        g == spec_base(*params),
        e_red.as_nat() == e_full % params.n.as_nat(),
        crate::ecc::spec_inv(
            (private_key.as_nat() % params.n.as_nat() + 1) % params.n.as_nat(),
            params.n.as_nat(),
        ) == Some(inv.as_nat()),
        inv.as_nat() < params.n.as_nat(),
        one.as_nat() == 1,
    ensures
        r matches Ok(pair) ==> exists|kv: nat|
            1 <= kv < params.n.as_nat() && #[trigger] spec_sign_attempt(
                *params,
                private_key.as_nat(),
                e_full,
                kv,
            ) == Some((pair.0.as_nat(), pair.1.as_nat())),
        r matches Err(e) ==> e == Sm2Error::CurveFault || e == Sm2Error::RandomFailure,
{
    let n = params.n;
    let mut tries: u8 = 0;
    while tries < 64
        invariant
            tries <= 64,
            spec_params_wf(*params),
            g == spec_base(*params),
            n == params.n,
            e_red.as_nat() == e_full % params.n.as_nat(),
            crate::ecc::spec_inv(
                (private_key.as_nat() % params.n.as_nat() + 1) % params.n.as_nat(),
                params.n.as_nat(),
            ) == Some(inv.as_nat()),
            inv.as_nat() < params.n.as_nat(),
            one.as_nat() == 1,
        decreases 64 - tries,
    {
        let k = match U256::random_in_range(one, n) {
            None => {
                return Err(Sm2Error::RandomFailure);
            },
            Some(k) => k,
        };
        match sign_attempt(params, g, private_key, inv, e_red, Ghost(e_full), k) {
            Err(e) => {
                return Err(e);
            },
            Ok(None) => {
                tries += 1;
            },
            Ok(Some(pair)) => {
                proof {
                    let kv: nat = k.as_nat();
                    assert(1 <= kv < params.n.as_nat() && spec_sign_attempt(
                        *params,
                        private_key.as_nat(),
                        e_full,
                        kv,
                    ) == Some((pair.0.as_nat(), pair.1.as_nat())));
                }
                return Ok(pair);
            },
        }
    }
    Err(Sm2Error::RandomFailure)
}

/// Some admissible nonce explains this signature byte pair.
pub open spec fn spec_signed(
    params: EccParams,
    d: nat,
    e: nat,
    rb: Seq<u8>,
    sb: Seq<u8>,
) -> bool {
    exists|kv: nat|
        1 <= kv < params.n.as_nat() && #[trigger] spec_sig_ok(params, d, e, kv, rb, sb)
}

/// Sign a message: draw nonces until one survives the rejection rules.
#[verifier::rlimit(100)]
pub fn generate_signature(input: &SigningInput, message: &BitSequence) -> (r: Result<
    ([u8; 32], [u8; 32]),
    Sm2Error,
>)
    requires
        spec_params_wf(input.params),
        input.id.wf(),
        input.id@.len() < 0x1_0000,
        message.wf(),
        message@.len() < 0x0100_0000,
    ensures
        r matches Ok(sig) ==> spec_signed(
            input.params,
            input.private_key.as_nat(),
            spec_e(input.params, input.id@, input.public_key, message@).as_nat(),
            sig.0@,
            sig.1@,
        ),
        r == Err::<([u8; 32], [u8; 32]), Sm2Error>(Sm2Error::NoInverse)
            <==> crate::ecc::spec_inv(
            (input.private_key.as_nat() % input.params.n.as_nat() + 1)
                % input.params.n.as_nat(),
            input.params.n.as_nat(),
        ) is None,
        r matches Err(e) ==> e == Sm2Error::NoInverse || e == Sm2Error::CurveFault
            || e == Sm2Error::RandomFailure,
{
    let e_u = message_digest(&input.params, &input.id, &input.public_key, message);
    let ghost e_full: nat = e_u.as_nat();
    let n = input.params.n;
    let one = U256::from_u64(1);
    let g = EccPoint::new(input.params.g_x, input.params.g_y, &input.params, false);
    proof {
        assert(g == spec_base(input.params));
    }
    let d_red = input.private_key.modded(n);
    let t_u = d_red.mod_add(one, n);
    let inv = match t_u.mod_inv(n) {
        None => {
            return Err(Sm2Error::NoInverse);
        },
        Some(iv) => iv,
    };
    proof {
        crate::ecc::lemma_inv_value(t_u.as_nat(), n.as_nat(), inv.as_nat());
    }
    let e_red = e_u.modded(n);
    match sign_loop(&input.params, g, input.private_key, inv, e_red, Ghost(e_full), one) {
        Err(e) => Err(e),
        Ok(pair) => {
            let rb = pair.0.into_le_bytes();
            let sb = pair.1.into_le_bytes();
            let out: ([u8; 32], [u8; 32]) = (rb, sb);
            proof {
                let kv: nat = choose|kv: nat|
                    1 <= kv < input.params.n.as_nat() && #[trigger] spec_sign_attempt(
                        input.params,
                        input.private_key.as_nat(),
                        e_full,
                        kv,
                    ) == Some((pair.0.as_nat(), pair.1.as_nat()));
                assert(spec_sig_ok(
                    input.params,
                    input.private_key.as_nat(),
                    e_full,
                    kv,
                    rb@,
                    sb@,
                ));
                assert(e_full
                    == spec_e(input.params, input.id@, input.public_key, message@).as_nat());
                assert(spec_sig_ok(
                    input.params,
                    input.private_key.as_nat(),
                    spec_e(input.params, input.id@, input.public_key, message@).as_nat(),
                    kv,
                    rb@,
                    sb@,
                ));
                assert(out.0@ == rb@ && out.1@ == sb@);
                assert(spec_signed(
                    input.params,
                    input.private_key.as_nat(),
                    spec_e(input.params, input.id@, input.public_key, message@).as_nat(),
                    out.0@,
                    out.1@,
                ));
            }
            Ok(out)
        },
    }
}

/// Whether a signature byte pair verifies for this identity and key.
pub open spec fn spec_verify(
    params: EccParams,
    id: Seq<bool>,
    pk: EccPoint,
    msg: Seq<bool>,
    rb: Seq<u8>,
    sb: Seq<u8>,
) -> bool {
    let n = params.n.as_nat();
    let rv = le_bytes_val_from(rb, 0);
    let sv = le_bytes_val_from(sb, 0);
    if rv == 0 || rv >= n || sv == 0 || sv >= n {
        false
    } else if (rv + sv) % n == 0 {
        false
    } else {
        match spec_ecc_mul(params, spec_base(params), sv) {
            Err(_) => false,
            Ok(p1) => match spec_ecc_mul(params, pk, (rv + sv) % n) {
                Err(_) => false,
                Ok(p2) => match spec_ecc_add(params, p1, p2) {
                    Err(_) => false,
                    Ok(sum) => {
                        let e = spec_e(params, id, pk, msg).as_nat();
                        (e % n + sum.x.as_nat() % n) % n == rv
                    },
                },
            },
        }
    }
}

/// Verify a signature byte pair against an identity and public key.
pub fn verify_signature(
    input: &SigningVerificationInput,
    message: &BitSequence,
    signature: ([u8; 32], [u8; 32]),
) -> (r: bool)
    requires
        spec_params_wf(input.params),
        spec_pt_wf(input.params, input.public_key),
        input.public_key.params == input.params,
        input.id.wf(),
        input.id@.len() < 0x1_0000,
        message.wf(),
        message@.len() < 0x0100_0000,
    ensures
        r == spec_verify(
            input.params,
            input.id@,
            input.public_key,
            message@,
            signature.0@,
            signature.1@,
        ),
{
    let n = input.params.n;
    let r_u = U256::from_le_bytes(&signature.0);
    let s_u = U256::from_le_bytes(&signature.1);
    if r_u.is_zero() || !(r_u < n) || s_u.is_zero() || !(s_u < n) {
        return false;
    }
    let t = r_u.mod_add(s_u, n);
    if t.is_zero() {
        return false;
    }
    let g = EccPoint::new(input.params.g_x, input.params.g_y, &input.params, false);
    proof {
        assert(g == spec_base(input.params));
    }
    let p1 = match g.ecc_mul(s_u, &input.params) {
        Err(_) => {
            return false;
        },
        Ok(pt) => pt,
    };
    let p2 = match input.public_key.ecc_mul(t, &input.params) {
        Err(_) => {
            return false;
        },
        Ok(pt) => pt,
    };
    let sum = match p1.ecc_add(p2, &input.params) {
        Err(_) => {
            return false;
        },
        Ok(pt) => pt,
    };
    let e_u = message_digest(&input.params, &input.id, &input.public_key, message);
    let check = e_u.modded(n).mod_add(sum.x.modded(n), n);
    let r = check == r_u;
    proof {
        U256::lemma_as_nat_injective(check, r_u);
    }
    r
}

/// Generate a key pair: a scalar in `[1, n-2]` with its public point.
pub fn key_gen(params: &EccParams) -> (r: Result<KeyPair, Sm2Error>)
    requires
        spec_params_wf(*params),
    ensures
        r matches Ok(kp) ==> {
            &&& 1 <= kp.private_key.as_nat() < params.n.as_nat() - 1
            &&& spec_ecc_mul(*params, spec_base(*params), kp.private_key.as_nat())
                == Ok::<EccPoint, EccError>(kp.public_key)
            &&& spec_pt_wf(*params, kp.public_key)
            &&& kp.public_key.params == *params
        },
{
    let one = U256::from_u64(1);
    let nm1 = params.n.wrapping_sub(one);
    proof {
        vstd::arithmetic::div_mod::lemma_mod_sub_multiples_vanish(
            params.n.as_nat() + crate::u256::radix256() as int - 1,
            crate::u256::radix256() as int,
        );
        vstd::arithmetic::div_mod::lemma_small_mod(
            (params.n.as_nat() - 1) as nat,
            crate::u256::radix256(),
        );
    }
    let d = match U256::random_in_range(one, nm1) {
        None => {
            return Err(Sm2Error::RandomFailure);
        },
        Some(d) => d,
    };
    let g = EccPoint::new(params.g_x, params.g_y, params, false);
    proof {
        assert(g == spec_base(*params));
    }
    match g.ecc_mul(d, params) {
        Err(_) => Err(Sm2Error::CurveFault),
        Ok(p) => Ok(KeyPair { private_key: d, public_key: p }),
    }
}

/// One counter block of the derivation stream.
fn kdf_block(sequence: &BitSequence, counter: u64) -> (r: [u8; 32])
    requires
        sequence.wf(),
        sequence@.len() < 0x0100_0000,
        counter < 0x1_0000_0000,
    ensures
        r@ == sm3_digest_bits(sequence@ + bytes_bits(ctr_le_bytes(counter as nat))),
{
    proof {
        crate::bytes::lemma_byte_count(sequence);
    }
    let mut tmp = sequence.duplicate();
    let cb: [u8; 4] = [
        (counter % 0x100) as u8,
        ((counter / 0x100) % 0x100) as u8,
        ((counter / 0x1_0000) % 0x100) as u8,
        ((counter / 0x100_0000) % 0x100) as u8,
    ];
    proof {
        assert(cb@ =~= ctr_le_bytes(counter as nat));
    }
    tmp.append_bytes(cb.as_slice());
    hash(&tmp)
}


/// Whether a bit position below `i` is set.
fn has_set_bit(s: &BitSequence) -> (r: bool)
    requires
        s.wf(),
    ensures
        r == exists|i: int| 0 <= i < s@.len() && s@[i],
{
    let n = s.len();
    let mut j: u64 = 0;
    while j < n
        invariant
            s.wf(),
            j <= n,
            n == s@.len(),
            forall|i: int| 0 <= i < j ==> !s@[i],
        decreases n - j,
    {
        if s.get_bit(j) {
            return true;
        }
        j += 1;
    }
    false
}

/// Whether two bit sequences hold the same bits.
fn eq_bits(a: &BitSequence, b: &BitSequence) -> (r: bool)
    requires
        a.wf(),
        b.wf(),
    ensures
        r == (a@ == b@),
{
    let n = a.len();
    if n != b.len() {
        return false;
    }
    let mut j: u64 = 0;
    while j < n
        invariant
            a.wf(),
            b.wf(),
            j <= n,
            n == a@.len(),
            n == b@.len(),
            forall|i: int| 0 <= i < j ==> a@[i] == b@[i],
        decreases n - j,
    {
        if a.get_bit(j) != b.get_bit(j) {
            proof {
                assert(a@ != b@);
            }
            return false;
        }
        j += 1;
    }
    proof {
        assert(a@ =~= b@);
    }
    true
}

/// Whether two 32-byte tags are equal.
fn bytes32_equal(a: &[u8; 32], b: &[u8; 32]) -> (r: bool)
    ensures
        r == (a@ == b@),
{
    let mut i: usize = 0;
    while i < 32
        invariant
            i <= 32,
            forall|t: int| 0 <= t < i ==> a@[t] == b@[t],
        decreases 32 - i,
    {
        if a[i] != b[i] {
            proof {
                assert(a@ != b@);
            }
            return false;
        }
        i += 1;
    }
    proof {
        assert(a@ =~= b@);
    }
    true
}

/// The position of the highest set bit, as a unique spec value.
pub open spec fn hbit_ok(v: nat, h: nat) -> bool {
    (v == 0 && h == 0) || (v > 0 && h > 0 && pow2((h - 1) as nat) <= v < pow2(h))
}

/// The bit length of a value.
pub open spec fn spec_hbit(v: nat) -> nat {
    choose|h: nat| #[trigger] hbit_ok(v, h)
}

/// Any witness of `hbit_ok` is the bit length.
pub proof fn lemma_hbit(v: nat, h: nat)
    requires
        hbit_ok(v, h),
    ensures
        spec_hbit(v) == h,
{
    assert(exists|w: nat| #[trigger] hbit_ok(v, w)) by {
        assert(hbit_ok(v, h));
    }
    let w = choose|w: nat| #[trigger] hbit_ok(v, w);
    if w != h {
        if v > 0 {
            if w < h {
                vstd::arithmetic::power2::lemma_pow2_adds((w as nat), 0);
                vstd::arithmetic::power2::lemma_pow2_strictly_increases(w, (h - 1) as nat);
                assert(false);
            } else {
                vstd::arithmetic::power2::lemma_pow2_strictly_increases(h, (w - 1) as nat);
                assert(false);
            }
        }
    }
}

/// The masking exponent: half the order's bit length, less one.
pub open spec fn spec_omega(params: EccParams) -> nat {
    (((spec_hbit(params.n.as_nat()) + 1) / 2) - 1) as nat
}

/// The folded half-width coordinate `2^w + (x mod 2^w)`.
pub open spec fn spec_xbar(params: EccParams, x: U256) -> nat {
    pow2(spec_omega(params)) + x.as_nat() % pow2(spec_omega(params))
}

/// The shared point `[t](statik + [xbar] eph)`.
pub open spec fn spec_shared(
    params: EccParams,
    statik: EccPoint,
    eph: EccPoint,
    xbar: nat,
    t: nat,
) -> Result<EccPoint, EccError> {
    match spec_ecc_mul(params, eph, xbar) {
        Err(e) => Err(e),
        Ok(m) => match spec_ecc_add(params, statik, m) {
            Err(e) => Err(e),
            Ok(sum) => spec_ecc_mul(params, sum, t),
        },
    }
}

/// The seed of the session key: both shared coordinates and both Z-values.
pub open spec fn spec_secret_bits(v: EccPoint, za: U256, zb: U256) -> Seq<bool> {
    u256_le_bits(v.x) + u256_le_bits(v.y) + u256_le_bits(za) + u256_le_bits(zb)
}

/// The inner confirmation transcript.
pub open spec fn spec_internal_bits(
    vx: U256,
    za: U256,
    zb: U256,
    ra: EccPoint,
    rb: EccPoint,
) -> Seq<bool> {
    u256_le_bits(vx) + u256_le_bits(za) + u256_le_bits(zb) + u256_le_bits(ra.x)
        + u256_le_bits(ra.y) + u256_le_bits(rb.x) + u256_le_bits(rb.y)
}

/// A confirmation tag: the label, the shared `y`, and the hashed transcript.
pub open spec fn spec_tag(tag: u8, vy: U256, internal: Seq<bool>) -> Seq<u8> {
    sm3_digest_bits(
        bytes_bits(seq![tag]) + u256_le_bits(vy) + bytes_bits(sm3_digest_bits(internal)),
    )
}

/// The masking exponent of the curve order.
fn omega_exec(params: &EccParams) -> (w: u32)
    requires
        spec_params_wf(*params),
    ensures
        w == spec_omega(*params),
        w <= 127,
{
    let h = params.n.highest_bit();
    proof {
        vstd::arithmetic::power2::lemma2_to64();
        assert(h > 0);
        if h == 1 {
            assert(params.n.as_nat() < pow2(1));
            assert(false);
        }
        lemma_hbit(params.n.as_nat(), h as nat);
    }
    ((h + 1) / 2 - 1) as u32
}

/// The folded half-width coordinate.
fn xbar_exec(params: &EccParams, x: &U256) -> (r: U256)
    requires
        spec_params_wf(*params),
    ensures
        r.as_nat() == spec_xbar(*params, *x),
{
    let w = omega_exec(params);
    let pw = U256::from_u64(1).shl(w);
    proof {
        vstd::arithmetic::power2::lemma_pow2_strictly_increases(w as nat, 256);
        crate::u256::lemma_pow2_named();
        vstd::arithmetic::mul::lemma_mul_basics(pow2(w as nat) as int);
        vstd::arithmetic::div_mod::lemma_small_mod(pow2(w as nat), crate::u256::radix256());
        vstd::arithmetic::power2::lemma_pow2_pos(w as nat);
    }
    let xm = x.modded(pw);
    let r = pw.wrapping_add(xm);
    proof {
        vstd::arithmetic::power2::lemma_pow2_strictly_increases(w as nat, 255);
        vstd::arithmetic::div_mod::lemma_small_mod(
            (pw.as_nat() + xm.as_nat()) as nat,
            crate::u256::radix256(),
        );
    }
    r
}

/// Build the session-key seed.
fn build_secret(v: &EccPoint, za: &U256, zb: &U256) -> (r: BitSequence)
    ensures
        r.wf(),
        r@ == spec_secret_bits(*v, *za, *zb),
{
    let mut s = BitSequence::new_empty();
    append_u256(&mut s, &v.x);
    append_u256(&mut s, &v.y);
    append_u256(&mut s, za);
    append_u256(&mut s, zb);
    s
}

/// Build the inner confirmation transcript.
fn build_internal(vx: &U256, za: &U256, zb: &U256, ra: &EccPoint, rb: &EccPoint)
    -> (r: BitSequence)
    ensures
        r.wf(),
        r@ == spec_internal_bits(*vx, *za, *zb, *ra, *rb),
{
    let mut s = BitSequence::new_empty();
    append_u256(&mut s, vx);
    append_u256(&mut s, za);
    append_u256(&mut s, zb);
    append_u256(&mut s, &ra.x);
    append_u256(&mut s, &ra.y);
    append_u256(&mut s, &rb.x);
    append_u256(&mut s, &rb.y);
    s
}

/// Compute a confirmation tag.
fn compute_tag(tag: u8, vy: &U256, internal: &BitSequence) -> (r: [u8; 32])
    requires
        internal.wf(),
        internal@.len() < 0x0010_0000,
    ensures
        r@ == spec_tag(tag, *vy, internal@),
{
    let inner = hash(internal);
    let mut s = BitSequence::new_empty();
    let tb: [u8; 1] = [tag];
    proof {
        assert(tb@ =~= seq![tag]);
    }
    s.append_bytes(tb.as_slice());
    proof {
        crate::bytes::lemma_byte_count(&s);
    }
    append_u256(&mut s, vy);
    proof {
        crate::bytes::lemma_byte_count(&s);
    }
    s.append_bytes(inner.as_slice());
    hash(&s)
}


/// The two identities and key pairs a key exchange runs between.
pub struct ExchangeKeyInput {
    pub params: EccParams,
    pub id: BitSequence,
    pub public_key: EccPoint,
    pub other_id: BitSequence,
    pub other_public_key: EccPoint,
}

/// What the initiator keeps between its two calls.
pub struct ExchangeKeyStateInitiator {
    pub r_point: EccPoint,
    pub r: U256,
}

/// What the responder keeps for the final validation.
pub struct ExchangeKeyStateReceiver {
    pub r_point: EccPoint,
    pub v: EccPoint,
    pub r_point_other: EccPoint,
}

/// The responder's session key and its reply payload.
pub struct ExchangeKeyGenerateOutput {
    pub key: BitSequence,
    pub payload: ExchangeKeyGeneratePayload,
}

/// The responder's ephemeral point and confirmation tag.
#[derive(Clone, Copy)]
pub struct ExchangeKeyGeneratePayload {
    pub received: EccPoint,
    pub validator: [u8; 32],
}

/// The initiator's session key and final confirmation tag.
pub struct ExchangeKeyConfirmOutput {
    pub key: BitSequence,
    pub payload: [u8; 32],
}

/// A received ephemeral point fit to compute with: the agreed curve, finite,
/// and on the curve.
pub open spec fn spec_peer_point_ok(params: EccParams, pt: EccPoint) -> bool {
    pt.params == params && !pt.infinity && spec_on_curve(params, pt)
}

/// The responder's whole deterministic computation, given its ephemeral
/// scalar: the reply point, the shared point, the session key bits, and the
/// confirmation tag.
pub open spec fn spec_exchange_generate(
    params: EccParams,
    self_id: Seq<bool>,
    self_pk: EccPoint,
    other_id: Seq<bool>,
    other_pk: EccPoint,
    received: EccPoint,
    d: U256,
    klen: nat,
    rv: nat,
) -> Result<(EccPoint, EccPoint, Seq<bool>, Seq<u8>), Sm2Error> {
    if !spec_peer_point_ok(params, received) {
        Err(Sm2Error::InvalidPoint)
    } else {
        match spec_ecc_mul(params, spec_base(params), rv) {
            Err(_) => Err(Sm2Error::CurveFault),
            Ok(r_point) => {
                let x1b = spec_xbar(params, received.x);
                let x2b = spec_xbar(params, r_point.x);
                let n = params.n.as_nat();
                let t = (d.as_nat() % n + (x2b * rv) % n) % n;
                match spec_shared(params, other_pk, received, x1b, t) {
                    Err(_) => Err(Sm2Error::CurveFault),
                    Ok(v) => if v.infinity {
                        Err(Sm2Error::DegeneratePoint)
                    } else {
                        let za = spec_get_z(params, other_id, other_pk);
                        let zb = spec_get_z(params, self_id, self_pk);
                        let key = spec_kdf(spec_secret_bits(v, za, zb), klen);
                        let internal = spec_internal_bits(v.x, za, zb, received, r_point);
                        Ok((r_point, v, key, spec_tag(2, v.y, internal)))
                    },
                }
            },
        }
    }
}

/// Some admissible ephemeral scalar explains this responder output.
pub open spec fn spec_exchange_generated(
    params: EccParams,
    self_id: Seq<bool>,
    self_pk: EccPoint,
    other_id: Seq<bool>,
    other_pk: EccPoint,
    received: EccPoint,
    d: U256,
    klen: nat,
    r_point: EccPoint,
    v: EccPoint,
    key: Seq<bool>,
    validator: Seq<u8>,
) -> bool {
    exists|rv: nat|
        1 <= rv < params.n.as_nat() && #[trigger] spec_exchange_generate(
            params,
            self_id,
            self_pk,
            other_id,
            other_pk,
            received,
            d,
            klen,
            rv,
        ) == Ok::<_, Sm2Error>((r_point, v, key, validator))
}

/// Open a key exchange: an ephemeral scalar and its public point.
pub fn exchange_key_initiate(input: &ExchangeKeyInput) -> (r: Result<
    (EccPoint, ExchangeKeyStateInitiator),
    Sm2Error,
>)
    requires
        spec_params_wf(input.params),
    ensures
        r matches Ok(out) ==> {
            &&& out.0 == out.1.r_point
            &&& 1 <= out.1.r.as_nat() < input.params.n.as_nat()
            &&& spec_ecc_mul(input.params, spec_base(input.params), out.1.r.as_nat())
                == Ok::<EccPoint, EccError>(out.1.r_point)
            &&& spec_pt_wf(input.params, out.1.r_point)
            &&& out.1.r_point.params == input.params
        },
{
    let one = U256::from_u64(1);
    let rr = match U256::random_in_range(one, input.params.n) {
        None => {
            return Err(Sm2Error::RandomFailure);
        },
        Some(rr) => rr,
    };
    let g = EccPoint::new(input.params.g_x, input.params.g_y, &input.params, false);
    proof {
        assert(g == spec_base(input.params));
    }
    match g.ecc_mul(rr, &input.params) {
        Err(_) => Err(Sm2Error::CurveFault),
        Ok(r_point) => Ok((r_point, ExchangeKeyStateInitiator { r_point, r: rr })),
    }
}

/// The responder's step with a fixed ephemeral scalar.
#[verifier::rlimit(100)]
pub fn exchange_key_generate_with(
    input: &ExchangeKeyInput,
    received: &EccPoint,
    private_key: U256,
    klen: u64,
    rv: U256,
) -> (r: Result<(ExchangeKeyGenerateOutput, ExchangeKeyStateReceiver), Sm2Error>)
    requires
        spec_params_wf(input.params),
        spec_pt_wf(input.params, input.other_public_key),
        input.other_public_key.params == input.params,
        input.id.wf(),
        input.id@.len() < 0x1_0000,
        input.other_id.wf(),
        input.other_id@.len() < 0x1_0000,
        klen < 0x0100_0000,
        1 <= rv.as_nat() < input.params.n.as_nat(),
    ensures
        r matches Ok(out) ==> {
            &&& out.0.key.wf()
            &&& out.0.payload.received == out.1.r_point
            &&& out.1.r_point_other == *received
            &&& spec_exchange_generate(
                input.params,
                input.id@,
                input.public_key,
                input.other_id@,
                input.other_public_key,
                *received,
                private_key,
                klen as nat,
                rv.as_nat(),
            ) == Ok::<_, Sm2Error>((
                out.1.r_point,
                out.1.v,
                out.0.key@,
                out.0.payload.validator@,
            ))
        },
        r matches Err(e) ==> spec_exchange_generate(
            input.params,
            input.id@,
            input.public_key,
            input.other_id@,
            input.other_public_key,
            *received,
            private_key,
            klen as nat,
            rv.as_nat(),
        ) == Err::<(EccPoint, EccPoint, Seq<bool>, Seq<u8>), Sm2Error>(e),
{
    let params = &input.params;
    if received.infinity || !received.validate_on_given_curve(params) {
        return Err(Sm2Error::InvalidPoint);
    }
    let n = params.n;
    let g = EccPoint::new(params.g_x, params.g_y, params, false);
    proof {
        assert(g == spec_base(input.params));
    }
    let r_point = match g.ecc_mul(rv, params) {
        Err(_) => {
            return Err(Sm2Error::CurveFault);
        },
        Ok(pt) => pt,
    };
    let x1b = xbar_exec(params, &received.x);
    let x2b = xbar_exec(params, &r_point.x);
    let t = private_key.modded(n).mod_add(x2b.mod_mul(rv, n), n);
    let m1 = match received.ecc_mul(x1b, params) {
        Err(_) => {
            return Err(Sm2Error::CurveFault);
        },
        Ok(pt) => pt,
    };
    let sum = match input.other_public_key.ecc_add(m1, params) {
        Err(_) => {
            return Err(Sm2Error::CurveFault);
        },
        Ok(pt) => pt,
    };
    let v = match sum.ecc_mul(t, params) {
        Err(_) => {
            return Err(Sm2Error::CurveFault);
        },
        Ok(pt) => pt,
    };
    if v.infinity {
        return Err(Sm2Error::DegeneratePoint);
    }
    let za = get_z(params, &input.other_id, &input.other_public_key);
    let zb = get_z(params, &input.id, &input.public_key);
    let secret = build_secret(&v, &za, &zb);
    let key = key_derivation_function(&secret, klen);
    let internal = build_internal(&v.x, &za, &zb, received, &r_point);
    let validator = compute_tag(2, &v.y, &internal);
    Ok((
        ExchangeKeyGenerateOutput {
            key,
            payload: ExchangeKeyGeneratePayload { received: r_point, validator },
        },
        ExchangeKeyStateReceiver { r_point, v, r_point_other: *received },
    ))
}

/// The responder's step: validate the initiator's point, derive the session
/// key, and emit the reply payload.
pub fn exchange_key_generate(
    input: &ExchangeKeyInput,
    received: &EccPoint,
    private_key: U256,
    klen: u64,
) -> (r: Result<(ExchangeKeyGenerateOutput, ExchangeKeyStateReceiver), Sm2Error>)
    requires
        spec_params_wf(input.params),
        spec_pt_wf(input.params, input.other_public_key),
        input.other_public_key.params == input.params,
        input.id.wf(),
        input.id@.len() < 0x1_0000,
        input.other_id.wf(),
        input.other_id@.len() < 0x1_0000,
        klen < 0x0100_0000,
    ensures
        r matches Ok(out) ==> {
            &&& out.0.key.wf()
            &&& out.0.payload.received == out.1.r_point
            &&& out.1.r_point_other == *received
            &&& spec_exchange_generated(
                input.params,
                input.id@,
                input.public_key,
                input.other_id@,
                input.other_public_key,
                *received,
                private_key,
                klen as nat,
                out.1.r_point,
                out.1.v,
                out.0.key@,
                out.0.payload.validator@,
            )
        },
        r == Err::<(ExchangeKeyGenerateOutput, ExchangeKeyStateReceiver), Sm2Error>(
            Sm2Error::InvalidPoint,
        ) <==> !spec_peer_point_ok(input.params, *received),
        r matches Err(e) ==> e == Sm2Error::InvalidPoint || e == Sm2Error::RandomFailure
            || e == Sm2Error::CurveFault || e == Sm2Error::DegeneratePoint,
{
    if received.infinity || !received.validate_on_given_curve(&input.params) {
        return Err(Sm2Error::InvalidPoint);
    }
    let one = U256::from_u64(1);
    let rv = match U256::random_in_range(one, input.params.n) {
        None => {
            return Err(Sm2Error::RandomFailure);
        },
        Some(rv) => rv,
    };
    match exchange_key_generate_with(input, received, private_key, klen, rv) {
        Err(e) => {
            proof {
                assert(e != Sm2Error::InvalidPoint && (e == Sm2Error::CurveFault
                    || e == Sm2Error::DegeneratePoint));
            }
            Err(e)
        },
        Ok(out) => {
            proof {
                let a: nat = rv.as_nat();
                assert(1 <= a < input.params.n.as_nat() && spec_exchange_generate(
                    input.params,
                    input.id@,
                    input.public_key,
                    input.other_id@,
                    input.other_public_key,
                    *received,
                    private_key,
                    klen as nat,
                    a,
                ) == Ok::<_, Sm2Error>((
                    out.1.r_point,
                    out.1.v,
                    out.0.key@,
                    out.0.payload.validator@,
                )));
            }
            Ok(out)
        },
    }
}

/// The initiator's whole deterministic second step.
pub open spec fn spec_exchange_confirm(
    params: EccParams,
    self_id: Seq<bool>,
    self_pk: EccPoint,
    other_id: Seq<bool>,
    other_pk: EccPoint,
    st_r_point: EccPoint,
    st_r: U256,
    recv: EccPoint,
    validator: Seq<u8>,
    d: U256,
    klen: nat,
) -> Result<(Seq<bool>, Seq<u8>), Sm2Error> {
    if !spec_peer_point_ok(params, recv) {
        Err(Sm2Error::InvalidPoint)
    } else {
        let x1b = spec_xbar(params, st_r_point.x);
        let x2b = spec_xbar(params, recv.x);
        let n = params.n.as_nat();
        let t = (d.as_nat() % n + (x1b * st_r.as_nat()) % n) % n;
        match spec_shared(params, other_pk, recv, x2b, t) {
            Err(_) => Err(Sm2Error::CurveFault),
            Ok(u) => if u.infinity {
                Err(Sm2Error::DegeneratePoint)
            } else {
                let za = spec_get_z(params, self_id, self_pk);
                let zb = spec_get_z(params, other_id, other_pk);
                let key = spec_kdf(spec_secret_bits(u, za, zb), klen);
                let internal = spec_internal_bits(u.x, za, zb, st_r_point, recv);
                if validator != spec_tag(2, u.y, internal) {
                    Err(Sm2Error::InvalidTag)
                } else {
                    Ok((key, spec_tag(3, u.y, internal)))
                }
            },
        }
    }
}

/// The initiator's second step: recompute the shared point, check the
/// responder's tag, and answer with the final tag.
#[verifier::rlimit(100)]
pub fn exchange_key_confirm(
    input: &ExchangeKeyInput,
    state: &ExchangeKeyStateInitiator,
    respond: &ExchangeKeyGeneratePayload,
    private_key: U256,
    klen: u64,
) -> (r: Result<ExchangeKeyConfirmOutput, Sm2Error>)
    requires
        spec_params_wf(input.params),
        spec_pt_wf(input.params, input.other_public_key),
        input.other_public_key.params == input.params,
        input.id.wf(),
        input.id@.len() < 0x1_0000,
        input.other_id.wf(),
        input.other_id@.len() < 0x1_0000,
        klen < 0x0100_0000,
    ensures
        r matches Ok(out) ==> out.key.wf() && spec_exchange_confirm(
            input.params,
            input.id@,
            input.public_key,
            input.other_id@,
            input.other_public_key,
            state.r_point,
            state.r,
            respond.received,
            respond.validator@,
            private_key,
            klen as nat,
        ) == Ok::<_, Sm2Error>((out.key@, out.payload@)),
        r matches Err(e) ==> spec_exchange_confirm(
            input.params,
            input.id@,
            input.public_key,
            input.other_id@,
            input.other_public_key,
            state.r_point,
            state.r,
            respond.received,
            respond.validator@,
            private_key,
            klen as nat,
        ) == Err::<(Seq<bool>, Seq<u8>), Sm2Error>(e),
{
    let params = &input.params;
    if respond.received.infinity || !respond.received.validate_on_given_curve(params) {
        return Err(Sm2Error::InvalidPoint);
    }
    let n = params.n;
    let x1b = xbar_exec(params, &state.r_point.x);
    let x2b = xbar_exec(params, &respond.received.x);
    let t = private_key.modded(n).mod_add(x1b.mod_mul(state.r, n), n);
    let m1 = match respond.received.ecc_mul(x2b, params) {
        Err(_) => {
            return Err(Sm2Error::CurveFault);
        },
        Ok(pt) => pt,
    };
    let sum = match input.other_public_key.ecc_add(m1, params) {
        Err(_) => {
            return Err(Sm2Error::CurveFault);
        },
        Ok(pt) => pt,
    };
    let u = match sum.ecc_mul(t, params) {
        Err(_) => {
            return Err(Sm2Error::CurveFault);
        },
        Ok(pt) => pt,
    };
    if u.infinity {
        return Err(Sm2Error::DegeneratePoint);
    }
    let za = get_z(params, &input.id, &input.public_key);
    let zb = get_z(params, &input.other_id, &input.other_public_key);
    let secret = build_secret(&u, &za, &zb);
    let key = key_derivation_function(&secret, klen);
    let internal = build_internal(&u.x, &za, &zb, &state.r_point, &respond.received);
    let tag1 = compute_tag(2, &u.y, &internal);
    if !bytes32_equal(&tag1, &respond.validator) {
        return Err(Sm2Error::InvalidTag);
    }
    let tag2 = compute_tag(3, &u.y, &internal);
    Ok(ExchangeKeyConfirmOutput { key, payload: tag2 })
}

/// The responder's final check of the initiator's tag.
pub open spec fn spec_exchange_validate(
    params: EccParams,
    self_id: Seq<bool>,
    self_pk: EccPoint,
    other_id: Seq<bool>,
    other_pk: EccPoint,
    st: (EccPoint, EccPoint, EccPoint),
    respond: Seq<u8>,
) -> bool {
    let za = spec_get_z(params, other_id, other_pk);
    let zb = spec_get_z(params, self_id, self_pk);
    let internal = spec_internal_bits(st.1.x, za, zb, st.2, st.0);
    respond == spec_tag(3, st.1.y, internal)
}

/// Validate the initiator's final confirmation tag.
pub fn exchange_key_validate(
    input: &ExchangeKeyInput,
    state: &ExchangeKeyStateReceiver,
    respond: &[u8; 32],
) -> (r: bool)
    requires
        spec_params_wf(input.params),
        input.id.wf(),
        input.id@.len() < 0x1_0000,
        input.other_id.wf(),
        input.other_id@.len() < 0x1_0000,
    ensures
        r == spec_exchange_validate(
            input.params,
            input.id@,
            input.public_key,
            input.other_id@,
            input.other_public_key,
            (state.r_point, state.v, state.r_point_other),
            respond@,
        ),
{
    let params = &input.params;
    let za = get_z(params, &input.other_id, &input.other_public_key);
    let zb = get_z(params, &input.id, &input.public_key);
    let internal = build_internal(&state.v.x, &za, &zb, &state.r_point_other, &state.r_point);
    let tag = compute_tag(3, &state.v.y, &internal);
    bytes32_equal(&tag, respond)
}


/// One encryption attempt with a fixed ephemeral scalar: `None` means the
/// draw was rejected and a fresh scalar is needed.
pub open spec fn spec_encrypt_with(
    params: EccParams,
    msg: Seq<bool>,
    pk: EccPoint,
    kv: nat,
) -> Option<Seq<bool>> {
    match spec_ecc_mul(params, spec_base(params), kv) {
        Err(_) => None,
        Ok(c1) => if c1.infinity {
            None
        } else {
            match spec_ecc_mul(params, pk, kv) {
                Err(_) => None,
                Ok(s) => if s.infinity {
                    None
                } else {
                    let t = spec_kdf(u256_le_bits(s.x) + u256_le_bits(s.y), msg.len());
                    if forall|i: int| 0 <= i < t.len() ==> !t[i] {
                        None
                    } else {
                        let c2 = Seq::new(msg.len(), |i: int| msg[i] != t[i]);
                        let c3 = bytes_bits(
                            sm3_digest_bits(u256_le_bits(s.x) + msg + u256_le_bits(s.y)),
                        );
                        Some(bytes_bits(crate::ecc::spec_point_bytes(c1)) + c2 + c3)
                    }
                },
            }
        },
    }
}

/// Some admissible ephemeral scalar explains this ciphertext.
pub open spec fn spec_encrypted(
    params: EccParams,
    msg: Seq<bool>,
    pk: EccPoint,
    ct: Seq<bool>,
) -> bool {
    exists|kv: nat|
        1 <= kv < params.n.as_nat() && #[trigger] spec_encrypt_with(params, msg, pk, kv)
            == Some(ct)
}

/// One encryption attempt with a fixed scalar.
#[verifier::rlimit(100)]
pub fn encrypt_with(
    params: &EccParams,
    message: &BitSequence,
    public_key: &EccPoint,
    kv: U256,
) -> (r: Result<Option<BitSequence>, Sm2Error>)
    requires
        spec_params_wf(*params),
        spec_pt_wf(*params, *public_key),
        public_key.params == *params,
        message.wf(),
        message@.len() < 0x0100_0000,
        1 <= kv.as_nat() < params.n.as_nat(),
    ensures
        r matches Ok(opt) ==> {
            match opt {
                Some(out) => out.wf() && spec_encrypt_with(
                    *params,
                    message@,
                    *public_key,
                    kv.as_nat(),
                ) == Some(out@),
                None => spec_encrypt_with(*params, message@, *public_key, kv.as_nat())
                    is None,
            }
        },
        r matches Err(e) ==> e == Sm2Error::CurveFault || e == Sm2Error::DegeneratePoint,
{
    let g = EccPoint::new(params.g_x, params.g_y, params, false);
    proof {
        assert(g == spec_base(*params));
    }
    let c1 = match g.ecc_mul(kv, params) {
        Err(_) => {
            return Err(Sm2Error::CurveFault);
        },
        Ok(pt) => pt,
    };
    if c1.infinity {
        return Err(Sm2Error::DegeneratePoint);
    }
    let s = match public_key.ecc_mul(kv, params) {
        Err(_) => {
            return Err(Sm2Error::CurveFault);
        },
        Ok(pt) => pt,
    };
    if s.infinity {
        return Err(Sm2Error::DegeneratePoint);
    }
    let msg_len = message.len();
    let mut seed = BitSequence::new_empty();
    append_u256(&mut seed, &s.x);
    append_u256(&mut seed, &s.y);
    let t = key_derivation_function(&seed, msg_len);
    if !has_set_bit(&t) {
        return Ok(None);
    }
    let c2 = match message.xor(&t) {
        Err(_) => {
            proof {
                assert(false);
            }
            return Err(Sm2Error::DegenerateKey);
        },
        Ok(c2) => c2,
    };
    let mut tag_in = BitSequence::new_empty();
    append_u256(&mut tag_in, &s.x);
    proof {
        crate::bytes::lemma_byte_count(message);
        crate::bytes::lemma_byte_count(&tag_in);
    }
    tag_in.append_bits(message);
    proof {
        crate::bytes::lemma_byte_count(&tag_in);
    }
    append_u256(&mut tag_in, &s.y);
    let c3 = hash(&tag_in);
    let c1_bytes = c1.to_bytes();
    let mut out = BitSequence::new_empty();
    out.append_bytes(c1_bytes.as_slice());
    proof {
        crate::bytes::lemma_byte_count(&out);
        crate::bytes::lemma_byte_count(&c2);
    }
    out.append_bits(&c2);
    proof {
        crate::bytes::lemma_byte_count(&out);
    }
    out.append_bytes(c3.as_slice());
    proof {
        assert(out@ =~= spec_encrypt_with(*params, message@, *public_key, kv.as_nat())
            .unwrap());
    }
    Ok(Some(out))
}

/// Encrypt a message to a public key: the point share, the masked message,
/// and the integrity tag.
pub fn encrypt(params: &EccParams, message: &BitSequence, public_key: &EccPoint) -> (r:
    Result<BitSequence, Sm2Error>)
    requires
        spec_params_wf(*params),
        spec_pt_wf(*params, *public_key),
        public_key.params == *params,
        message.wf(),
        message@.len() < 0x0100_0000,
    ensures
        r matches Ok(ct) ==> ct.wf() && spec_encrypted(*params, message@, *public_key, ct@),
        r == Err::<BitSequence, Sm2Error>(Sm2Error::InvalidSubgroup)
            <==> (spec_ecc_mul(*params, *public_key, params.n.as_nat()) matches Ok(q)
            && !q.infinity),
        r matches Err(e) ==> e == Sm2Error::CurveFault || e == Sm2Error::InvalidSubgroup
            || e == Sm2Error::DegeneratePoint || e == Sm2Error::RandomFailure,
{
    match public_key.ecc_mul(params.n, params) {
        Err(_) => {
            return Err(Sm2Error::CurveFault);
        },
        Ok(q) => {
            if !q.infinity {
                return Err(Sm2Error::InvalidSubgroup);
            }
        },
    }
    let one = U256::from_u64(1);
    let mut tries: u8 = 0;
    while tries < 64
        invariant
            tries <= 64,
            spec_params_wf(*params),
            spec_pt_wf(*params, *public_key),
            public_key.params == *params,
            message.wf(),
            message@.len() < 0x0100_0000,
            one.as_nat() == 1,
            spec_ecc_mul(*params, *public_key, params.n.as_nat()) matches Ok(q)
                && q.infinity,
        decreases 64 - tries,
    {
        let kv = match U256::random_in_range(one, params.n) {
            None => {
                return Err(Sm2Error::RandomFailure);
            },
            Some(kv) => kv,
        };
        match encrypt_with(params, message, public_key, kv) {
            Err(e) => {
                return Err(e);
            },
            Ok(None) => {
                tries += 1;
            },
            Ok(Some(out)) => {
                proof {
                    let a: nat = kv.as_nat();
                    assert(1 <= a < params.n.as_nat() && spec_encrypt_with(
                        *params,
                        message@,
                        *public_key,
                        a,
                    ) == Some(out@));
                }
                return Ok(out);
            },
        }
    }
    Err(Sm2Error::RandomFailure)
}

/// The whole deterministic decryption.
pub open spec fn spec_decrypt(params: EccParams, cipher: Seq<bool>, d: U256) -> Result<
    Seq<bool>,
    Sm2Error,
> {
    if cipher.len() < 520 + 256 {
        Err(Sm2Error::InvalidCiphertext)
    } else {
        let c1 = crate::ecc::spec_point_from_bytes(
            crate::sm_3::bytes_of_bits(cipher.subrange(0, 520)),
            params,
        );
        if !spec_on_curve(params, c1) {
            Err(Sm2Error::InvalidPoint)
        } else {
            match spec_ecc_mul(params, c1, params.n.as_nat()) {
                Err(_) => Err(Sm2Error::CurveFault),
                Ok(q) => if !q.infinity {
                    Err(Sm2Error::InvalidSubgroup)
                } else {
                    match spec_ecc_mul(params, c1, d.as_nat()) {
                        Err(_) => Err(Sm2Error::CurveFault),
                        Ok(p2) => {
                            let klen = cipher.len() - 520 - 256;
                            let t = spec_kdf(
                                u256_le_bits(p2.x) + u256_le_bits(p2.y),
                                klen as nat,
                            );
                            if forall|i: int| 0 <= i < t.len() ==> !t[i] {
                                Err(Sm2Error::DegenerateKey)
                            } else {
                                let c2 = cipher.subrange(520, cipher.len() - 256);
                                let m = Seq::new(klen as nat, |i: int| c2[i] != t[i]);
                                let u = sm3_digest_bits(
                                    u256_le_bits(p2.x) + m + u256_le_bits(p2.y),
                                );
                                if cipher.subrange(
                                    cipher.len() - 256,
                                    cipher.len() as int,
                                ) != bytes_bits(u) {
                                    Err(Sm2Error::InvalidTag)
                                } else {
                                    Ok(m)
                                }
                            }
                        },
                    }
                },
            }
        }
    }
}

/// Read the leading 65-byte point share out of a ciphertext.
#[verifier::rlimit(100)]
fn parse_c1(cipher_text: &BitSequence, params: &EccParams) -> (c1: EccPoint)
    requires
        cipher_text.wf(),
        cipher_text@.len() >= 776,
    ensures
        c1 == crate::ecc::spec_point_from_bytes(
            crate::sm_3::bytes_of_bits(cipher_text@.subrange(0, 520)),
            *params,
        ),
        !c1.infinity,
        c1.params == *params,
{
    let c1s = match cipher_text.slice(0, 520) {
        Err(_) => {
            proof {
                assert(false);
            }
            unreached()
        },
        Ok(s) => s,
    };
    proof {
        crate::sm_3::lemma_aligned_bytes(&c1s);
        vstd::arithmetic::div_mod::lemma_fundamental_div_mod_converse_mod(520, 8, 65, 0);
    }
    let c1b = c1s.get_bytes();
    proof {
        assert(c1b@ == crate::sm_3::bytes_of_bits(cipher_text@.subrange(0, 520)));
    }
    EccPoint::from_bytes(c1b, params)
}

/// Decrypt a ciphertext with a private scalar, checking the point share, the
/// subgroup, the key stream, and the integrity tag.
#[verifier::rlimit(100)]
pub fn decrypt(params: &EccParams, cipher_text: &BitSequence, private_key: U256) -> (r:
    Result<BitSequence, Sm2Error>)
    requires
        spec_params_wf(*params),
        cipher_text.wf(),
        cipher_text@.len() < 0x0100_0000,
    ensures
        r matches Ok(m) ==> m.wf() && spec_decrypt(*params, cipher_text@, private_key)
            == Ok::<Seq<bool>, Sm2Error>(m@),
        r matches Err(e) ==> spec_decrypt(*params, cipher_text@, private_key)
            == Err::<Seq<bool>, Sm2Error>(e),
{
    let len = cipher_text.len();
    if len < 520 + 256 {
        return Err(Sm2Error::InvalidCiphertext);
    }
    let c1 = parse_c1(cipher_text, params);
    if !c1.validate_on_curve() {
        return Err(Sm2Error::InvalidPoint);
    }
    match c1.ecc_mul(params.n, params) {
        Err(_) => {
            return Err(Sm2Error::CurveFault);
        },
        Ok(q) => {
            if !q.infinity {
                return Err(Sm2Error::InvalidSubgroup);
            }
        },
    }
    let p2 = match c1.ecc_mul(private_key, params) {
        Err(_) => {
            return Err(Sm2Error::CurveFault);
        },
        Ok(pt) => pt,
    };
    let klen = len - 520 - 256;
    let mut seed = BitSequence::new_empty();
    append_u256(&mut seed, &p2.x);
    append_u256(&mut seed, &p2.y);
    proof {
        assert(seed@ =~= u256_le_bits(p2.x) + u256_le_bits(p2.y));
    }
    let t = key_derivation_function(&seed, klen);
    if !has_set_bit(&t) {
        return Err(Sm2Error::DegenerateKey);
    }
    let c2 = match cipher_text.slice(520, len - 256) {
        Err(_) => {
            proof {
                assert(false);
            }
            return Err(Sm2Error::InvalidCiphertext);
        },
        Ok(s) => s,
    };
    let m = match c2.xor(&t) {
        Err(_) => {
            proof {
                assert(false);
            }
            return Err(Sm2Error::DegenerateKey);
        },
        Ok(m) => m,
    };
    proof {
        assert(m@ =~= Seq::new((klen as u64) as nat, |i: int|
            cipher_text@.subrange(520, len - 256)[i] != t@[i]));
    }
    let mut tag_in = BitSequence::new_empty();
    append_u256(&mut tag_in, &p2.x);
    proof {
        crate::bytes::lemma_byte_count(&m);
        crate::bytes::lemma_byte_count(&tag_in);
    }
    tag_in.append_bits(&m);
    proof {
        crate::bytes::lemma_byte_count(&tag_in);
    }
    append_u256(&mut tag_in, &p2.y);
    proof {
        assert(tag_in@ =~= u256_le_bits(p2.x) + m@ + u256_le_bits(p2.y));
    }
    let u = hash(&tag_in);
    let tag_bits = match cipher_text.slice(len - 256, len) {
        Err(_) => {
            proof {
                assert(false);
            }
            return Err(Sm2Error::InvalidCiphertext);
        },
        Ok(s) => s,
    };
    let expected = BitSequence::with_bytes(u.as_slice());
    proof {
        assert(expected@ == crate::bytes::bytes_bits(u@));
    }
    if !eq_bits(&tag_bits, &expected) {
        return Err(Sm2Error::InvalidTag);
    }
    proof {
        assert(spec_decrypt(*params, cipher_text@, private_key) == Ok::<Seq<bool>, Sm2Error>(
            m@,
        ));
    }
    Ok(m)
}

} // verus!
