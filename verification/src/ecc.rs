//! The short-Weierstrass curve group: points, the affine group law, scalar
//! multiplication, curve membership, and the uncompressed point codec.
//!
//! Every executable operation is pinned to a spec-level transcription of the
//! same formula (`spec_ecc_add`, `spec_ecc_mul`, …), stated over the
//! mathematical values of the coordinates.

use vstd::prelude::*;
use crate::u256::U256;
use crate::u256::le_bytes_val_from;
use crate::u256::nat_le_bytes32;
use crate::u256::u256_of_nat;
use crate::u256::lemma_u256_of_nat;
use crate::u256::lemma_nat_le_bytes32_val;
use crate::u256::lemma_pow2_named;
use crate::modular::gcd;
use crate::modular::sub_mod;
use vstd::arithmetic::div_mod::lemma_small_mod;
use vstd::arithmetic::div_mod::lemma_mul_mod_noop_left;
use vstd::arithmetic::div_mod::lemma_mul_mod_noop_right;
use vstd::arithmetic::div_mod::lemma_add_mod_noop;
use vstd::arithmetic::mul::lemma_mul_is_commutative;

verus! {

broadcast use crate::u256::lemma_u256_nat_bound;

/// The ways a curve operation can fail on degenerate input.
#[derive(Clone, Copy, PartialEq, Eq, Structural, Debug)]
pub enum EccError {
    /// A slope denominator had no inverse under the field modulus.
    NonInvertible,
}

/// The defining constants of a curve `y^2 = x^3 + a x + b` over `F_p`, with
/// a base point of order `n`.
#[derive(Clone, Copy, PartialEq, Eq, Structural, Debug)]
pub struct EccParams {
    pub a: U256,
    pub b: U256,
    pub p: U256,
    pub n: U256,
    pub g_x: U256,
    pub g_y: U256,
}

/// An affine curve point, or the point at infinity (with zero coordinates).
#[derive(Clone, Copy, PartialEq, Eq, Structural, Debug)]
pub struct EccPoint {
    pub x: U256,
    pub y: U256,
    pub params: EccParams,
    pub infinity: bool,
}

/// Structural soundness of a point: the identity carries zero coordinates,
/// every other point carries reduced coordinates.
pub open spec fn spec_pt_wf(params: EccParams, pt: EccPoint) -> bool {
    if pt.infinity {
        pt.x.as_nat() == 0 && pt.y.as_nat() == 0
    } else {
        pt.x.as_nat() < params.p.as_nat() && pt.y.as_nat() < params.p.as_nat()
    }
}

/// The point at infinity.
pub open spec fn spec_infinity(params: EccParams) -> EccPoint {
    EccPoint { x: u256_of_nat(0), y: u256_of_nat(0), params, infinity: true }
}

/// `(a - b) mod m`, for reduced operands.
pub open spec fn msub(a: nat, b: nat, m: nat) -> nat {
    (((a + m - b) as int) % (m as int)) as nat
}

/// The modular inverse as a value: defined exactly when it exists.
pub open spec fn spec_inv(a: nat, m: nat) -> Option<nat> {
    if m > 1 && gcd(a, m) == 1 {
        Some(choose|v: nat| v < m && #[trigger] ((a * v) % m) == 1)
    } else {
        None
    }
}

/// A value below the modulus that inverts `a` settles `spec_inv`.
pub proof fn lemma_inv_value(a: nat, m: nat, v: nat)
    requires
        m > 1,
        gcd(a, m) == 1,
        v < m,
        (a * v) % m == 1,
    ensures
        spec_inv(a, m) == Some(v),
{
    assert(exists|w: nat| w < m && #[trigger] ((a * w) % m) == 1) by {
        assert(v < m && (a * v) % m == 1);
    }
    let w = choose|w: nat| w < m && #[trigger] ((a * w) % m) == 1;
    lemma_inv_unique(a, m, w, v);
}

/// Modular inverses are unique below the modulus.
proof fn lemma_inv_unique(a: nat, m: nat, v1: nat, v2: nat)
    requires
        m > 1,
        v1 < m,
        v2 < m,
        (a * v1) % m == 1,
        (a * v2) % m == 1,
    ensures
        v1 == v2,
{
    let mi: int = m as int;
    let ai: int = a as int;
    let w1: int = v1 as int;
    let w2: int = v2 as int;
    // v1 == (v1 * (a * v2)) % m == ((v1 * a) * v2) % m == v2
    assert((w1 * ((ai * w2) % mi)) % mi == (w1 * (ai * w2)) % mi) by {
        lemma_mul_mod_noop_right(w1, ai * w2, mi);
    }
    assert((ai * w2) % mi == 1);
    assert((w1 * 1) % mi == w1) by {
        vstd::arithmetic::mul::lemma_mul_basics(w1);
        lemma_small_mod(v1, m);
    }
    assert(w1 * (ai * w2) == (ai * w1) * w2) by (nonlinear_arith);
    assert(((ai * w1) * w2) % mi == (((ai * w1) % mi) * w2) % mi) by {
        lemma_mul_mod_noop_left(ai * w1, w2, mi);
    }
    assert((ai * w1) % mi == 1);
    assert((1 * w2) % mi == w2) by {
        vstd::arithmetic::mul::lemma_mul_basics(w2);
        lemma_small_mod(v2, m);
    }
}

/// Doubling: the tangent-slope formula, with a vertical tangent giving the
/// identity.
pub open spec fn spec_double(params: EccParams, pt: EccPoint) -> Result<EccPoint, EccError> {
    if pt.infinity {
        Ok(spec_infinity(params))
    } else {
        let p = params.p.as_nat();
        let x = pt.x.as_nat();
        let y = pt.y.as_nat();
        let t1 = (x * x) % p;
        let t2 = (t1 + t1) % p;
        let t3 = (t2 + t1) % p;
        let num = (t3 + params.a.as_nat() % p) % p;
        let den = (y + y) % p;
        if den == 0 {
            Ok(spec_infinity(params))
        } else {
            match spec_inv(den, p) {
                None => Err(EccError::NonInvertible),
                Some(iv) => {
                    let lam = (num * iv) % p;
                    let x3 = msub(msub((lam * lam) % p, x, p), x, p);
                    let y3 = msub((lam * msub(x, x3, p)) % p, y, p);
                    Ok(EccPoint {
                        x: u256_of_nat(x3),
                        y: u256_of_nat(y3),
                        params,
                        infinity: false,
                    })
                },
            }
        }
    }
}

/// The affine group law, ordered as the implementation orders its cases.
pub open spec fn spec_ecc_add(params: EccParams, p1: EccPoint, p2: EccPoint) -> Result<
    EccPoint,
    EccError,
> {
    if p1.infinity {
        Ok(p2)
    } else if p2.infinity {
        Ok(p1)
    } else if p1.x == p2.x {
        if p1.y == p2.y {
            spec_double(params, p1)
        } else {
            Ok(spec_infinity(params))
        }
    } else {
        let p = params.p.as_nat();
        let x1 = p1.x.as_nat();
        let y1 = p1.y.as_nat();
        let x2 = p2.x.as_nat();
        let y2 = p2.y.as_nat();
        let num = msub(y2, y1, p);
        let den = msub(x2, x1, p);
        match spec_inv(den, p) {
            None => Err(EccError::NonInvertible),
            Some(iv) => {
                let lam = (num * iv) % p;
                let x3 = msub(msub((lam * lam) % p, x1, p), x2, p);
                let y3 = msub((lam * msub(x1, x3, p)) % p, y1, p);
                Ok(EccPoint {
                    x: u256_of_nat(x3),
                    y: u256_of_nat(y3),
                    params,
                    infinity: false,
                })
            },
        }
    }
}

/// The scalar-multiplication loop: least-significant bit first, doubling the
/// addend while scalar bits remain.
pub open spec fn spec_mul_loop(
    params: EccParams,
    res: EccPoint,
    addend: EccPoint,
    k: nat,
) -> Result<EccPoint, EccError>
    decreases k,
{
    if k == 0 {
        Ok(res)
    } else {
        let step = if k % 2 == 1 {
            spec_ecc_add(params, res, addend)
        } else {
            Ok(res)
        };
        match step {
            Err(e) => Err(e),
            Ok(r1) => {
                if k / 2 == 0 {
                    Ok(r1)
                } else {
                    match spec_double(params, addend) {
                        Err(e) => Err(e),
                        Ok(a2) => spec_mul_loop(params, r1, a2, k / 2),
                    }
                }
            },
        }
    }
}

/// Scalar multiplication; zero scalars and the identity give the identity.
pub open spec fn spec_ecc_mul(params: EccParams, pt: EccPoint, k: nat) -> Result<
    EccPoint,
    EccError,
> {
    if k == 0 || pt.infinity {
        Ok(spec_infinity(params))
    } else {
        spec_mul_loop(params, spec_infinity(params), pt, k)
    }
}

/// Membership: the identity, or reduced coordinates satisfying the curve
/// equation.
pub open spec fn spec_on_curve(params: EccParams, pt: EccPoint) -> bool {
    pt.infinity || {
        let p = params.p.as_nat();
        let x = pt.x.as_nat();
        let y = pt.y.as_nat();
        &&& x < p
        &&& y < p
        &&& (y * y) % p == (x * x * x + params.a.as_nat() * x + params.b.as_nat()) % p
    }
}

/// A valid public key: not the identity, on the curve, and of order dividing
/// `n`.
pub open spec fn spec_pubkey_valid(pt: EccPoint) -> bool {
    &&& !pt.infinity
    &&& spec_on_curve(pt.params, pt)
    &&& match spec_ecc_mul(pt.params, pt, pt.params.n.as_nat()) {
        Ok(q) => q.infinity,
        Err(_) => false,
    }
}

/// The uncompressed encoding: a `0x04` tag, then both coordinates as 32
/// little-endian bytes each.
pub open spec fn spec_point_bytes(pt: EccPoint) -> Seq<u8> {
    seq![4u8] + nat_le_bytes32(pt.x.as_nat()) + nat_le_bytes32(pt.y.as_nat())
}

/// The point read back from a 65-byte encoding (the tag is not inspected).
pub open spec fn spec_point_from_bytes(bytes: Seq<u8>, params: EccParams) -> EccPoint {
    EccPoint {
        x: u256_of_nat(le_bytes_val_from(bytes.subrange(1, 33), 0)),
        y: u256_of_nat(le_bytes_val_from(bytes.subrange(33, 65), 0)),
        params,
        infinity: false,
    }
}

/// A `U256` survives the round trip through its value.
proof fn lemma_of_nat_roundtrip(x: U256)
    ensures
        u256_of_nat(x.as_nat()) == x,
{
    lemma_u256_of_nat(x.as_nat());
    U256::lemma_as_nat_injective(u256_of_nat(x.as_nat()), x);
}

impl EccPoint {
    /// Construct a point; the identity is normalised to zero coordinates.
    pub fn new(x: U256, y: U256, params: &EccParams, infinity: bool) -> (r: Self)
        ensures
            r.params == *params,
            r.infinity == infinity,
            infinity ==> r.x.as_nat() == 0 && r.y.as_nat() == 0,
            !infinity ==> r.x == x && r.y == y,
    {
        if infinity {
            EccPoint { x: U256::new(), y: U256::new(), params: *params, infinity }
        } else {
            EccPoint { x, y, params: *params, infinity: false }
        }
    }

    /// The point at infinity.
    pub fn infinity(params: &EccParams) -> (r: Self)
        ensures
            r == spec_infinity(*params),
            spec_pt_wf(*params, r),
    {
        let r = EccPoint { x: U256::new(), y: U256::new(), params: *params, infinity: true };
        proof {
            lemma_u256_of_nat(0);
            U256::lemma_as_nat_injective(r.x, u256_of_nat(0));
            U256::lemma_as_nat_injective(r.y, u256_of_nat(0));
        }
        r
    }

    /// Construct a finite point.
    pub fn new_simple(x: U256, y: U256, params: &EccParams) -> (r: Self)
        ensures
            r == (EccPoint { x, y, params: *params, infinity: false }),
    {
        EccPoint { x, y, params: *params, infinity: false }
    }

    /// Read a point from its 65-byte uncompressed encoding.
    pub fn from_bytes(bytes: &[u8], params: &EccParams) -> (r: Self)
        requires
            bytes@.len() == 65,
        ensures
            r == spec_point_from_bytes(bytes@, *params),
            !r.infinity,
    {
        let xb: [u8; 32] = [
            bytes[1], bytes[2], bytes[3], bytes[4], bytes[5], bytes[6], bytes[7], bytes[8],
            bytes[9], bytes[10], bytes[11], bytes[12], bytes[13], bytes[14], bytes[15],
            bytes[16], bytes[17], bytes[18], bytes[19], bytes[20], bytes[21], bytes[22],
            bytes[23], bytes[24], bytes[25], bytes[26], bytes[27], bytes[28], bytes[29],
            bytes[30], bytes[31], bytes[32],
        ];
        let yb: [u8; 32] = [
            bytes[33], bytes[34], bytes[35], bytes[36], bytes[37], bytes[38], bytes[39],
            bytes[40], bytes[41], bytes[42], bytes[43], bytes[44], bytes[45], bytes[46],
            bytes[47], bytes[48], bytes[49], bytes[50], bytes[51], bytes[52], bytes[53],
            bytes[54], bytes[55], bytes[56], bytes[57], bytes[58], bytes[59], bytes[60],
            bytes[61], bytes[62], bytes[63], bytes[64],
        ];
        proof {
            assert(xb@ =~= bytes@.subrange(1, 33));
            assert(yb@ =~= bytes@.subrange(33, 65));
        }
        let x = U256::from_le_bytes(&xb);
        let y = U256::from_le_bytes(&yb);
        EccPoint { x, y, params: *params, infinity: false }
    }

    /// The 65-byte uncompressed encoding.
    pub fn to_bytes(&self) -> (r: Vec<u8>)
        ensures
            r@ == spec_point_bytes(*self),
            r@.len() == 65,
    {
        let mut out: Vec<u8> = Vec::new();
        out.push(0x04);
        let xb = self.x.into_le_bytes();
        let yb = self.y.into_le_bytes();
        let mut i: usize = 0;
        while i < 32
            invariant
                i <= 32,
                xb@ == nat_le_bytes32(self.x.as_nat()),
                out@ == seq![4u8] + xb@.take(i as int),
            decreases 32 - i,
        {
            out.push(xb[i]);
            i += 1;
            proof {
                assert(out@ =~= seq![4u8] + xb@.take(i as int));
            }
        }
        let mut j: usize = 0;
        while j < 32
            invariant
                j <= 32,
                xb@ == nat_le_bytes32(self.x.as_nat()),
                yb@ == nat_le_bytes32(self.y.as_nat()),
                out@ == seq![4u8] + xb@.take(32) + yb@.take(j as int),
            decreases 32 - j,
        {
            out.push(yb[j]);
            j += 1;
            proof {
                assert(out@ =~= seq![4u8] + xb@.take(32) + yb@.take(j as int));
            }
        }
        proof {
            assert(xb@.take(32) =~= xb@);
            assert(yb@.take(32) =~= yb@);
            assert(out@ =~= spec_point_bytes(*self));
        }
        out
    }

    /// Whether this point lies on its own curve (the identity trivially
    /// does).
    pub fn validate_on_curve(&self) -> (r: bool)
        requires
            self.params.p.as_nat() > 0,
        ensures
            r == spec_on_curve(self.params, *self),
    {
        if self.infinity {
            return true;
        }
        let p = self.params.p;
        if !(self.x < p) || !(self.y < p) {
            return false;
        }
        let ghost pv: int = p.as_nat() as int;
        let ghost xv: int = self.x.as_nat() as int;
        let ghost yv: int = self.y.as_nat() as int;
        let ghost av: int = self.params.a.as_nat() as int;
        let ghost bv: int = self.params.b.as_nat() as int;
        let lhs = self.y.mod_mul(self.y, p);
        let x2 = self.x.mod_mul(self.x, p);
        let x3 = x2.mod_mul(self.x, p);
        let ax = self.x.mod_mul(self.params.a, p);
        let s1 = x3.mod_add(ax, p);
        let rhs = s1.mod_add(self.params.b.modded(p), p);
        proof {
            lemma_mul_mod_noop_left(xv * xv, xv, pv);
            lemma_mul_is_commutative(xv, av);
            lemma_add_mod_noop(xv * xv * xv, av * xv, pv);
            lemma_add_mod_noop(xv * xv * xv + av * xv, bv, pv);
            assert(rhs.as_nat() == (xv * xv * xv + av * xv + bv) % pv);
        }
        let r = lhs == rhs;
        proof {
            U256::lemma_as_nat_injective(lhs, rhs);
        }
        r
    }

    /// Whether this point lies on the given curve.
    pub fn validate_on_given_curve(&self, params: &EccParams) -> (r: bool)
        requires
            params.p.as_nat() > 0,
        ensures
            r == (self.params == *params && spec_on_curve(*params, *self)),
    {
        if !(self.params == *params) {
            return false;
        }
        self.validate_on_curve()
    }

    /// Double this point.
    fn ecc_double(self, params: &EccParams) -> (r: Result<EccPoint, EccError>)
        requires
            self.params == *params,
            params.p.as_nat() > 0,
            spec_pt_wf(*params, self),
        ensures
            r == spec_double(*params, self),
            r matches Ok(pt) ==> spec_pt_wf(*params, pt) && pt.params == *params,
    {
        if self.infinity {
            return Ok(EccPoint::infinity(params));
        }
        let p = params.p;
        let t1 = self.x.mod_mul(self.x, p);
        let t2 = t1.mod_add(t1, p);
        let t3 = t2.mod_add(t1, p);
        let num = t3.mod_add(params.a.modded(p), p);
        let den = self.y.mod_add(self.y, p);
        if den.is_zero() {
            return Ok(EccPoint::infinity(params));
        }
        match den.mod_inv(p) {
            None => {
                proof {
                    assert(spec_inv(den.as_nat(), p.as_nat()) is None);
                }
                Err(EccError::NonInvertible)
            },
            Some(iv) => {
                proof {
                    lemma_inv_value(den.as_nat(), p.as_nat(), iv.as_nat());
                }
                let lam = num.mod_mul(iv, p);
                let l2 = lam.mod_mul(lam, p);
                let x3 = sub_mod(sub_mod(l2, self.x, p), self.x, p);
                let y3 = sub_mod(lam.mod_mul(sub_mod(self.x, x3, p), p), self.y, p);
                let r = EccPoint { x: x3, y: y3, params: *params, infinity: false };
                proof {
                    lemma_of_nat_roundtrip(x3);
                    lemma_of_nat_roundtrip(y3);
                }
                Ok(r)
            },
        }
    }

    /// Add another point of the same curve.
    pub fn ecc_add(self, other: Self, params: &EccParams) -> (r: Result<EccPoint, EccError>)
        requires
            self.params == *params,
            other.params == *params,
            params.p.as_nat() > 0,
            spec_pt_wf(*params, self),
            spec_pt_wf(*params, other),
        ensures
            r == spec_ecc_add(*params, self, other),
            r matches Ok(pt) ==> spec_pt_wf(*params, pt) && pt.params == *params,
    {
        if self.infinity {
            return Ok(other);
        }
        if other.infinity {
            return Ok(self);
        }
        if self.x == other.x {
            if self.y == other.y {
                return self.ecc_double(params);
            }
            return Ok(EccPoint::infinity(params));
        }
        proof {
            U256::lemma_as_nat_injective(self.x, other.x);
        }
        let p = params.p;
        let num = sub_mod(other.y, self.y, p);
        let den = sub_mod(other.x, self.x, p);
        match den.mod_inv(p) {
            None => {
                proof {
                    assert(spec_inv(den.as_nat(), p.as_nat()) is None);
                }
                Err(EccError::NonInvertible)
            },
            Some(iv) => {
                proof {
                    lemma_inv_value(den.as_nat(), p.as_nat(), iv.as_nat());
                }
                let lam = num.mod_mul(iv, p);
                let l2 = lam.mod_mul(lam, p);
                let x3 = sub_mod(sub_mod(l2, self.x, p), other.x, p);
                let y3 = sub_mod(lam.mod_mul(sub_mod(self.x, x3, p), p), self.y, p);
                let r = EccPoint { x: x3, y: y3, params: *params, infinity: false };
                proof {
                    lemma_of_nat_roundtrip(x3);
                    lemma_of_nat_roundtrip(y3);
                }
                Ok(r)
            },
        }
    }

    /// Multiply this point by a scalar, least-significant bit first.
    pub fn ecc_mul(self, k: U256, params: &EccParams) -> (r: Result<EccPoint, EccError>)
        requires
            self.params == *params,
            params.p.as_nat() > 0,
            spec_pt_wf(*params, self),
        ensures
            r == spec_ecc_mul(*params, self, k.as_nat()),
            r matches Ok(pt) ==> spec_pt_wf(*params, pt) && pt.params == *params,
    {
        if k.is_zero() || self.infinity {
            return Ok(EccPoint::infinity(params));
        }
        let mut res = EccPoint::infinity(params);
        let mut addend = self;
        let mut rem = k;
        proof {
            assert(spec_ecc_mul(*params, self, k.as_nat())
                == spec_mul_loop(*params, res, addend, rem.as_nat()));
        }
        loop
            invariant
                rem.as_nat() > 0,
                res.params == *params,
                addend.params == *params,
                params.p.as_nat() > 0,
                spec_pt_wf(*params, res),
                spec_pt_wf(*params, addend),
                spec_mul_loop(*params, res, addend, rem.as_nat())
                    == spec_ecc_mul(*params, self, k.as_nat()),
            decreases rem.as_nat(),
        {
            let ghost kv: nat = rem.as_nat();
            let ghost res0 = res;
            let ghost addend0 = addend;
            if rem.is_odd() {
                match res.ecc_add(addend, params) {
                    Ok(r1) => {
                        res = r1;
                    },
                    Err(e) => {
                        proof {
                            assert(spec_mul_loop(*params, res0, addend0, kv) == Err::<
                                EccPoint,
                                EccError,
                            >(e));
                        }
                        return Err(e);
                    },
                }
            }
            proof {
                // after the conditional addition, `res` is the step result
                if kv % 2 == 1 {
                    assert(spec_ecc_add(*params, res0, addend0) == Ok::<EccPoint, EccError>(
                        res,
                    ));
                }
            }
            rem = rem.half();
            proof {
                assert(rem.as_nat() == kv / 2) by {
                    vstd::arithmetic::div_mod::lemma_fundamental_div_mod_converse_div(
                        kv as int,
                        2,
                        rem.as_nat() as int,
                        (kv % 2) as int,
                    );
                }
            }
            if rem.is_zero() {
                proof {
                    assert(spec_mul_loop(*params, res0, addend0, kv) == Ok::<
                        EccPoint,
                        EccError,
                    >(res));
                }
                return Ok(res);
            }
            match addend.ecc_double(params) {
                Ok(a2) => {
                    addend = a2;
                },
                Err(e) => {
                    proof {
                        assert(spec_mul_loop(*params, res0, addend0, kv) == Err::<
                            EccPoint,
                            EccError,
                        >(e));
                    }
                    return Err(e);
                },
            }
            proof {
                assert(spec_mul_loop(*params, res0, addend0, kv)
                    == spec_mul_loop(*params, res, addend, rem.as_nat()));
            }
        }
    }
}

/// Validate a public key: reject the identity, off-curve points, and points
/// outside the order-`n` subgroup.
pub fn pubkey_validate(p: &EccPoint) -> (r: bool)
    requires
        p.params.p.as_nat() > 0,
    ensures
        r == spec_pubkey_valid(*p),
{
    if p.infinity {
        return false;
    }
    if !p.validate_on_curve() {
        return false;
    }
    let params = p.params;
    match p.ecc_mul(params.n, &params) {
        Ok(q) => q.infinity,
        Err(_) => false,
    }
}

/// Adding the identity leaves any structurally sound point unchanged.
pub proof fn lemma_add_identity(params: EccParams, pt: EccPoint)
    requires
        spec_pt_wf(params, pt),
        pt.params == params,
    ensures
        spec_ecc_add(params, pt, spec_infinity(params)) == Ok::<EccPoint, EccError>(pt),
{
    if pt.infinity {
        lemma_u256_of_nat(0);
        U256::lemma_as_nat_injective(pt.x, u256_of_nat(0));
        U256::lemma_as_nat_injective(pt.y, u256_of_nat(0));
        assert(pt == spec_infinity(params));
    }
}

/// Adding a point to itself is multiplying it by two.
pub proof fn lemma_add_self_is_double(params: EccParams, pt: EccPoint)
    requires
        spec_pt_wf(params, pt),
        pt.params == params,
    ensures
        spec_ecc_add(params, pt, pt) == spec_ecc_mul(params, pt, 2),
{
    if pt.infinity {
        lemma_u256_of_nat(0);
        U256::lemma_as_nat_injective(pt.x, u256_of_nat(0));
        U256::lemma_as_nat_injective(pt.y, u256_of_nat(0));
        assert(pt == spec_infinity(params));
    } else {
        let inf = spec_infinity(params);
        assert(spec_ecc_mul(params, pt, 2) == spec_mul_loop(params, inf, pt, 2));
        assert(spec_mul_loop(params, inf, pt, 2) == match spec_double(params, pt) {
            Err(e) => Err(e),
            Ok(a2) => spec_mul_loop(params, inf, a2, 1),
        });
        match spec_double(params, pt) {
            Err(e) => {},
            Ok(a2) => {
                assert(spec_mul_loop(params, inf, a2, 1) == spec_ecc_add(params, inf, a2));
                assert(spec_ecc_add(params, inf, a2) == Ok::<EccPoint, EccError>(a2));
            },
        }
        assert(spec_ecc_add(params, pt, pt) == spec_double(params, pt));
    }
}

/// Decoding an encoded finite point gives the point back.
pub proof fn lemma_point_codec_roundtrip(pt: EccPoint)
    requires
        !pt.infinity,
    ensures
        spec_point_from_bytes(spec_point_bytes(pt), pt.params) == pt,
{
    let enc = spec_point_bytes(pt);
    assert(enc.subrange(1, 33) =~= nat_le_bytes32(pt.x.as_nat()));
    assert(enc.subrange(33, 65) =~= nat_le_bytes32(pt.y.as_nat()));
    lemma_pow2_named();
    lemma_nat_le_bytes32_val(pt.x.as_nat());
    lemma_nat_le_bytes32_val(pt.y.as_nat());
    lemma_of_nat_roundtrip(pt.x);
    lemma_of_nat_roundtrip(pt.y);
}

} // verus!
