//! Variable-length, possibly non-byte-aligned bit sequences.
//!
//! A `BitSequence` is a run of whole bytes plus a count of valid bits in the
//! last byte (`0` meaning byte-aligned).  Its mathematical value is the
//! `Seq<bool>` view; every operation is specified against that view.  The
//! unused low bits of a partial last byte are kept at zero.

use vstd::prelude::*;
use vstd::arithmetic::div_mod::lemma_fundamental_div_mod;
use vstd::arithmetic::div_mod::lemma_fundamental_div_mod_converse_div;
use vstd::arithmetic::div_mod::lemma_fundamental_div_mod_converse_mod;
use vstd::arithmetic::div_mod::lemma_div_denominator;
use vstd::arithmetic::div_mod::lemma_div_pos_is_pos;
use vstd::arithmetic::div_mod::lemma_multiply_divide_lt;
use vstd::arithmetic::power2::pow2;
use vstd::arithmetic::power2::lemma_pow2_adds;
use vstd::arithmetic::power2::lemma_pow2_unfold;
use vstd::arithmetic::power2::lemma_pow2_pos;
use vstd::arithmetic::power2::lemma_pow2_strictly_increases;
use vstd::arithmetic::power2::lemma2_to64;

verus! {

/// The largest byte count a sequence may reach: comfortably inside `u64`
/// bit-length arithmetic.
pub const MAX_SEQUENCE_BYTES: usize = 0x0400_0000;

/// Bit `k` (most significant first) of a byte, read arithmetically.
pub open spec fn byte_bit(byte: u8, k: int) -> bool {
    (byte as nat / pow2((7 - k) as nat)) % 2 == 1
}

/// The bits of a whole byte run, in order, most significant bit of each byte
/// first.
pub open spec fn bytes_bits(s: Seq<u8>) -> Seq<bool> {
    Seq::new(s.len() * 8, |t: int| byte_bit(s[t / 8], t % 8))
}

/// The reasons a bit-sequence operation can be refused.
#[derive(Clone, Copy, PartialEq, Eq, Structural, Debug)]
pub enum BitSequenceError {
    /// A requested bit count does not fit the supplied bytes.
    InvalidSize,
    /// The two operands of an exclusive-or differ in length.
    LengthMismatch,
    /// A slice range is reversed or runs past the end.
    InvalidRange,
}

/// An ordered bit sequence stored as bytes plus a partial-byte fill count.
#[derive(Clone, Debug)]
pub struct BitSequence {
    bytes: Vec<u8>,
    last_byte_len: u8,
}

impl View for BitSequence {
    type V = Seq<bool>;

    open spec fn view(&self) -> Seq<bool> {
        bytes_bits(self.spec_bytes()).take(self.spec_bit_len() as int)
    }
}

impl BitSequence {
    /// The stored bytes, as a mathematical sequence.
    pub closed spec fn spec_bytes(&self) -> Seq<u8> {
        self.bytes@
    }

    /// The number of valid bits in the last byte; zero means aligned.
    pub closed spec fn spec_last_len(&self) -> nat {
        self.last_byte_len as nat
    }

    /// How many bits the sequence holds.
    pub open spec fn spec_bit_len(&self) -> nat {
        if self.spec_bytes().len() == 0 {
            0
        } else if self.spec_last_len() == 0 {
            self.spec_bytes().len() * 8
        } else {
            ((self.spec_bytes().len() - 1) * 8 + self.spec_last_len()) as nat
        }
    }

    /// Structural soundness: the fill count is in range, an empty sequence is
    /// aligned, the unused low bits of a partial last byte are zero, and the
    /// byte count leaves bit arithmetic inside `u64`.
    pub closed spec fn wf(&self) -> bool {
        &&& self.last_byte_len < 8
        &&& (self.bytes@.len() == 0 ==> self.last_byte_len == 0)
        &&& (self.last_byte_len > 0 ==> self.bytes@.last() as nat
            % pow2((8 - self.last_byte_len) as nat) == 0)
        &&& self.bytes@.len() <= MAX_SEQUENCE_BYTES
    }

    /// Raw constructor from parts that already satisfy the representation
    /// invariant.
    pub fn new(bytes: Vec<u8>, last_byte_len: u8) -> (r: Self)
        requires
            last_byte_len < 8,
            bytes@.len() == 0 ==> last_byte_len == 0,
            last_byte_len > 0 ==> bytes@.last() as nat
                % pow2((8 - last_byte_len) as nat) == 0,
            bytes@.len() <= MAX_SEQUENCE_BYTES,
        ensures
            r.wf(),
            r.spec_bytes() == bytes@,
            r.spec_last_len() == last_byte_len,
    {
        BitSequence { bytes, last_byte_len }
    }

    /// The empty sequence.
    pub fn new_empty() -> (r: Self)
        ensures
            r.wf(),
            r@ == Seq::<bool>::empty(),
            r.spec_bytes().len() == 0,
    {
        let r = BitSequence { bytes: Vec::new(), last_byte_len: 0 };
        proof {
            assert(r@ =~= Seq::<bool>::empty());
        }
        r
    }

    /// A byte-aligned sequence holding exactly these bytes.
    pub fn with_bytes(bytes: &[u8]) -> (r: Self)
        requires
            bytes@.len() <= MAX_SEQUENCE_BYTES,
        ensures
            r.wf(),
            r@ == bytes_bits(bytes@),
            r.spec_bytes() == bytes@,
            r.spec_last_len() == 0,
    {
        let v: Vec<u8> = copy_slice(bytes);
        let r = BitSequence { bytes: v, last_byte_len: 0 };
        proof {
            assert(r@ =~= bytes_bits(bytes@));
        }
        r
    }

    /// A sequence of exactly `size` bits taken from the front of `bytes`,
    /// accepted only when `size` reaches into the last byte.  The unused low
    /// bits of a partial last byte are cleared.
    pub fn try_with_bits(bytes: &[u8], size: u64) -> (r: Result<Self, BitSequenceError>)
        requires
            bytes@.len() <= MAX_SEQUENCE_BYTES,
        ensures
            r is Ok <==> (bytes@.len() == 0 && size == 0)
                || (bytes@.len() > 0 && bytes@.len() * 8 - 8 < size <= bytes@.len() * 8),
            r matches Ok(s) ==> s.wf() && s@ == bytes_bits(bytes@).take(size as int),
    {
        let n = bytes.len();
        if n == 0 {
            if size == 0 {
                let r = BitSequence::new_empty();
                proof {
                    assert(r@ =~= bytes_bits(bytes@).take(0));
                }
                return Ok(r);
            }
            return Err(BitSequenceError::InvalidSize);
        }
        if size <= (n as u64) * 8 - 8 || size > (n as u64) * 8 {
            return Err(BitSequenceError::InvalidSize);
        }
        let l = (size % 8) as u8;
        let mut v: Vec<u8> = copy_slice(bytes);
        if l == 0 {
            let r = BitSequence { bytes: v, last_byte_len: 0 };
            proof {
                lemma_fundamental_div_mod_converse_mod(size as int, 8, n as int, 0);
                assert(size == 8 * n);
                assert(r@ =~= bytes_bits(bytes@).take(size as int));
            }
            return Ok(r);
        }
        let last = v[n - 1];
        proof {
            lemma_mask_byte(last, l as int);
        }
        let p = pw8(8 - l);
        let masked = (last / p) * p;
        v.set(n - 1, masked);
        let r = BitSequence { bytes: v, last_byte_len: l };
        proof {
            lemma_fundamental_div_mod_converse_mod(size as int, 8, (n - 1) as int, l as int);
            assert(size == 8 * (n - 1) + l);
            assert(r.spec_bit_len() == size);
            assert forall|t: int| 0 <= t < size
                implies r@[t] == bytes_bits(bytes@).take(size as int)[t] by {
                assert(0 <= t / 8 <= n - 1) by {
                    lemma_div_pos_is_pos(t, 8);
                    lemma_multiply_divide_lt(t, 8, n as int);
                }
                if t < 8 * (n - 1) {
                    assert(t / 8 < n - 1) by {
                        lemma_multiply_divide_lt(t, 8, (n - 1) as int);
                    }
                } else {
                    let k = t - 8 * (n - 1);
                    lemma_fundamental_div_mod_converse_div(t, 8, (n - 1) as int, k);
                    lemma_fundamental_div_mod_converse_mod(t, 8, (n - 1) as int, k);
                    assert(byte_bit(masked, k) == byte_bit(last, k));
                }
            }
            assert(r@ =~= bytes_bits(bytes@).take(size as int));
        }
        Ok(r)
    }

    /// An independent copy with the same contents.
    pub fn duplicate(&self) -> (r: Self)
        requires
            self.wf(),
        ensures
            r.wf(),
            r@ == self@,
            r.spec_bytes() == self.spec_bytes(),
            r.spec_last_len() == self.spec_last_len(),
    {
        let n = self.bytes.len();
        let mut v: Vec<u8> = Vec::new();
        let mut i: usize = 0;
        while i < n
            invariant
                i <= n,
                n == self.spec_bytes().len(),
                v@ == self.spec_bytes().take(i as int),
            decreases n - i,
        {
            v.push(self.bytes[i]);
            i += 1;
            proof {
                assert(v@ =~= self.spec_bytes().take(i as int));
            }
        }
        proof {
            assert(self.spec_bytes().take(n as int) =~= self.spec_bytes());
        }
        BitSequence { bytes: v, last_byte_len: self.last_byte_len }
    }

    /// The stored bytes.
    pub fn get_bytes(&self) -> (r: &[u8])
        ensures
            r@ == self.spec_bytes(),
    {
        self.bytes.as_slice()
    }

    /// Mutable access to the stored bytes.  Writing through the result can
    /// break the representation invariant, which later calls require.
    pub fn get_bytes_mut(&mut self) -> (r: &mut Vec<u8>)
        ensures
            r@ == old(self).spec_bytes(),
            final(self).spec_bytes() == final(r)@,
            final(self).spec_last_len() == old(self).spec_last_len(),
    {
        &mut self.bytes
    }

    /// The fill count of the last byte (zero when aligned).
    pub fn get_last_byte_len(&self) -> (r: u8)
        ensures
            r == self.spec_last_len(),
    {
        self.last_byte_len
    }

    /// The bit length.
    pub fn len(&self) -> (r: u64)
        requires
            self.wf(),
        ensures
            r == self@.len(),
    {
        proof {
            lemma_seq_len(self);
        }
        if self.bytes.len() == 0 {
            0
        } else if self.last_byte_len == 0 {
            (self.bytes.len() as u64) * 8
        } else {
            (self.bytes.len() as u64 - 1) * 8 + (self.last_byte_len as u64)
        }
    }

    /// Read one bit.
    pub fn get_bit(&self, j: u64) -> (r: bool)
        requires
            self.wf(),
            j < self@.len(),
        ensures
            r == self@[j as int],
    {
        proof {
            lemma_seq_len(self);
            lemma_div_pos_is_pos(j as int, 8);
            lemma_multiply_divide_lt(j as int, 8, self.spec_bytes().len() as int);
        }
        let byte = self.bytes[(j / 8) as usize];
        let k = (j % 8) as u8;
        (byte / pw8(7 - k)) % 2 == 1
    }

    /// Append one bit.
    pub(crate) fn push_bit(&mut self, b: bool)
        requires
            old(self).wf(),
            old(self)@.len() < 8 * MAX_SEQUENCE_BYTES,
        ensures
            final(self).wf(),
            final(self)@ == old(self)@ + seq![b],
    {
        proof {
            lemma_seq_len(&*self);
        }
        if self.last_byte_len == 0 {
            let fresh: u8 = if b { 0x80 } else { 0 };
            self.bytes.push(fresh);
            self.last_byte_len = 1;
            proof {
                lemma2_to64();
                assert(fresh as nat % pow2(7) == 0);
                assert(byte_bit(fresh, 0) == b);
                lemma_push_view_aligned(old(self), &*self, fresh, b);
            }
        } else {
            let n = self.bytes.len();
            let l = self.last_byte_len;
            let last = self.bytes[n - 1];
            proof {
                lemma_partial_byte_update(last, l, b);
            }
            let add_in: u8 = if b { pw8(7 - l) } else { 0 };
            let updated = last + add_in;
            self.bytes.set(n - 1, updated);
            self.last_byte_len = if l == 7 { 0 } else { l + 1 };
            proof {
                assert(updated as nat
                    == last as nat + (if b { pow2((7 - l) as nat) } else { 0nat }));
                lemma_push_view_partial(old(self), &*self, last, updated, l as int, b);
            }
        }
    }

    /// Append whole bytes.
    pub fn append_bytes(&mut self, bytes: &[u8])
        requires
            old(self).wf(),
            old(self).spec_bytes().len() + bytes@.len() < MAX_SEQUENCE_BYTES,
        ensures
            final(self).wf(),
            final(self)@ == old(self)@ + bytes_bits(bytes@),
    {
        let ghost base = self@;
        let ghost cap: int = 8 * (old(self).spec_bytes().len() + bytes@.len()) as int;
        let n = bytes.len();
        let mut i: usize = 0;
        proof {
            lemma_seq_len(&*self);
            assert(self@ =~= base + bytes_bits(bytes@).take(0));
        }
        while i < n
            invariant
                self.wf(),
                i <= n,
                n == bytes@.len(),
                cap == 8 * (old(self).spec_bytes().len() + bytes@.len()) as int,
                cap < 8 * MAX_SEQUENCE_BYTES,
                base.len() + 8 * n <= cap,
                self@ == base + bytes_bits(bytes@).take(8 * i),
                base == old(self)@,
            decreases n - i,
        {
            let byte = bytes[i];
            let mut k: u8 = 0;
            while k < 8
                invariant
                    self.wf(),
                    k <= 8,
                    i < n,
                    n == bytes@.len(),
                    byte == bytes@[i as int],
                    cap == 8 * (old(self).spec_bytes().len() + bytes@.len()) as int,
                    cap < 8 * MAX_SEQUENCE_BYTES,
                    base.len() + 8 * n <= cap,
                    self@ == base + bytes_bits(bytes@).take(8 * i + k),
                    base == old(self)@,
                decreases 8 - k,
            {
                proof {
                    lemma_bit_of_bytes(bytes@, i as int, k as int);
                }
                let b = (byte / pw8(7 - k)) % 2 == 1;
                self.push_bit(b);
                k += 1;
                proof {
                    assert(self@ =~= base + bytes_bits(bytes@).take(8 * i + k));
                }
            }
            i += 1;
        }
        proof {
            assert(bytes_bits(bytes@).take(8 * n) =~= bytes_bits(bytes@));
        }
    }

    /// Append another bit sequence.
    pub fn append_bits(&mut self, bits: &Self)
        requires
            old(self).wf(),
            bits.wf(),
            old(self).spec_bytes().len() + bits.spec_bytes().len() < MAX_SEQUENCE_BYTES,
        ensures
            final(self).wf(),
            final(self)@ == old(self)@ + bits@,
    {
        let ghost base = self@;
        let ghost cap: int =
            8 * (old(self).spec_bytes().len() + bits.spec_bytes().len()) as int;
        let m = bits.len();
        proof {
            lemma_seq_len(&*self);
            lemma_seq_len(bits);
            assert(self@ =~= base + bits@.take(0));
        }
        let mut j: u64 = 0;
        while j < m
            invariant
                self.wf(),
                bits.wf(),
                j <= m,
                m == bits@.len(),
                cap == 8 * (old(self).spec_bytes().len() + bits.spec_bytes().len()) as int,
                cap < 8 * MAX_SEQUENCE_BYTES,
                base.len() + m <= cap,
                self@ == base + bits@.take(j as int),
                base == old(self)@,
            decreases m - j,
        {
            let b = bits.get_bit(j);
            self.push_bit(b);
            j += 1;
            proof {
                assert(self@ =~= base + bits@.take(j as int));
            }
        }
        proof {
            assert(bits@.take(m as int) =~= bits@);
        }
    }

    /// Exclusive-or with a sequence of the same length.
    pub fn xor(&self, other: &Self) -> (r: Result<Self, BitSequenceError>)
        requires
            self.wf(),
            other.wf(),
        ensures
            r is Ok <==> self@.len() == other@.len(),
            r matches Ok(s) ==> s.wf() && s@.len() == self@.len()
                && (forall|t: int| 0 <= t < self@.len()
                    ==> s@[t] == (self@[t] != other@[t])),
    {
        let n = self.len();
        if n != other.len() {
            return Err(BitSequenceError::LengthMismatch);
        }
        proof {
            lemma_seq_len(self);
        }
        let mut out = BitSequence::new_empty();
        let mut j: u64 = 0;
        while j < n
            invariant
                self.wf(),
                other.wf(),
                out.wf(),
                j <= n,
                n == self@.len(),
                n == other@.len(),
                n <= 8 * MAX_SEQUENCE_BYTES,
                out@.len() == j,
                forall|t: int| 0 <= t < j ==> out@[t] == (self@[t] != other@[t]),
            decreases n - j,
        {
            let b = self.get_bit(j) != other.get_bit(j);
            out.push_bit(b);
            j += 1;
        }
        Ok(out)
    }

    /// Exclusive-or in place.
    pub fn xor_inplace(&mut self, other: &Self) -> (r: Result<(), BitSequenceError>)
        requires
            old(self).wf(),
            other.wf(),
        ensures
            r is Ok <==> old(self)@.len() == other@.len(),
            r is Ok ==> final(self).wf() && final(self)@.len() == old(self)@.len()
                && (forall|t: int| 0 <= t < old(self)@.len()
                    ==> final(self)@[t] == (old(self)@[t] != other@[t])),
            r is Err ==> *final(self) == *old(self),
    {
        match self.xor(other) {
            Ok(s) => {
                *self = s;
                Ok(())
            },
            Err(e) => Err(e),
        }
    }

    /// Copy out the half-open bit range `[start, end)`.
    pub fn slice(&self, start: u64, end: u64) -> (r: Result<Self, BitSequenceError>)
        requires
            self.wf(),
        ensures
            r is Ok <==> start <= end <= self@.len(),
            r matches Ok(s) ==> s.wf() && s@ == self@.subrange(start as int, end as int),
    {
        if start > end || end > self.len() {
            return Err(BitSequenceError::InvalidRange);
        }
        proof {
            lemma_seq_len(self);
        }
        let mut out = BitSequence::new_empty();
        let mut j: u64 = start;
        proof {
            assert(out@ =~= self@.subrange(start as int, start as int));
        }
        while j < end
            invariant
                self.wf(),
                out.wf(),
                start <= j <= end,
                end <= self@.len(),
                self@.len() <= 8 * MAX_SEQUENCE_BYTES,
                out@.len() == j - start,
                out@ == self@.subrange(start as int, j as int),
            decreases end - j,
        {
            let b = self.get_bit(j);
            out.push_bit(b);
            j += 1;
            proof {
                assert(out@ =~= self@.subrange(start as int, j as int));
            }
        }
        Ok(out)
    }

    /// The bytes in reverse order, with a short last byte right-aligned into
    /// the leading position.
    pub fn into_le_bytes(&self) -> (r: Vec<u8>)
        requires
            self.wf(),
        ensures
            r@.len() == self.spec_bytes().len(),
            self.spec_last_len() == 0 ==> forall|i: int| 0 <= i < r@.len()
                ==> r@[i] == self.spec_bytes()[r@.len() - 1 - i],
            self.spec_last_len() > 0 ==> {
                &&& r@[0] == self.spec_bytes().last() as nat
                    / pow2((8 - self.spec_last_len()) as nat)
                &&& forall|i: int| 1 <= i < r@.len()
                    ==> r@[i] == self.spec_bytes()[r@.len() - 1 - i]
            },
    {
        let n = self.bytes.len();
        let mut out: Vec<u8> = Vec::new();
        if n == 0 {
            return out;
        }
        let lead = if self.last_byte_len == 0 {
            self.bytes[n - 1]
        } else {
            let shift = 8 - self.last_byte_len;
            proof {
                lemma_pow2_pos((8 - self.last_byte_len) as nat);
            }
            self.bytes[n - 1] / pw8(shift)
        };
        out.push(lead);
        let mut i: usize = 1;
        while i < n
            invariant
                1 <= i <= n,
                n == self.spec_bytes().len(),
                out@.len() == i,
                out@[0] == lead,
                forall|t: int| 1 <= t < i ==> out@[t] == self.spec_bytes()[n - 1 - t],
            decreases n - i,
        {
            out.push(self.bytes[n - 1 - i]);
            i += 1;
        }
        out
    }
}

/// The public consequences of well-formedness.
pub proof fn lemma_wf_facts(s: &BitSequence)
    requires
        s.wf(),
    ensures
        s.spec_last_len() < 8,
        s.spec_bytes().len() == 0 ==> s.spec_last_len() == 0,
        s.spec_last_len() > 0 ==> s.spec_bytes().len() > 0,
        s@.len() == s.spec_bit_len(),
        s.spec_bit_len() <= s.spec_bytes().len() * 8,
        s.spec_bytes().len() <= MAX_SEQUENCE_BYTES,
{
    lemma_seq_len(s);
}

/// A well-formed sequence needs at most one byte beyond its bit count.
pub proof fn lemma_byte_count(s: &BitSequence)
    requires
        s.wf(),
    ensures
        s.spec_bytes().len() <= s@.len() / 8 + 1,
        s.spec_bytes().len() <= s@.len() + 1,
{
    lemma_seq_len(s);
    vstd::arithmetic::div_mod::lemma_div_nonincreasing(s@.len() as int, 8);
    let n = s.spec_bytes().len() as int;
    if n > 0 {
        if s.spec_last_len() == 0 {
            lemma_fundamental_div_mod_converse_div(8 * n, 8, n, 0);
        } else {
            let l = s.spec_last_len() as int;
            lemma_fundamental_div_mod_converse_div(8 * (n - 1) + l, 8, n - 1, l);
        }
    }
}

impl PartialEq for BitSequence {
    /// Two sequences are equal when they store the same bytes with the same
    /// fill count.
    fn eq(&self, other: &Self) -> (r: bool) {
        if self.last_byte_len != other.last_byte_len {
            proof {
                assert(self.spec_last_len() != other.spec_last_len());
            }
            return false;
        }
        let n = self.bytes.len();
        if n != other.bytes.len() {
            proof {
                assert(self.spec_bytes().len() != other.spec_bytes().len());
            }
            return false;
        }
        let mut i: usize = 0;
        while i < n
            invariant
                i <= n,
                n == self.spec_bytes().len(),
                n == other.spec_bytes().len(),
                self.spec_last_len() == other.spec_last_len(),
                forall|t: int| 0 <= t < i ==> self.spec_bytes()[t] == other.spec_bytes()[t],
            decreases n - i,
        {
            if self.bytes[i] != other.bytes[i] {
                proof {
                    assert(self.spec_bytes() != other.spec_bytes());
                }
                return false;
            }
            i += 1;
        }
        proof {
            assert(self.spec_bytes() =~= other.spec_bytes());
        }
        true
    }
}

impl vstd::std_specs::cmp::PartialEqSpecImpl for BitSequence {
    open spec fn obeys_eq_spec() -> bool {
        true
    }

    open spec fn eq_spec(&self, other: &Self) -> bool {
        self.spec_bytes() == other.spec_bytes()
            && self.spec_last_len() == other.spec_last_len()
    }
}

/// Copy a byte slice into a fresh vector.
fn copy_slice(bytes: &[u8]) -> (r: Vec<u8>)
    ensures
        r@ == bytes@,
{
    let n = bytes.len();
    let mut v: Vec<u8> = Vec::new();
    let mut i: usize = 0;
    while i < n
        invariant
            i <= n,
            n == bytes@.len(),
            v@ == bytes@.take(i as int),
        decreases n - i,
    {
        v.push(bytes[i]);
        i += 1;
        proof {
            assert(v@ =~= bytes@.take(i as int));
        }
    }
    proof {
        assert(bytes@.take(n as int) =~= bytes@);
    }
    v
}

/// `2^s` for a shift inside one byte.
fn pw8(s: u8) -> (r: u8)
    requires
        s < 8,
    ensures
        r == pow2(s as nat),
        r >= 1,
{
    proof {
        lemma2_to64();
    }
    if s == 0 { 1 }
    else if s == 1 { 2 }
    else if s == 2 { 4 }
    else if s == 3 { 8 }
    else if s == 4 { 16 }
    else if s == 5 { 32 }
    else if s == 6 { 64 }
    else { 128 }
}

/// A well-formed sequence's view length, and its bound in terms of bytes.
proof fn lemma_seq_len(s: &BitSequence)
    requires
        s.wf(),
    ensures
        s@.len() == s.spec_bit_len(),
        s.spec_bit_len() <= s.spec_bytes().len() * 8,
        s@.len() <= 8 * MAX_SEQUENCE_BYTES,
{
}

/// Bit `k` of byte `i` sits at position `8 i + k` of the byte run.
proof fn lemma_bit_of_bytes(s: Seq<u8>, i: int, k: int)
    requires
        0 <= i < s.len(),
        0 <= k < 8,
    ensures
        bytes_bits(s)[8 * i + k] == byte_bit(s[i], k),
{
    lemma_fundamental_div_mod_converse_div(8 * i + k, 8, i, k);
    lemma_fundamental_div_mod_converse_mod(8 * i + k, 8, i, k);
}

/// Clearing the low `8 - l` bits of a byte changes none of its top `l` bits.
proof fn lemma_mask_byte(b: u8, l: int)
    requires
        1 <= l < 8,
    ensures
        (b as nat / pow2((8 - l) as nat)) * pow2((8 - l) as nat) <= b,
        ((b as nat / pow2((8 - l) as nat)) * pow2((8 - l) as nat)) % pow2((8 - l) as nat)
            == 0,
        forall|k: int| 0 <= k < l
            ==> byte_bit(((b as nat / pow2((8 - l) as nat)) * pow2((8 - l) as nat)) as u8, k)
                == byte_bit(b, k),
{
    let e: nat = (8 - l) as nat;
    let p: int = pow2(e) as int;
    lemma_pow2_pos(e);
    let q: int = b as int / p;
    let rr: int = b as int % p;
    lemma_fundamental_div_mod(b as int, p);
    lemma_fundamental_div_mod_converse_mod(q * p, p, q, 0);
    assert(q * p <= b);
    assert forall|k: int| 0 <= k < l
        implies byte_bit((q * p) as u8, k) == byte_bit(b, k) by {
        let g: int = pow2((l - k - 1) as nat) as int;
        lemma_pow2_pos((l - k - 1) as nat);
        lemma_pow2_adds(e, (l - k - 1) as nat);
        // 2^(7-k) == p * g, so both reads reduce to q / g
        lemma_div_denominator(b as int, p, g);
        lemma_div_denominator(q * p, p, g);
        lemma_fundamental_div_mod_converse_div(q * p, p, q, 0);
    }
}

/// Setting the next free bit of a partial byte changes no earlier bit, makes
/// bit `l` the new bit, and keeps the remaining low bits clear.
proof fn lemma_partial_byte_update(last: u8, l: u8, b: bool)
    requires
        1 <= l < 8,
        last as nat % pow2((8 - l) as nat) == 0,
    ensures
        last + (if b { pow2((7 - l) as nat) } else { 0nat }) < 0x100,
        forall|k: int| 0 <= k < l
            ==> byte_bit((last + (if b { pow2((7 - l) as nat) } else { 0nat })) as u8, k)
                == byte_bit(last, k),
        byte_bit((last + (if b { pow2((7 - l) as nat) } else { 0nat })) as u8, l as int) == b,
        ((last + (if b { pow2((7 - l) as nat) } else { 0nat })) as u8) as nat
            % pow2((7 - l) as nat) == 0,
{
    lemma2_to64();
    let e: nat = (8 - l) as nat;
    let add: nat = if b { pow2((e - 1) as nat) } else { 0nat };
    let u: nat = (last as nat + add) as nat;
    let t: int = last as int / pow2(e) as int;
    lemma_pow2_pos(e);
    lemma_pow2_pos((e - 1) as nat);
    lemma_fundamental_div_mod(last as int, pow2(e) as int);
    assert(last as int == t * pow2(e));
    assert(pow2(e) == 2 * pow2((e - 1) as nat)) by {
        lemma_pow2_unfold(e);
    }
    let bv: int = if b { 1 } else { 0 };
    assert(u as int == (2 * t + bv) * pow2((e - 1) as nat)) by (nonlinear_arith)
        requires
            last as int == t * pow2(e),
            pow2(e) == 2 * pow2((e - 1) as nat),
            u as int == last as int + bv * pow2((e - 1) as nat),
    ;
    assert(u < 0x100) by {
        assert(add < pow2(e)) by {
            lemma_pow2_strictly_increases((e - 1) as nat, e);
        }
        assert(last as nat + pow2(e) <= 0x100) by {
            assert(t * pow2(e) + pow2(e) == (t + 1) * pow2(e)) by (nonlinear_arith);
            lemma_pow2_adds(l as nat, e);
            assert(t < pow2(l as nat)) by (nonlinear_arith)
                requires
                    last as int == t * pow2(e),
                    last < 0x100,
                    pow2(e) > 0,
                    pow2(l as nat) * pow2(e) == 0x100,
            ;
            assert((t + 1) * pow2(e) <= pow2(l as nat) * pow2(e)) by (nonlinear_arith)
                requires
                    t + 1 <= pow2(l as nat),
                    pow2(e) > 0,
            ;
            lemma_pow2_adds(l as nat, e);
        }
    }
    let ub: u8 = u as u8;
    assert(ub as nat == u);
    assert(byte_bit(ub, l as int) == b) by {
        lemma_fundamental_div_mod_converse_div(
            u as int,
            pow2((e - 1) as nat) as int,
            2 * t + bv,
            0,
        );
        lemma_fundamental_div_mod_converse_mod(2 * t + bv, 2, t, bv);
    }
    assert forall|k: int| 0 <= k < l implies byte_bit(ub, k) == byte_bit(last, k) by {
        lemma_pow2_pos((7 - k) as nat);
        lemma_pow2_adds((e - 1) as nat, (l - k) as nat);
        lemma_pow2_pos((l - k) as nat);
        let g: int = pow2((l - k) as nat) as int;
        lemma_fundamental_div_mod_converse_div(
            u as int,
            pow2((e - 1) as nat) as int,
            2 * t + bv,
            0,
        );
        assert(last as int == (2 * t) * pow2((e - 1) as nat)) by (nonlinear_arith)
            requires
                last as int == t * pow2(e),
                pow2(e) == 2 * pow2((e - 1) as nat),
        ;
        lemma_fundamental_div_mod_converse_div(
            last as int,
            pow2((e - 1) as nat) as int,
            2 * t,
            0,
        );
        lemma_div_denominator(u as int, pow2((e - 1) as nat) as int, g);
        lemma_div_denominator(last as int, pow2((e - 1) as nat) as int, g);
        assert((2 * t + bv) / g == (2 * t) / g) by {
            let q: int = (2 * t) / g;
            let r: int = (2 * t) % g;
            lemma_fundamental_div_mod(2 * t, g);
            vstd::arithmetic::mul::lemma_mul_is_commutative(g, q);
            assert(2 * t == q * g + r);
            assert(g % 2 == 0) by {
                lemma_pow2_unfold((l - k) as nat);
                lemma_mod_of_double(pow2((l - k - 1) as nat) as int, g);
            }
            assert(r % 2 == 0) by {
                lemma_even_remainder(2 * t, g, q, r);
            }
            assert(r + bv < g);
            lemma_fundamental_div_mod_converse_div(2 * t + bv, g, q, r + bv);
        }
    }
    assert(u % pow2((e - 1) as nat) == 0) by {
        lemma_fundamental_div_mod_converse_mod(
            u as int,
            pow2((e - 1) as nat) as int,
            2 * t + bv,
            0,
        );
    }
}

/// An even dividend under an even divisor leaves an even remainder.
proof fn lemma_even_remainder(x: int, d: int, q: int, r: int)
    requires
        d > 0,
        d % 2 == 0,
        x % 2 == 0,
        x == q * d + r,
        0 <= r < d,
    ensures
        r % 2 == 0,
{
    let hd: int = d / 2;
    let hx: int = x / 2;
    lemma_fundamental_div_mod(d, 2);
    lemma_fundamental_div_mod(x, 2);
    assert(r == 2 * (hx - q * hd)) by (nonlinear_arith)
        requires
            x == q * d + r,
            d == 2 * hd,
            x == 2 * hx,
    ;
    lemma_mod_of_double(hx - q * hd, r);
}

/// Twice anything is even.
proof fn lemma_mod_of_double(h: int, v: int)
    requires
        v == 2 * h,
    ensures
        v % 2 == 0,
{
    lemma_fundamental_div_mod_converse_mod(v, 2, h, 0);
}

/// Appending a fresh byte after an aligned run extends the view by one bit.
proof fn lemma_push_view_aligned(
    before: &BitSequence,
    after: &BitSequence,
    fresh: u8,
    b: bool,
)
    requires
        before.wf(),
        before.spec_last_len() == 0,
        after.spec_bytes() == before.spec_bytes().push(fresh),
        after.spec_last_len() == 1,
        byte_bit(fresh, 0) == b,
    ensures
        after@ == before@ + seq![b],
{
    let n = before.spec_bytes().len() as int;
    assert(after@.len() == 8 * n + 1);
    assert forall|t: int| 0 <= t < 8 * n + 1 implies after@[t] == (before@ + seq![b])[t] by {
        assert(0 <= t / 8 <= n) by {
            lemma_div_pos_is_pos(t, 8);
            lemma_multiply_divide_lt(t, 8, n + 1);
        }
        if t < 8 * n {
            assert(t / 8 < n) by {
                lemma_multiply_divide_lt(t, 8, n);
            }
            assert(after.spec_bytes()[t / 8] == before.spec_bytes()[t / 8]);
        } else {
            lemma_fundamental_div_mod_converse_div(t, 8, n, 0);
            lemma_fundamental_div_mod_converse_mod(t, 8, n, 0);
            assert(after.spec_bytes()[n] == fresh);
        }
    }
    assert(after@ =~= before@ + seq![b]);
}

/// Rewriting the partial last byte with one more bit extends the view by that
/// bit.
proof fn lemma_push_view_partial(
    before: &BitSequence,
    after: &BitSequence,
    last: u8,
    updated: u8,
    l: int,
    b: bool,
)
    requires
        before.wf(),
        1 <= l < 8,
        before.spec_last_len() == l,
        before.spec_bytes().len() > 0,
        last == before.spec_bytes().last(),
        after.spec_bytes() == before.spec_bytes().update(
            before.spec_bytes().len() - 1,
            updated,
        ),
        after.spec_last_len() == if l == 7 { 0nat } else { (l + 1) as nat },
        forall|k: int| 0 <= k < l ==> byte_bit(updated, k) == byte_bit(last, k),
        byte_bit(updated, l) == b,
    ensures
        after@ == before@ + seq![b],
{
    let n = before.spec_bytes().len() as int;
    let len0 = 8 * (n - 1) + l;
    assert(before@.len() == len0);
    assert(after@.len() == len0 + 1);
    assert forall|t: int| 0 <= t < len0 + 1 implies after@[t] == (before@ + seq![b])[t] by {
        assert(0 <= t / 8 <= n - 1) by {
            lemma_div_pos_is_pos(t, 8);
            lemma_multiply_divide_lt(t, 8, n);
        }
        if t < 8 * (n - 1) {
            assert(t / 8 < n - 1) by {
                lemma_multiply_divide_lt(t, 8, n - 1);
            }
            assert(after.spec_bytes()[t / 8] == before.spec_bytes()[t / 8]);
        } else {
            let k = t - 8 * (n - 1);
            lemma_fundamental_div_mod_converse_div(t, 8, n - 1, k);
            lemma_fundamental_div_mod_converse_mod(t, 8, n - 1, k);
            assert(after.spec_bytes()[n - 1] == updated);
            if k < l {
                assert(byte_bit(updated, k) == byte_bit(last, k));
            } else {
                assert(k == l);
                assert(byte_bit(updated, l) == b);
            }
        }
    }
    assert(after@ =~= before@ + seq![b]);
}

} // verus!
