//! Integer, modular, bit-sequence, digest, and derivation behaviour on
//! concrete values.

use sm_algorithm::bytes::{BitSequence, BitSequenceError};
use sm_algorithm::sm_2::key_derivation_function;
use sm_algorithm::sm_3::hash;
use sm_algorithm::U256;

#[test]
fn add_then_sub_round_trips() {
    let a = U256::from_le_bytes(&[0x7B; 32]);
    let b = U256::from_be_u64_array(&[u64::MAX, 0x1234, 99, u64::MAX - 7]);
    assert_eq!(a.wrapping_add(b).wrapping_sub(b), a);
    assert_eq!(b.wrapping_add(a).wrapping_sub(a), b);
}

#[test]
fn overflowing_add_reports_carry() {
    let max = U256::from_le_bytes(&[0xFF; 32]);
    let one = U256::from_u64(1);
    let (sum, carry) = max.overflowing_add(one);
    assert!(carry);
    assert_eq!(sum, U256::new());
    let (sum2, carry2) = one.overflowing_add(one);
    assert!(!carry2);
    assert_eq!(sum2, U256::from_u64(2));
}

#[test]
fn multiplication_wraps_modulo_two_to_the_256() {
    let max64 = U256::from_u64(u64::MAX);
    let square = max64.wrapping_mul(max64);
    assert_eq!(square, U256::from_le_u64_array(&[1, 0xFFFF_FFFF_FFFF_FFFE, 0, 0]));
    let max = U256::from_le_bytes(&[0xFF; 32]);
    assert_eq!(max.wrapping_mul(max), U256::from_u64(1));
    assert_eq!(max.wrapping_mul(U256::new()), U256::new());
}

#[test]
fn division_gives_quotient_and_remainder() {
    let (q, r) = U256::from_u64(17).div_rem(U256::from_u64(5));
    assert_eq!(q, U256::from_u64(3));
    assert_eq!(r, U256::from_u64(2));
    assert_eq!(U256::from_u64(99).modded(U256::from_u64(10)), U256::from_u64(9));
}

#[test]
fn shifts_scale_by_powers_of_two() {
    assert_eq!(U256::from_u64(1).shl(8), U256::from_u64(256));
    assert_eq!(U256::from_u64(0xF0).shr(4), U256::from_u64(0x0F));
    assert_eq!(U256::from_u64(7).shl(300), U256::new());
}

#[test]
fn bit_length_queries() {
    assert_eq!(U256::from_u64(5).highest_bit(), 3);
    assert_eq!(U256::new().highest_bit(), 0);
    assert_eq!(U256::from_u64(5).leading_zeros(), 253);
    assert_eq!(U256::new().leading_zeros(), 256);
}

#[test]
fn byte_conversions_round_trip() {
    let mut raw = [0u8; 32];
    for (i, b) in raw.iter_mut().enumerate() {
        *b = (i as u8).wrapping_mul(37).wrapping_add(11);
    }
    let x = U256::from_le_bytes(&raw);
    assert_eq!(x.into_le_bytes(), raw);
    let be = x.into_be_bytes();
    assert_eq!(U256::from_be_bytes(&be), x);
    let words = x.into_le_u64_array();
    assert_eq!(U256::from_le_u64_array(&words), x);
    let be_words = x.into_be_u64_array();
    assert_eq!(U256::from_be_u64_array(&be_words), x);
}

#[test]
fn comparisons_follow_values() {
    let small = U256::from_u64(3);
    let big = U256::from_be_u64_array(&[1, 0, 0, 0]);
    assert!(small < big);
    assert!(!(big < small));
    assert!(small < U256::from_u64(4));
}

#[test]
fn modular_operations_reduce() {
    let m = U256::from_u64(97);
    assert_eq!(U256::from_u64(90).mod_add(U256::from_u64(20), m), U256::from_u64(13));
    assert_eq!(U256::from_u64(13).mod_mul(U256::from_u64(13), m), U256::from_u64(72));
    let huge = U256::from_le_bytes(&[0xEE; 32]);
    let prod = huge.mod_mul(huge, m);
    assert!(prod < m);
}

#[test]
fn modular_inverse_exists_exactly_for_coprimes() {
    let inv = U256::from_u64(3).mod_inv(U256::from_u64(7));
    assert_eq!(inv, Some(U256::from_u64(5)));
    assert_eq!(U256::from_u64(6).mod_inv(U256::from_u64(9)), None);
    assert_eq!(U256::from_u64(5).mod_inv(U256::from_u64(1)), None);
    assert_eq!(U256::from_u64(5).mod_inv(U256::new()), None);
    let m = U256::from_u64(101);
    let a = U256::from_u64(40);
    let v = a.mod_inv(m).unwrap();
    assert_eq!(a.mod_mul(v, m), U256::from_u64(1));
}

#[test]
fn append_then_slice_reconstructs_bytes() {
    let payload = [0x12u8, 0x34, 0x56, 0x78];
    let mut seq = BitSequence::new_empty();
    seq.append_bytes(&payload);
    let back = seq.slice(0, 8 * payload.len() as u64).unwrap();
    assert_eq!(back.get_bytes(), &payload[..]);
    assert_eq!(back.get_last_byte_len(), 0);
}

#[test]
fn slice_extracts_inner_bits() {
    let seq = BitSequence::with_bytes(&[0xAB, 0xCD]);
    assert_eq!(seq.len(), 16);
    let mid = seq.slice(4, 12).unwrap();
    assert_eq!(mid.get_bytes(), &[0xBC][..]);
    assert!(matches!(seq.slice(8, 4), Err(BitSequenceError::InvalidRange)));
    assert!(matches!(seq.slice(0, 17), Err(BitSequenceError::InvalidRange)));
}

#[test]
fn xor_twice_is_identity() {
    let x = BitSequence::with_bytes(&[0xDE, 0xAD, 0xBE, 0xEF]);
    let y = BitSequence::with_bytes(&[0x01, 0x23, 0x45, 0x67]);
    let once = x.xor(&y).unwrap();
    let twice = once.xor(&y).unwrap();
    assert_eq!(twice.get_bytes(), x.get_bytes());
    assert_eq!(twice.get_last_byte_len(), x.get_last_byte_len());
    let short = BitSequence::with_bytes(&[0x01]);
    assert!(matches!(x.xor(&short), Err(BitSequenceError::LengthMismatch)));
}

#[test]
fn xor_inplace_matches_xor() {
    let mut x = BitSequence::with_bytes(&[0xF0, 0x0F]);
    let y = BitSequence::with_bytes(&[0xFF, 0xFF]);
    x.xor_inplace(&y).unwrap();
    assert_eq!(x.get_bytes(), &[0x0F, 0xF0][..]);
}

#[test]
fn partial_byte_construction_masks_low_bits() {
    let seq = BitSequence::try_with_bits(&[0xFF], 4).unwrap();
    assert_eq!(seq.len(), 4);
    assert_eq!(seq.get_bytes(), &[0xF0][..]);
    assert_eq!(seq.get_last_byte_len(), 4);
    assert!(matches!(
        BitSequence::try_with_bits(&[0xFF, 0xFF], 7),
        Err(BitSequenceError::InvalidSize)
    ));
    assert!(matches!(
        BitSequence::try_with_bits(&[0xFF], 9),
        Err(BitSequenceError::InvalidSize)
    ));
}

#[test]
fn little_endian_bytes_right_align_the_tail() {
    let seq = BitSequence::try_with_bits(&[0x12, 0xB0], 12).unwrap();
    let le = seq.into_le_bytes();
    assert_eq!(le, vec![0x0B, 0x12]);
    let aligned = BitSequence::with_bytes(&[0x01, 0x02, 0x03]);
    assert_eq!(aligned.into_le_bytes(), vec![0x03, 0x02, 0x01]);
}

#[test]
fn bit_reads_follow_positions() {
    let seq = BitSequence::with_bytes(&[0b1010_0001]);
    assert!(seq.get_bit(0));
    assert!(!seq.get_bit(1));
    assert!(seq.get_bit(2));
    assert!(seq.get_bit(7));
}

#[test]
fn digest_matches_published_vectors() {
    let abc = BitSequence::with_bytes(b"abc");
    let expected: [u8; 32] = [
        0x66, 0xc7, 0xf0, 0xf4, 0x62, 0xee, 0xed, 0xd9, 0xd1, 0xf2, 0xd4, 0x6b, 0xdc, 0x10,
        0xe4, 0xe2, 0x41, 0x67, 0xc4, 0x87, 0x5c, 0xf2, 0xf7, 0xa2, 0x29, 0x7d, 0xa0, 0x2b,
        0x8f, 0x4b, 0xa8, 0xe0,
    ];
    assert_eq!(hash(&abc), expected);

    let mut long = Vec::new();
    for _ in 0..16 {
        long.extend_from_slice(b"abcd");
    }
    let long_seq = BitSequence::with_bytes(&long);
    let expected_long: [u8; 32] = [
        0xde, 0xbe, 0x9f, 0xf9, 0x22, 0x75, 0xb8, 0xa1, 0x38, 0x60, 0x48, 0x89, 0xc1, 0x8e,
        0x5a, 0x4d, 0x6f, 0xdb, 0x70, 0xe5, 0x38, 0x7e, 0x57, 0x65, 0x29, 0x3d, 0xcb, 0xa3,
        0x9c, 0x0c, 0x57, 0x32,
    ];
    assert_eq!(hash(&long_seq), expected_long);
}

#[test]
fn digest_is_deterministic() {
    let m = BitSequence::try_with_bits(&[0xAA, 0xBB, 0xC0], 20).unwrap();
    assert_eq!(hash(&m), hash(&m));
}

#[test]
fn derivation_is_deterministic_with_exact_length() {
    let seed = BitSequence::with_bytes(b"session-seed");
    let a = key_derivation_function(&seed, 300);
    let b = key_derivation_function(&seed, 300);
    assert_eq!(a.len(), 300);
    assert_eq!(a.get_bytes(), b.get_bytes());
    assert_eq!(a.get_last_byte_len(), b.get_last_byte_len());
    let c = key_derivation_function(&seed, 256);
    assert_eq!(c.len(), 256);
    assert_eq!(c.get_last_byte_len(), 0);
    let other = BitSequence::with_bytes(b"other-seed");
    let d = key_derivation_function(&other, 300);
    assert_ne!(a.get_bytes(), d.get_bytes());
}

#[test]
fn sequence_equality_follows_contents() {
    let a = BitSequence::with_bytes(&[1, 2, 3]);
    let b = BitSequence::with_bytes(&[1, 2, 3]);
    let c = BitSequence::with_bytes(&[1, 2, 4]);
    assert!(a == b);
    assert!(a != c);
    let d = BitSequence::try_with_bits(&[1, 2, 3], 20).unwrap();
    assert!(a != d);
}
