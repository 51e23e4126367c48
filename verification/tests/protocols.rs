//! End-to-end behaviour of signing, key exchange, and hybrid encryption.

use sm_algorithm::bytes::BitSequence;
use sm_algorithm::sm_2::{
    decrypt, encrypt, exchange_key_confirm, exchange_key_generate, exchange_key_initiate,
    exchange_key_validate, generate_signature, key_gen, sm2_params, verify_signature,
    ExchangeKeyInput, Sm2Error, SigningInput, SigningVerificationInput,
};

#[test]
fn signatures_verify_and_bind_the_message() {
    let params = sm2_params();
    let kp = key_gen(&params).unwrap();
    let id = BitSequence::with_bytes(b"ALICE123");
    let message = BitSequence::with_bytes(b"Hello");
    assert_eq!(message.len(), 40);

    let sign_input = SigningInput::new(&params, id.clone(), kp.public_key, kp.private_key);
    let signature = generate_signature(&sign_input, &message).unwrap();

    let verify_input = SigningVerificationInput::new(&params, id.clone(), kp.public_key);
    assert!(verify_signature(&verify_input, &message, signature));

    let other = BitSequence::with_bytes(b"Hullo");
    assert_eq!(other.len(), 40);
    assert!(!verify_signature(&verify_input, &other, signature));
}

#[test]
fn tampering_with_any_signature_part_fails_verification() {
    let params = sm2_params();
    let kp = key_gen(&params).unwrap();
    let id = BitSequence::with_bytes(b"id-1");
    let message = BitSequence::with_bytes(b"attack at dawn");
    let sign_input = SigningInput::new(&params, id.clone(), kp.public_key, kp.private_key);
    let (r, s) = generate_signature(&sign_input, &message).unwrap();
    let verify_input = SigningVerificationInput::new(&params, id, kp.public_key);
    assert!(verify_signature(&verify_input, &message, (r, s)));

    let mut flipped_message = BitSequence::with_bytes(b"attack at dusk");
    assert!(!verify_signature(&verify_input, &flipped_message, (r, s)));
    flipped_message = BitSequence::with_bytes(b"attack at dawn ");
    assert!(!verify_signature(&verify_input, &flipped_message, (r, s)));

    for i in [0usize, 13, 31] {
        let mut r2 = r;
        r2[i] ^= 0x01;
        assert!(!verify_signature(&verify_input, &message, (r2, s)));
        let mut s2 = s;
        s2[i] ^= 0x80;
        assert!(!verify_signature(&verify_input, &message, (r, s2)));
    }
}

#[test]
fn signatures_from_other_identities_fail() {
    let params = sm2_params();
    let kp = key_gen(&params).unwrap();
    let message = BitSequence::with_bytes(b"payload");
    let sign_input = SigningInput::new(
        &params,
        BitSequence::with_bytes(b"me"),
        kp.public_key,
        kp.private_key,
    );
    let signature = generate_signature(&sign_input, &message).unwrap();
    let verify_other = SigningVerificationInput::new(
        &params,
        BitSequence::with_bytes(b"you"),
        kp.public_key,
    );
    assert!(!verify_signature(&verify_other, &message, signature));
}

#[test]
fn key_exchange_agrees_on_both_sides() {
    let params = sm2_params();
    let alice = key_gen(&params).unwrap();
    let bob = key_gen(&params).unwrap();
    let alice_id = BitSequence::with_bytes(b"alice@test");
    let bob_id = BitSequence::with_bytes(b"bob@test");

    let alice_input = ExchangeKeyInput {
        params,
        id: alice_id.clone(),
        public_key: alice.public_key,
        other_id: bob_id.clone(),
        other_public_key: bob.public_key,
    };
    let bob_input = ExchangeKeyInput {
        params,
        id: bob_id.clone(),
        public_key: bob.public_key,
        other_id: alice_id.clone(),
        other_public_key: alice.public_key,
    };

    let klen = 128;
    let (ra, alice_state) = exchange_key_initiate(&alice_input).unwrap();
    let (bob_out, bob_state) =
        exchange_key_generate(&bob_input, &ra, bob.private_key, klen).unwrap();
    let alice_out = exchange_key_confirm(
        &alice_input,
        &alice_state,
        &bob_out.payload,
        alice.private_key,
        klen,
    )
    .unwrap();

    assert_eq!(alice_out.key.len(), klen);
    assert_eq!(bob_out.key.len(), klen);
    assert_eq!(alice_out.key.get_bytes(), bob_out.key.get_bytes());
    assert!(exchange_key_validate(&bob_input, &bob_state, &alice_out.payload));
}

#[test]
fn tampered_exchange_payloads_fail_confirmation() {
    let params = sm2_params();
    let alice = key_gen(&params).unwrap();
    let bob = key_gen(&params).unwrap();
    let alice_id = BitSequence::with_bytes(b"alice");
    let bob_id = BitSequence::with_bytes(b"bob");
    let alice_input = ExchangeKeyInput {
        params,
        id: alice_id.clone(),
        public_key: alice.public_key,
        other_id: bob_id.clone(),
        other_public_key: bob.public_key,
    };
    let bob_input = ExchangeKeyInput {
        params,
        id: bob_id,
        public_key: bob.public_key,
        other_id: alice_id,
        other_public_key: alice.public_key,
    };
    let klen = 64;
    let (ra, alice_state) = exchange_key_initiate(&alice_input).unwrap();
    let (bob_out, bob_state) =
        exchange_key_generate(&bob_input, &ra, bob.private_key, klen).unwrap();

    let mut bad_payload = bob_out.payload;
    bad_payload.validator[7] ^= 0x10;
    let refused = exchange_key_confirm(
        &alice_input,
        &alice_state,
        &bad_payload,
        alice.private_key,
        klen,
    );
    assert!(matches!(refused, Err(Sm2Error::InvalidTag)));

    let good = exchange_key_confirm(
        &alice_input,
        &alice_state,
        &bob_out.payload,
        alice.private_key,
        klen,
    )
    .unwrap();
    let mut bad_tag = good.payload;
    bad_tag[0] ^= 0x01;
    assert!(!exchange_key_validate(&bob_input, &bob_state, &bad_tag));
    assert!(exchange_key_validate(&bob_input, &bob_state, &good.payload));
}

#[test]
fn encryption_round_trips_byte_aligned_messages() {
    let params = sm2_params();
    let kp = key_gen(&params).unwrap();
    let message = BitSequence::with_bytes(b"hybrid encryption payload");
    let cipher = encrypt(&params, &message, &kp.public_key).unwrap();
    assert_eq!(cipher.len(), 520 + message.len() + 256);
    let plain = decrypt(&params, &cipher, kp.private_key).unwrap();
    assert_eq!(plain.get_bytes(), message.get_bytes());
    assert_eq!(plain.get_last_byte_len(), message.get_last_byte_len());
}

#[test]
fn encryption_round_trips_odd_bit_lengths() {
    let params = sm2_params();
    let kp = key_gen(&params).unwrap();
    let message = BitSequence::try_with_bits(&[0xDE, 0xAD, 0xA0], 19).unwrap();
    let cipher = encrypt(&params, &message, &kp.public_key).unwrap();
    let plain = decrypt(&params, &cipher, kp.private_key).unwrap();
    assert_eq!(plain.len(), 19);
    assert_eq!(plain.get_bytes(), message.get_bytes());
    assert_eq!(plain.get_last_byte_len(), message.get_last_byte_len());
}

#[test]
fn tampered_ciphertexts_are_rejected() {
    let params = sm2_params();
    let kp = key_gen(&params).unwrap();
    let message = BitSequence::with_bytes(b"integrity matters");
    let cipher = encrypt(&params, &message, &kp.public_key).unwrap();

    let flipped = {
        let mut copy = cipher.clone();
        let bytes = copy.get_bytes_mut();
        let mid = 70;
        bytes[mid] ^= 0x40;
        copy
    };
    assert!(decrypt(&params, &flipped, kp.private_key).is_err());

    let short = BitSequence::with_bytes(&[0u8; 10]);
    assert!(matches!(
        decrypt(&params, &short, kp.private_key),
        Err(Sm2Error::InvalidCiphertext)
    ));
}

#[test]
fn decrypting_with_the_wrong_key_fails() {
    let params = sm2_params();
    let kp = key_gen(&params).unwrap();
    let other = key_gen(&params).unwrap();
    let message = BitSequence::with_bytes(b"for the right key only");
    let cipher = encrypt(&params, &message, &kp.public_key).unwrap();
    assert!(matches!(
        decrypt(&params, &cipher, other.private_key),
        Err(Sm2Error::InvalidTag)
    ));
}

#[test]
fn degenerate_private_keys_cannot_sign() {
    let params = sm2_params();
    let kp = key_gen(&params).unwrap();
    // d == n - 1 makes (1 + d) vanish modulo n, so no inverse exists
    let bad_d = params.n.wrapping_sub(sm_algorithm::U256::from_u64(1));
    let input = SigningInput::new(
        &params,
        BitSequence::with_bytes(b"id"),
        kp.public_key,
        bad_d,
    );
    let message = BitSequence::with_bytes(b"msg");
    assert!(matches!(
        generate_signature(&input, &message),
        Err(Sm2Error::NoInverse)
    ));
}

#[test]
fn off_curve_exchange_points_are_refused() {
    let params = sm2_params();
    let alice = key_gen(&params).unwrap();
    let bob = key_gen(&params).unwrap();
    let bob_input = ExchangeKeyInput {
        params,
        id: BitSequence::with_bytes(b"bob"),
        public_key: bob.public_key,
        other_id: BitSequence::with_bytes(b"alice"),
        other_public_key: alice.public_key,
    };
    let junk = sm_algorithm::ecc::EccPoint::new_simple(
        sm_algorithm::U256::from_u64(2),
        sm_algorithm::U256::from_u64(3),
        &params,
    );
    assert!(matches!(
        exchange_key_generate(&bob_input, &junk, bob.private_key, 64),
        Err(Sm2Error::InvalidPoint)
    ));
}
