//! Group-law, membership, and codec behaviour on the standard curve.

use sm_algorithm::ecc::{pubkey_validate, EccError, EccParams, EccPoint};
use sm_algorithm::sm_2::{key_gen, sm2_params};
use sm_algorithm::U256;

#[test]
fn base_point_is_on_the_curve() {
    let params = sm2_params();
    let g = EccPoint::new_simple(params.g_x, params.g_y, &params);
    assert!(g.validate_on_curve());
    assert!(g.validate_on_given_curve(&params));
}

#[test]
fn off_curve_points_are_rejected() {
    let params = sm2_params();
    let junk = EccPoint::new_simple(U256::from_u64(1), U256::from_u64(1), &params);
    assert!(!junk.validate_on_curve());
    assert!(!pubkey_validate(&junk));
}

#[test]
fn adding_the_identity_changes_nothing() {
    let params = sm2_params();
    let g = EccPoint::new_simple(params.g_x, params.g_y, &params);
    let inf = EccPoint::infinity(&params);
    assert_eq!(g.ecc_add(inf, &params).unwrap(), g);
    assert_eq!(inf.ecc_add(g, &params).unwrap(), g);
    assert!(inf.ecc_add(inf, &params).unwrap().infinity);
}

#[test]
fn doubling_matches_multiplying_by_two() {
    let params = sm2_params();
    let g = EccPoint::new_simple(params.g_x, params.g_y, &params);
    let doubled = g.ecc_add(g, &params).unwrap();
    let twice = g.ecc_mul(U256::from_u64(2), &params).unwrap();
    assert_eq!(doubled, twice);
    assert!(!doubled.infinity);
    assert!(doubled.validate_on_curve());
}

#[test]
fn small_multiples_stay_on_the_curve() {
    let params = sm2_params();
    let g = EccPoint::new_simple(params.g_x, params.g_y, &params);
    for k in 1u64..8 {
        let p = g.ecc_mul(U256::from_u64(k), &params).unwrap();
        assert!(p.validate_on_curve());
        assert!(!p.infinity);
    }
    let zero = g.ecc_mul(U256::new(), &params).unwrap();
    assert!(zero.infinity);
}

#[test]
fn multiplying_by_the_order_gives_the_identity() {
    let params = sm2_params();
    let g = EccPoint::new_simple(params.g_x, params.g_y, &params);
    let q = g.ecc_mul(params.n, &params).unwrap();
    assert!(q.infinity);
}

#[test]
fn addition_is_consistent_with_repeated_addition() {
    let params = sm2_params();
    let g = EccPoint::new_simple(params.g_x, params.g_y, &params);
    let two = g.ecc_mul(U256::from_u64(2), &params).unwrap();
    let three_by_mul = g.ecc_mul(U256::from_u64(3), &params).unwrap();
    let three_by_add = two.ecc_add(g, &params).unwrap();
    assert_eq!(three_by_mul, three_by_add);
}

#[test]
fn codec_round_trips_points() {
    let params = sm2_params();
    let g = EccPoint::new_simple(params.g_x, params.g_y, &params);
    let p = g.ecc_mul(U256::from_u64(5), &params).unwrap();
    let bytes = p.to_bytes();
    assert_eq!(bytes.len(), 65);
    assert_eq!(bytes[0], 0x04);
    let back = EccPoint::from_bytes(&bytes, &params);
    assert_eq!(back, p);
}

#[test]
fn public_key_validation_accepts_fresh_keys() {
    let params = sm2_params();
    let kp = key_gen(&params).unwrap();
    assert!(pubkey_validate(&kp.public_key));
    let inf = EccPoint::infinity(&params);
    assert!(!pubkey_validate(&inf));
}

#[test]
fn composite_moduli_surface_missing_inverses() {
    // a toy "curve" over a composite modulus: slope denominators can lack
    // inverses, and the failure must surface instead of crashing
    let params = EccParams {
        a: U256::from_u64(1),
        b: U256::from_u64(1),
        p: U256::from_u64(9),
        n: U256::from_u64(9),
        g_x: U256::from_u64(0),
        g_y: U256::from_u64(1),
    };
    let p1 = EccPoint::new_simple(U256::from_u64(1), U256::from_u64(1), &params);
    let p2 = EccPoint::new_simple(U256::from_u64(4), U256::from_u64(2), &params);
    assert_eq!(p1.ecc_add(p2, &params), Err(EccError::NonInvertible));
}

#[test]
fn wrong_subgroup_points_are_rejected() {
    // the base point is on the curve, but against a wrong order the subgroup
    // check must refuse it
    let genuine = sm2_params();
    let mut params = genuine;
    params.n = U256::from_u64(5);
    let g = EccPoint::new_simple(params.g_x, params.g_y, &params);
    assert!(g.validate_on_curve());
    assert!(!pubkey_validate(&g));
}
