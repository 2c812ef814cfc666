use anti_hash::bignum::BigNum;
use anti_hash::dec::Dec;
use anti_hash::lattice::{build_basis, dot, powers};
use anti_hash::solve::{anti_hash, parameters_valid, AntiResult, Parameters};

use bigdecimal::num_bigint::BigInt;

fn num(x: i64) -> BigNum {
    BigNum::from_i64(x)
}

fn val(n: &BigNum) -> i64 {
    n.try_to_i64().expect("value fits a machine word")
}

/// The rolling hash of `s` under `(q, p)`, recomputed independently with
/// num-bigint.
fn reference_hash(s: &str, q: i64, p: i64) -> BigInt {
    let q = BigInt::from(q);
    let p = BigInt::from(p);
    let mut h = BigInt::from(0);
    let mut pw = BigInt::from(1);
    for c in s.chars() {
        h = (&h + BigInt::from(c as u32) * &pw) % &p;
        pw = &pw * &q % &p;
    }
    h
}

fn default_parameters(length: usize, pairs: &[(i64, i64)], timeout_millis: u64) -> Parameters {
    Parameters {
        length,
        modulo: pairs.iter().map(|&(p, _)| num(p)).collect(),
        base: pairs.iter().map(|&(_, q)| num(q)).collect(),
        lambda: num(100000),
        delta: Dec { man: num(99), scale: 2 },
        eta: Dec { man: num(51), scale: 2 },
        precision: 10,
        timeout_millis,
    }
}

#[test]
fn bignum_machine_roundtrip() {
    assert_eq!(val(&BigNum::from_u64(123456789)), 123456789);
    assert_eq!(val(&num(-42)), -42);
    assert_eq!(val(&num(i64::MIN)), i64::MIN);
    assert_eq!(val(&num(i64::MAX)), i64::MAX);
    assert!(num(0).is_zero());
    assert!(!num(7).is_zero());
    assert_eq!(val(&num(5).negate()), -5);
    assert_eq!(val(&num(-5).abs_val()), 5);
    assert!(num(3).is_nonneg());
    assert!(!num(-3).is_nonneg());
}

#[test]
fn powers_classic_base() {
    let p = powers(&num(233), &num(998244353), 5);
    assert_eq!(p.len(), 5);
    assert_eq!(val(&p[0]), 1);
    assert_eq!(val(&p[1]), 233);
    assert_eq!(val(&p[2]), 54289);
    assert_eq!(val(&p[3]), 12649337);
    assert_eq!(val(&p[4]), 950806815);
}

#[test]
fn powers_modulus_one_gives_zeros() {
    let p = powers(&num(5), &num(1), 3);
    assert_eq!(p.len(), 3);
    for entry in &p {
        assert!(entry.is_zero());
    }
}

#[test]
fn powers_zero_length_has_one_entry() {
    let p = powers(&num(2), &num(7), 0);
    assert_eq!(p.len(), 1);
    assert_eq!(val(&p[0]), 1);
}

#[test]
fn dot_product_small() {
    let a = vec![num(1), num(2), num(3)];
    let b = vec![num(4), num(5), num(6)];
    assert_eq!(val(&dot(&a, &b)), 32);
}

#[test]
fn basis_construction_single_pair() {
    let modulo = vec![num(1000000007)];
    let base = vec![num(31)];
    let b = build_basis(3, &modulo, &base, &num(100000));
    assert_eq!(b.len(), 4);
    for row in &b {
        assert_eq!(row.len(), 4);
    }
    // Hash-image column: powers of the base, scaled by lambda.
    assert_eq!(val(&b[0][0]), 100000);
    assert_eq!(val(&b[1][0]), 3100000);
    assert_eq!(val(&b[2][0]), 96100000);
    // The modulus row carries its only entry in its own column.
    assert_eq!(val(&b[3][0]), 100000000700000);
    assert_eq!(val(&b[3][1]), 0);
    assert_eq!(val(&b[3][2]), 0);
    assert_eq!(val(&b[3][3]), 0);
    // Identity embedding for the difference coordinates.
    for j in 0..3 {
        for c in 1..4 {
            let expected = if c == 1 + j { 1 } else { 0 };
            assert_eq!(val(&b[j][c]), expected);
        }
    }
}

#[test]
fn classic_single_modulus_finds_collision() {
    let params = default_parameters(10, &[(998244353, 233)], 30000);
    assert!(parameters_valid(&params));
    match anti_hash(params) {
        AntiResult::Found(_, a, b) => {
            assert_eq!(a.len(), 10);
            assert_eq!(b.len(), 10);
            assert_ne!(a, b);
            assert!(a.chars().all(|c| ('a'..='z').contains(&c)));
            assert!(b.chars().all(|c| ('a'..='z').contains(&c)));
            assert_eq!(
                reference_hash(&a, 233, 998244353),
                reference_hash(&b, 233, 998244353)
            );
        }
        _ => panic!("expected a collision for the classic single modulus"),
    }
}

#[test]
fn twin_moduli_find_collision() {
    let pairs = [(1000000007, 31), (1000000009, 37)];
    let params = default_parameters(40, &pairs, 60000);
    assert!(parameters_valid(&params));
    match anti_hash(params) {
        AntiResult::Found(_, a, b) => {
            assert_eq!(a.len(), 40);
            assert_eq!(b.len(), 40);
            assert_ne!(a, b);
            for &(p, q) in &pairs {
                assert_eq!(reference_hash(&a, q, p), reference_hash(&b, q, p));
            }
        }
        _ => panic!("expected a collision for the twin moduli"),
    }
}

#[test]
fn infeasible_small_length_not_found() {
    // With base 233 a two-character difference cannot cancel: |d0 + 233 * d1|
    // stays far below the modulus and reaches zero only at the zero vector.
    let params = default_parameters(2, &[(1000000007, 233)], 30000);
    assert!(parameters_valid(&params));
    match anti_hash(params) {
        AntiResult::NotFound(_, _) => {}
        _ => panic!("two characters cannot collide under a large modulus"),
    }
}

#[test]
fn tiny_base_collides_even_at_length_two() {
    // Base 2 admits the difference (-2, 1), whose hash cancels exactly, so
    // even two characters collide.
    let params = default_parameters(2, &[(1000000007, 2)], 30000);
    match anti_hash(params) {
        AntiResult::Found(_, a, b) => {
            assert_ne!(a, b);
            assert_eq!(
                reference_hash(&a, 2, 1000000007),
                reference_hash(&b, 2, 1000000007)
            );
        }
        _ => panic!("base two admits a two-character collision"),
    }
}

#[test]
fn deterministic_timeout_reports_best() {
    let pairs = [
        (1000000007, 31),
        (1000000009, 37),
        (998244353, 233),
        (999999999999999989, 114514),
    ];
    let params = default_parameters(200, &pairs, 1000);
    assert!(parameters_valid(&params));
    match anti_hash(params) {
        AntiResult::TimeOut(best) => {
            // A zero-hash-image row may or may not have appeared within the
            // budget; when one has, its coefficient portion is reported.
            if let Some(best) = best {
                assert_eq!(best.len(), 200);
            }
        }
        _ => panic!("a one-second budget cannot finish four large pairs at this length"),
    }
}

#[test]
fn parameter_validation_accepts_and_rejects() {
    let good = default_parameters(10, &[(998244353, 233)], 1000);
    assert!(parameters_valid(&good));

    let mut zero_length = default_parameters(10, &[(998244353, 233)], 1000);
    zero_length.length = 0;
    assert!(!parameters_valid(&zero_length));

    let no_pairs = Parameters {
        modulo: Vec::new(),
        base: Vec::new(),
        ..default_parameters(10, &[], 1000)
    };
    assert!(!parameters_valid(&no_pairs));

    let base_too_large = default_parameters(10, &[(233, 998244353)], 1000);
    assert!(!parameters_valid(&base_too_large));

    let negative_base = default_parameters(10, &[(998244353, -1)], 1000);
    assert!(!parameters_valid(&negative_base));

    let mut delta_one = default_parameters(10, &[(998244353, 233)], 1000);
    delta_one.delta = Dec { man: num(1), scale: 0 };
    assert!(!parameters_valid(&delta_one));

    let mut eta_half = default_parameters(10, &[(998244353, 233)], 1000);
    eta_half.eta = Dec { man: num(5), scale: 1 };
    assert!(!parameters_valid(&eta_half));

    // eta = 0.995 squares to 0.990025, just above delta = 0.99.
    let mut eta_above_root = default_parameters(10, &[(998244353, 233)], 1000);
    eta_above_root.eta = Dec { man: num(995), scale: 3 };
    assert!(!parameters_valid(&eta_above_root));

    let mut bad_precision = default_parameters(10, &[(998244353, 233)], 1000);
    bad_precision.precision = 0;
    assert!(!parameters_valid(&bad_precision));

    let mut huge_precision = default_parameters(10, &[(998244353, 233)], 1000);
    huge_precision.precision = 101;
    assert!(!parameters_valid(&huge_precision));

    let mut no_timeout = default_parameters(10, &[(998244353, 233)], 1000);
    no_timeout.timeout_millis = 0;
    assert!(!parameters_valid(&no_timeout));

    let mut lambda_zero = default_parameters(10, &[(998244353, 233)], 1000);
    lambda_zero.lambda = num(0);
    assert!(!parameters_valid(&lambda_zero));
}
