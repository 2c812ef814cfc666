use anti_hash::bignum::BigNum;
use anti_hash::driver;
use anti_hash::dec::Dec;
use anti_hash::solve::{collision_check, decode_row};

use bigdecimal::num_bigint::BigInt;

fn num(x: i64) -> BigNum {
    BigNum::from_i64(x)
}

fn reference_hash(s: &str, q: i64, p: i64) -> BigInt {
    let q = BigInt::from(q);
    let p = BigInt::from(p);
    let mut h = BigInt::from(0);
    let mut pw = BigInt::from(1);
    for c in s.chars() {
        h = (&h + BigInt::from(c as u32) * &pw) % &p;
        pw = &pw * &q % &p;
    }
    h
}

#[test]
fn decode_row_splits_signs() {
    // Two hash-image columns, then differences 1, -2, 0.
    let row = vec![num(0), num(0), num(1), num(-2), num(0)];
    let (a, b) = decode_row(&row, 2, 3);
    assert_eq!(a, b"aca".to_vec());
    assert_eq!(b, b"baa".to_vec());
}

#[test]
fn collision_check_agrees_with_weighted_sums() {
    // Under q = 1 every position weighs the same, so swapping characters
    // keeps the hash; under q = 2 mod 5 it does not.
    let a = b"ab".to_vec();
    let b = b"ba".to_vec();
    assert!(collision_check(&a, &b, &vec![num(3)], &vec![num(1)]));
    assert!(!collision_check(&a, &b, &vec![num(5)], &vec![num(2)]));
    assert!(collision_check(&a, &a, &vec![num(5)], &vec![num(2)]));
}

#[test]
fn collision_check_compares_modulo_the_modulus() {
    // The sums differ by exactly the modulus: 2 versus 0 under p = 2, q = 1.
    // Congruent hashes collide even though the raw weighted sums differ.
    let a = vec![2u8, 0u8];
    let b = vec![0u8, 0u8];
    assert!(collision_check(&a, &b, &vec![num(2)], &vec![num(1)]));
    assert!(!collision_check(&a, &b, &vec![num(3)], &vec![num(1)]));
}

#[test]
fn doubling_driver_finds_collision() {
    let pairs = vec![(998244353i64, 233i64)];
    match driver::anti_hash(pairs) {
        Ok((a, b)) => {
            assert_eq!(a.len(), b.len());
            assert!(a.len() >= 1 && a.len() <= 256);
            assert_ne!(a, b);
            assert!(a.chars().all(|c| ('a'..='z').contains(&c)));
            assert!(b.chars().all(|c| ('a'..='z').contains(&c)));
            assert_eq!(
                reference_hash(&a, 233, 998244353),
                reference_hash(&b, 233, 998244353)
            );
        }
        Err(e) => panic!("expected a collision from the doubling search, got {}", e),
    }
}

#[test]
fn reduction_preserves_lattice() {
    // Basis for length 2 and one pair (p = 5, q = 2), scaled by lambda = 10:
    // rows (10, 1, 0), (20, 0, 1), (50, 0, 0).
    let basis = vec![
        vec![num(10), num(1), num(0)],
        vec![num(20), num(0), num(1)],
        vec![num(50), num(0), num(0)],
    ];
    let (reduced, _exit) = anti_hash::reduce::reduce_basis(
        basis,
        Dec { man: num(99), scale: 2 },
        Dec { man: num(51), scale: 2 },
        10,
        1_000_000,
        1,
    );
    assert_eq!(reduced.len(), 3);
    let rows: Vec<Vec<i64>> = reduced
        .iter()
        .map(|r| r.iter().map(|v| v.try_to_i64().unwrap()).collect())
        .collect();
    // Every reduced row is an integer combination of the originals: the
    // coefficients of the first two rows are read off columns 1 and 2, and
    // what remains must be a multiple of 50.
    for r in &rows {
        assert_eq!((r[0] - 10 * r[1] - 20 * r[2]) % 50, 0);
    }
    // The span is unchanged: the determinant keeps its magnitude, 50.
    let det = rows[0][0] * (rows[1][1] * rows[2][2] - rows[1][2] * rows[2][1])
        - rows[0][1] * (rows[1][0] * rows[2][2] - rows[1][2] * rows[2][0])
        + rows[0][2] * (rows[1][0] * rows[2][1] - rows[1][1] * rows[2][0]);
    assert_eq!(det.abs(), 50);
}

#[test]
fn driver_length_one_finds_nothing() {
    let pairs = vec![(1000000007i64, 31i64)];
    assert!(driver::anti_hash_with_length(&pairs, 1).is_none());
}
