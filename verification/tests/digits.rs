use chudnovsky::pi::{compute_pi, PiCalc};
use num_bigint::BigInt;
use std::str::FromStr;

const PI_100: &str = "3141592653589793238462643383279502884197169399375105820974944592307816406286208998628034825342117067";

#[test]
fn test_pi_zero() {
    assert_eq!(compute_pi(0), BigInt::from(0));
}

#[test]
fn test_pi_one() {
    assert_eq!(compute_pi(1), BigInt::from(3));
}

#[test]
fn test_pi_ten() {
    assert_eq!(compute_pi(10), BigInt::from(3141592653u64));
}

#[test]
fn test_pi_hundred() {
    assert_eq!(compute_pi(100), BigInt::from_str(PI_100).unwrap());
}

// The first 1000 digits: exactly 1000 digits long, and truncating to the
// first 100 digits agrees with the reference above.
#[test]
fn test_pi_thousand() {
    let a = compute_pi(1000);
    let s = a.to_string();
    assert_eq!(s.len(), 1000);
    let head = &a / BigInt::from(10u32).pow(900);
    assert_eq!(head, BigInt::from_str(PI_100).unwrap());
}

// The integer rendered to 15 decimal places reads 3.141592653589793.
#[test]
fn test_round_trip() {
    assert_eq!(compute_pi(16).to_string(), "3141592653589793");
}

// A call answered from the cache equals a fresh computation at the same
// precision.
#[test]
fn test_cache_idempotent() {
    let mut pc = PiCalc::new();
    let first = pc.get_pi(1000);
    let cached = pc.get_pi(500);
    assert_eq!(cached, compute_pi(500));
    assert_eq!(first.to_string().len(), 1000);
    let head = &first / BigInt::from(10u32).pow(500);
    assert_eq!(head, cached);
}

// pre_calc alone fills the cache; a later get_pi at or below that
// precision reuses it.
#[test]
fn test_pre_calc_then_get() {
    let mut pc = PiCalc::new();
    pc.pre_calc(200);
    let a = pc.get_pi(100);
    assert_eq!(a, BigInt::from_str(PI_100).unwrap());
}

// A request above one chunk's worth of terms (10000 terms cover about
// 141816 digits) exercises the strided tree reduction.
#[test]
fn test_pi_two_chunks() {
    let a = compute_pi(150_000);
    let s = a.to_string();
    assert_eq!(s.len(), 150_000);
    assert!(s.starts_with(PI_100));
}
