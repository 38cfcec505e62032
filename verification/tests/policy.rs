//! Drop-rate policy behavior: each policy variant yields rates in its
//! documented range, on every application.

use drone_harness::testing_initializer::PDRPolicy;
use drone_harness::topology::{DropRate, DROP_RATE_UNIT};

#[test]
fn zero_policy_always_zero() {
    let half = DropRate::from_ppm(500_000).unwrap();
    for _ in 0..32 {
        assert_eq!(PDRPolicy::Zero.get_pdr(half).ppm, 0);
    }
}

#[test]
fn gentle_policy_below_tenth() {
    let zero = DropRate::zero();
    for _ in 0..64 {
        let r = PDRPolicy::Gentle.get_pdr(zero);
        assert!(r.ppm < 100_000);
    }
}

#[test]
fn medium_policy_in_range() {
    let zero = DropRate::zero();
    for _ in 0..64 {
        let r = PDRPolicy::Medium.get_pdr(zero);
        assert!(r.ppm >= 100_000 && r.ppm < 500_000);
    }
}

#[test]
fn severe_policy_in_range() {
    let zero = DropRate::zero();
    for _ in 0..64 {
        let r = PDRPolicy::Severe.get_pdr(zero);
        assert!(r.ppm >= 500_000 && r.ppm < 750_000);
    }
}

#[test]
fn constant_policy_exact_on_every_application() {
    let p = DropRate::from_ppm(123_456).unwrap();
    let mut cur = DropRate::zero();
    for _ in 0..8 {
        cur = PDRPolicy::Constant(p).get_pdr(cur);
        assert_eq!(cur.ppm, 123_456);
    }
}

#[test]
fn uniform_policy_in_given_range() {
    let lo = DropRate::from_ppm(200_000).unwrap();
    let hi = DropRate::from_ppm(300_000).unwrap();
    for _ in 0..64 {
        let r = PDRPolicy::Uniform(lo, hi).get_pdr(DropRate::zero());
        assert!(r.ppm >= 200_000 && r.ppm < 300_000);
    }
}

#[test]
fn unchanged_policy_keeps_rate() {
    let p = DropRate::from_ppm(777_777).unwrap();
    assert_eq!(PDRPolicy::Unchanged.get_pdr(p).ppm, 777_777);
}

#[test]
fn drop_rate_rejects_one_or_more() {
    assert_eq!(DropRate::from_ppm(DROP_RATE_UNIT - 1).unwrap().ppm, 999_999);
    assert!(DropRate::from_ppm(DROP_RATE_UNIT).is_none());
    assert!(DropRate::from_ppm(u32::MAX).is_none());
}
