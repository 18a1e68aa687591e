use protohackers::primality::{miller_rabin, mod_exp, mod_mul, mod_mul_, mod_sqr};

#[test]
fn mod_mul_small_and_wide() {
    assert_eq!(mod_mul(7, 8, 5), 1);
    assert_eq!(mod_mul(3, 4, 100), 12);
    assert_eq!(mod_mul(u64::MAX, u64::MAX, 1_000_000_007), 114944269);
    assert_eq!(mod_mul_(u64::MAX, 2, u64::MAX), 0);
}

#[test]
fn mod_sqr_values() {
    assert_eq!(mod_sqr(12, 7), 4);
    assert_eq!(mod_sqr(3, 100), 9);
    assert_eq!(mod_sqr(1 << 40, 1_000_000_007), ((1u128 << 80) % 1_000_000_007) as u64);
}

#[test]
fn mod_exp_values() {
    assert_eq!(mod_exp(2, 10, 1000), 24);
    assert_eq!(mod_exp(3, 0, 7), 1);
    assert_eq!(mod_exp(5, 3, 13), 8);
    assert_eq!(mod_exp(2, 0, 0), 1);
}

#[test]
fn small_numbers() {
    assert!(!miller_rabin(0));
    assert!(!miller_rabin(1));
    assert!(miller_rabin(2));
    assert!(miller_rabin(3));
    assert!(!miller_rabin(4));
    assert!(!miller_rabin(9));
    assert!(miller_rabin(97));
    assert!(miller_rabin(7919));
}

#[test]
fn carmichael_and_pseudoprimes_are_composite() {
    assert!(!miller_rabin(561));
    assert!(!miller_rabin(2047));
    assert!(!miller_rabin(3_215_031_751));
    assert!(!miller_rabin(25_326_001));
}

#[test]
fn large_primes() {
    assert!(miller_rabin(1_000_000_007));
    assert!(miller_rabin(2_305_843_009_213_693_951));
    assert!(miller_rabin(18_446_744_073_709_551_557));
    assert!(!miller_rabin(u64::MAX));
    assert!(!miller_rabin(1_000_000_007 * 3));
}
