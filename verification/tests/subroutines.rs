use accumulator::arith::{bezout, extended_gcd, mod_exp, mod_inverse, mul_mod};
use accumulator::prime::{hash_to_prime, miller_rabin};
use accumulator::witness::{root_factor, shamir_trick};
use accumulator::{LAMBDA, MODULUS};

#[test]
fn test_mod_exp() {
    assert_eq!(mod_exp(2, 7, MODULUS), 11);
    assert_eq!(mod_exp(7, 15, MODULUS), 5);
}

#[test]
fn test_extended_gcd() {
    assert_eq!(extended_gcd(180, 150), (30, 1, -1));
    assert_eq!(extended_gcd(13, 17), (1, 4, -3));
}

#[test]
fn test_bezout() {
    assert_eq!(bezout(4, 10), None);
    assert_eq!(bezout(3434, 2423), Some((-997, 1413)));
}

#[test]
fn test_shamir_trick() {
    assert_eq!(shamir_trick(11, 6, 7, 5), Some(7));
    assert_eq!(shamir_trick(11, 7, 7, 11), Some(6));
    assert_eq!(shamir_trick(6, 7, 5, 11), Some(11));
    assert_eq!(shamir_trick(12, 7, 7, 11), None);
}

#[test]
fn test_mod_inverse() {
    assert_eq!(mod_inverse(9), 3);
    assert_eq!(mod_inverse(6), 11);
}

#[test]
fn test_miller_rabin() {
    assert_eq!(miller_rabin(5), true);
    assert_eq!(miller_rabin(7), true);
    assert_eq!(miller_rabin(241), true);
    assert_eq!(miller_rabin(7919), true);
    assert_eq!(miller_rabin(48131), true);
    assert_eq!(miller_rabin(76463), true);
    assert_eq!(miller_rabin(4222234741u128), true);
    assert_eq!(miller_rabin(187278659180417234321u128), true);

    assert_eq!(miller_rabin(21), false);
    assert_eq!(miller_rabin(87), false);
    assert_eq!(miller_rabin(155), false);
    assert_eq!(miller_rabin(9167), false);
    assert_eq!(miller_rabin(102398), false);
    assert_eq!(miller_rabin(801435), false);
    assert_eq!(miller_rabin(51456119958243u128), false);
}

#[test]
fn test_hash_to_prime() {
    // The mapping must land on a prime below the bound, and must depend
    // on the digest, not on the raw input bytes: an identity "hash"
    // would make both of these inputs fail the search.
    let a = hash_to_prime(&[0u8; 32]).unwrap();
    let b = hash_to_prime(&[1u8; 32]).unwrap();
    assert!(a < LAMBDA);
    assert!(b < LAMBDA);
    assert!(a >= 2);
    assert!(miller_rabin(a));
    assert!(miller_rabin(b));
    assert_ne!(a, b);
}

#[test]
fn test_root_factor() {
    assert_eq!(root_factor(2, &[3, 5, 7, 11]), vec![2, 8, 5, 5]);
}

#[test]
fn test_mul_mod_matches_direct_product() {
    assert_eq!(mul_mod(7, 11, 13), (7 * 11) % 13);
    assert_eq!(mul_mod(0, 11, 13), 0);
    assert_eq!(mul_mod(12, 12, 13), 1);
    let big = u64::MAX as u128;
    assert_eq!(mul_mod(big, big, 1_000_000_007), (big * big) % 1_000_000_007);
}

#[test]
fn test_mod_exp_edges() {
    // Exponent 0 gives the identity; base 0 stays 0 for positive exponents.
    assert_eq!(mod_exp(5, 0, MODULUS), 1);
    assert_eq!(mod_exp(0, 5, MODULUS), 0);
    assert_eq!(mod_exp(14, 1, MODULUS), 1);
}

#[test]
fn test_bezout_identity_holds() {
    for &(a, b) in &[(13u128, 17u128), (3434, 2423), (1, 1), (2, 9), (100, 13)] {
        let (x, y) = bezout(a, b).unwrap();
        assert_eq!(a as i128 * x + b as i128 * y, 1);
    }
}

#[test]
fn test_mod_inverse_identity_holds() {
    // Every nonzero residue is a unit for the reference test modulus.
    for a in 1..MODULUS {
        let inv = mod_inverse(a);
        assert_eq!((a * inv) % MODULUS, 1);
        assert!(inv < MODULUS);
    }
}

#[test]
fn test_extended_gcd_zero_cases() {
    assert_eq!(extended_gcd(0, 0), (0, 1, 0));
    assert_eq!(extended_gcd(5, 0), (5, 1, 0));
    assert_eq!(extended_gcd(0, 5), (5, 0, 1));
}
