//! End-to-end tests of the order-preserving encryption scheme.

use ope::get_ope;
use ope::ope::Ope;
use ope::OpeError;
use ope::OpeKey;
use ope::DOMAIN;

const KEY: OpeKey = *b"this is a key 10";

#[test]
fn test_all_numbers() {
    // A dense prefix of the domain encrypts to a strictly increasing
    // sequence (default profile, fixed key).
    let ope = get_ope(&KEY);
    let mut past: u64 = 0;
    let mut first = true;
    for i in 23..65531u64 {
        let en = ope.encrypt(i).unwrap();
        if !first {
            assert!(past < en, "not increasing at {}", i);
        }
        past = en;
        first = false;
    }
}

#[test]
fn test_round_trip() {
    let ope = get_ope(&KEY);
    for &x in [23u64, 1024, 32768, 65530].iter() {
        let c = ope.encrypt(x).unwrap();
        assert_eq!(ope.decrypt(c).unwrap(), x);
    }
}

#[test]
fn test_determinism_across_instances() {
    let a = get_ope(&KEY);
    let b = get_ope(&KEY);
    for &x in [0u64, 23, 500, 65534].iter() {
        let c1 = a.encrypt(x).unwrap();
        let c2 = a.encrypt(x).unwrap();
        let c3 = b.encrypt(x).unwrap();
        assert_eq!(c1, c2);
        assert_eq!(c1, c3);
    }
}

#[test]
fn test_encrypt_zero_and_one() {
    let ope = get_ope(&KEY);
    let c0 = ope.encrypt(0).unwrap();
    let c1 = ope.encrypt(1).unwrap();
    assert!(c0 < c1);
}

#[test]
fn test_domain_edges() {
    let ope = get_ope(&KEY);
    // The last domain point encrypts and round-trips.
    let c = ope.encrypt(DOMAIN).unwrap();
    assert_eq!(ope.decrypt(c).unwrap(), DOMAIN);
    // One past the domain is the caller's responsibility; the call still
    // returns without panicking.
    let r = ope.encrypt(DOMAIN + 1);
    assert!(r.is_ok());
}

#[test]
fn test_range_not_larger_than_domain() {
    // Construction succeeds, but every call reports OpeRange.
    let eq = Ope::new(&KEY, 100, 100);
    assert!(matches!(eq.encrypt(5), Err(OpeError::OpeRange)));
    assert!(matches!(eq.decrypt(5), Err(OpeError::OpeRange)));
    let lt = Ope::new(&KEY, 100, 50);
    assert!(matches!(lt.encrypt(5), Err(OpeError::OpeRange)));
}

#[test]
fn test_ciphertext_within_range() {
    let ope = get_ope(&KEY);
    for &x in [0u64, 1, 12345, 65534].iter() {
        let c = ope.encrypt(x).unwrap();
        assert!(c <= ope.r);
    }
}

#[test]
fn test_key_changes_mapping() {
    let k2: OpeKey = *b"this is a key 11";
    let a = get_ope(&KEY);
    let b = get_ope(&k2);
    let mut differs = false;
    for x in 0..16u64 {
        if a.encrypt(x).unwrap() != b.encrypt(x).unwrap() {
            differs = true;
        }
    }
    assert!(differs);
    // The tree itself (and so decryption) must depend on the key too.
    let mut dec_differs = false;
    for c in [1u64 << 20, 1 << 24, 1 << 28, 1 << 31, 3 << 30].iter() {
        if a.decrypt(*c).unwrap() != b.decrypt(*c).unwrap() {
            dec_differs = true;
        }
    }
    assert!(dec_differs);
}
