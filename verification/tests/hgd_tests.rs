//! Tests for the hypergeometric sampler and the primitive helpers.

use ope::hgd::hgd;
use ope::prng::BlockCipher;
use ope::utils::hmac;
use ope::utils::num_bits;
use ope::utils::sha;
use ope::OpeError;
use ope::OpeKey;

const KEY: OpeKey = *b"this is a key 10";

fn draw(kk: u64, nn1: u64, nn2: u64, seed: u64) -> u64 {
    let mut prng = BlockCipher::new(&KEY);
    let ctr = sha(format!("{}", seed).as_bytes());
    prng.set_ctr(ctr);
    hgd(kk, nn1, nn2, &mut prng).unwrap()
}

#[test]
fn test_hgd_support() {
    let cases: [(u64, u64, u64); 9] = [
        (50, 50, 50),
        (10, 100, 10),
        (15, 10, 10),
        (0, 5, 5),
        (5, 0, 5),
        (5, 5, 0),
        (6, 3, 3),
        (1, 1, 1),
        (7, 200, 3),
    ];
    for &(kk, nn1, nn2) in cases.iter() {
        for seed in 0..50u64 {
            let v = draw(kk, nn1, nn2, seed);
            let lo = if kk > nn2 { kk - nn2 } else { 0 };
            let hi = if nn1 < kk { nn1 } else { kk };
            assert!(lo <= v && v <= hi, "out of support: {} for {:?}", v, (kk, nn1, nn2));
        }
    }
}

#[test]
fn test_hgd_invalid_inputs() {
    let mut prng = BlockCipher::new(&KEY);
    let r = hgd(11, 5, 5, &mut prng);
    assert!(matches!(r, Err(OpeError::HdgInvalidInputs)));
}

#[test]
fn test_hgd_determinism() {
    for seed in 0..20u64 {
        let a = draw(1000, 700, 900, seed);
        let b = draw(1000, 700, 900, seed);
        assert_eq!(a, b);
    }
}

#[test]
fn test_hgd_mean_symmetric() {
    // K * N1 / (N1 + N2) = 25
    let mut sum: u64 = 0;
    let n = 400u64;
    for seed in 0..n {
        sum += draw(50, 50, 50, seed);
    }
    let mean = sum as f64 / n as f64;
    assert!((mean - 25.0).abs() < 1.0, "mean {}", mean);
}

#[test]
fn test_hgd_mean_skewed() {
    // K * N1 / (N1 + N2) = 10 * 100 / 110 = 9.09; the support is [0, 10], so
    // a sampler that ignored the distribution's shape would sit near 5.
    let mut sum: u64 = 0;
    let n = 400u64;
    for seed in 0..n {
        sum += draw(10, 100, 10, seed);
    }
    let mean = sum as f64 / n as f64;
    assert!((mean - 9.0909).abs() < 0.5, "mean {}", mean);
}

#[test]
fn test_hgd_regimes() {
    // A small urn and a large one: both must stay in support and be
    // reproducible.
    for &(kk, nn1, nn2) in [(50u64, 50u64, 50u64), (10000, 10000, 10000)].iter() {
        let a = draw(kk, nn1, nn2, 7);
        let b = draw(kk, nn1, nn2, 7);
        assert_eq!(a, b);
        assert!(a <= if nn1 < kk { nn1 } else { kk });
    }
}

#[test]
fn test_hgd_degenerate() {
    // kk == nn1 + nn2: every ball is drawn, so the count of white is nn1.
    assert_eq!(draw(10, 4, 6, 3), 4);
    // kk == 0: nothing drawn.
    assert_eq!(draw(0, 9, 9, 3), 0);
    // nn1 == 0: no white balls to draw.
    assert_eq!(draw(5, 0, 9, 3), 0);
}

#[test]
fn test_num_bits() {
    assert_eq!(num_bits(0), 0);
    assert_eq!(num_bits(1), 1);
    assert_eq!(num_bits(2), 2);
    assert_eq!(num_bits(255), 8);
    assert_eq!(num_bits(256), 9);
    assert_eq!(num_bits(u64::MAX), 64);
}

#[test]
fn test_be_mod() {
    assert_eq!(ope::utils::be_mod(&vec![0x01, 0x00], 1000), 256);
    assert_eq!(ope::utils::be_mod(&vec![0xff, 0xff], 10), 5);
    assert_eq!(ope::utils::be_mod(&vec![], 7), 0);
    assert_eq!(ope::utils::be_mod(&vec![42], 1), 0);
}

#[test]
fn test_u64_dec() {
    assert_eq!(ope::utils::u64_dec(0), b"0");
    assert_eq!(ope::utils::u64_dec(12345), b"12345");
    assert_eq!(ope::utils::u64_dec(u64::MAX), b"18446744073709551615");
}

#[test]
fn test_prng_stream_is_keyed() {
    // The byte stream must be the AES keystream applied to the counter, not
    // the counter itself, and it must depend on the key.
    let mut a = BlockCipher::new(&KEY);
    let k2: OpeKey = *b"this is a key 11";
    let mut b = BlockCipher::new(&k2);
    let sa = a.rand_bytes(16);
    let sb = b.rand_bytes(16);
    let mut plain_ctr = vec![0u8; 16];
    plain_ctr[0] = 1;
    assert_ne!(sa, plain_ctr);
    assert_ne!(sa, sb);
    // Re-seeding the counter reproduces the draw only through the keystream
    // position, which has moved on.
    let mut c = BlockCipher::new(&KEY);
    assert_eq!(c.rand_bytes(16), sa);
}

#[test]
fn test_sha_known_vector() {
    // First 16 bytes of SHA-256("abc").
    let d = sha(b"abc");
    let expected: [u8; 16] = [
        0xba, 0x78, 0x16, 0xbf, 0x8f, 0x01, 0xcf, 0xea, 0x41, 0x41, 0x40, 0xde, 0x5d, 0xae,
        0x22, 0x23,
    ];
    assert_eq!(d.as_slice(), &expected);
}

#[test]
fn test_hmac_depends_on_key_and_message() {
    let k1: OpeKey = *b"this is a key 10";
    let k2: OpeKey = *b"this is a key 11";
    let a = hmac(b"0/65534/0/4294967294", &k1);
    let b = hmac(b"0/65534/0/4294967294", &k2);
    let c = hmac(b"0/65534/0/4294967295", &k1);
    assert_eq!(a.len(), 16);
    assert_ne!(a, b);
    assert_ne!(a, c);
}
