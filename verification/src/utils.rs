//! Small helpers: bit length, big-endian residues, decimal text, and thin
//! contracts over the SHA-256 and HMAC-SHA-256 primitives.

use vstd::prelude::*;

use hmac::Mac;
use sha2::Digest;

use crate::OpeKey;

verus! {

/// The first 16 bytes of the HMAC-SHA-256 tag of `msg` under `key`: a
/// function of the two arguments alone.
pub uninterp spec fn hmac16(msg: Seq<u8>, key: Seq<u8>) -> Seq<u8>;

/// The first 16 bytes of the SHA-256 digest of `msg`: a function of `msg`
/// alone.
pub uninterp spec fn sha16(msg: Seq<u8>) -> Seq<u8>;

/// Relies on `hmac::Hmac<sha2::Sha256>` (`Mac::new_from_slice`, `update`,
/// `finalize`): the first 16 bytes of the HMAC-SHA-256 tag of `v` under
/// `key`.  `new_from_slice` accepts keys of any length, so it cannot fail
/// here.
#[verifier::external_body]
pub fn hmac(v: &[u8], key: &OpeKey) -> (r: Vec<u8>)
    ensures
        r@ == hmac16(v@, key@),
        r@.len() == 16,
{
    let mut mac = <hmac::Hmac<sha2::Sha256> as Mac>::new_from_slice(key).unwrap();
    mac.update(v);
    let tag = mac.finalize().into_bytes();
    tag[..16].to_vec()
}

/// Relies on `sha2::Sha256` (`Digest::new`, `update`, `finalize`): the first
/// 16 bytes of the SHA-256 digest of `v`.
#[verifier::external_body]
pub fn sha(v: &[u8]) -> (r: Vec<u8>)
    ensures
        r@ == sha16(v@),
        r@.len() == 16,
{
    let mut hasher = sha2::Sha256::new();
    hasher.update(v);
    let digest = hasher.finalize();
    digest[..16].to_vec()
}

/// Number of bits needed to write `n` in binary; `0` for `n == 0`.
pub open spec fn nbits(n: nat) -> nat
    decreases n,
{
    if n == 0 {
        0
    } else {
        1 + nbits(n / 2)
    }
}

/// The minimum number of bits to represent `n` (0 for `n == 0`).
pub fn num_bits(n: u64) -> (r: u64)
    ensures
        r == nbits(n as nat),
        r <= 64,
{
    let mut bits: u64 = 0;
    let mut m: u64 = n;
    proof {
        lemma_nbits_le_64(n as nat);
    }
    while m > 0
        invariant
            nbits(n as nat) == bits + nbits(m as nat),
            bits + nbits(m as nat) <= 64,
        decreases m,
    {
        bits = bits + 1;
        m = m / 2;
    }
    bits
}

/// The big-endian value of a byte string: the first byte is the most
/// significant.
pub open spec fn be_val(s: Seq<u8>) -> nat
    decreases s.len(),
{
    if s.len() == 0 {
        0
    } else {
        be_val(s.drop_last()) * 256 + s.last() as nat
    }
}

/// The big-endian value of `bytes`, reduced modulo `m`.
pub fn be_mod(bytes: &Vec<u8>, m: u64) -> (r: u64)
    requires
        m >= 1,
    ensures
        r == be_val(bytes@) % (m as nat),
        r < m,
{
    let mut acc: u64 = 0;
    let mut i: usize = 0;
    proof {
        assert(bytes@.take(0int) =~= Seq::<u8>::empty());
    }
    while i < bytes.len()
        invariant
            i <= bytes@.len(),
            m >= 1,
            acc == be_val(bytes@.take(i as int)) % (m as nat),
            acc < m,
        decreases bytes@.len() - i,
    {
        let b = bytes[i];
        let next: u128 = ((acc as u128) * 256 + (b as u128)) % (m as u128);
        proof {
            let pre = bytes@.take(i as int);
            let post = bytes@.take(i + 1int);
            assert(post.drop_last() =~= pre);
            assert(post.last() == bytes@[i as int]);
            lemma_mod_step(be_val(pre) as int, b as int, m as int);
        }
        acc = next as u64;
        i = i + 1;
    }
    proof {
        assert(bytes@.take(bytes@.len() as int) =~= bytes@);
    }
    acc
}

/// Folding one more byte into a running residue keeps the residue exact:
/// `((x % m) * 256 + b) % m == (x * 256 + b) % m`.
proof fn lemma_mod_step(x: int, b: int, m: int)
    requires
        m >= 1,
        x >= 0,
        b >= 0,
    ensures
        ((x % m) * 256 + b) % m == (x * 256 + b) % m,
{
    vstd::arithmetic::div_mod::lemma_mul_mod_noop_left(x, 256, m);
    vstd::arithmetic::div_mod::lemma_add_mod_noop((x % m) * 256, b, m);
    vstd::arithmetic::div_mod::lemma_add_mod_noop(x * 256, b, m);
}

/// The ASCII decimal digits of `n`, most significant first.
pub open spec fn dec_str(n: nat) -> Seq<u8>
    decreases n,
{
    if n < 10 {
        seq![(48 + n) as u8]
    } else {
        dec_str(n / 10).push((48 + n % 10) as u8)
    }
}

/// The unpadded base-10 ASCII representation of `n`.
pub fn u64_dec(n: u64) -> (v: Vec<u8>)
    ensures
        v@ == dec_str(n as nat),
        v@.len() >= 1,
    decreases n,
{
    if n < 10 {
        let mut v: Vec<u8> = Vec::new();
        v.push(48 + n as u8);
        proof {
            assert(v@ =~= dec_str(n as nat));
        }
        v
    } else {
        let mut v = u64_dec(n / 10);
        v.push(48 + (n % 10) as u8);
        proof {
            assert(v@ =~= dec_str(n as nat));
        }
        v
    }
}

/// A 64-bit value needs at most 64 bits.
proof fn lemma_nbits_le_64(n: nat)
    requires
        n < 0x1_0000_0000_0000_0000,
    ensures
        nbits(n) <= 64,
{
    vstd::arithmetic::power2::lemma2_to64();
    lemma_nbits_bound(n, 64);
}

/// A value below `2^k` needs at most `k` bits.
proof fn lemma_nbits_bound(n: nat, k: nat)
    requires
        n < vstd::arithmetic::power2::pow2(k),
    ensures
        nbits(n) <= k,
    decreases k,
{
    if n == 0 {
    } else {
        vstd::arithmetic::power2::lemma_pow2_pos(k);
        vstd::arithmetic::power2::lemma2_to64();
        assert(k > 0);
        vstd::arithmetic::power2::lemma_pow2_unfold(k);
        lemma_nbits_bound(n / 2, (k - 1) as nat);
    }
}

} // verus!
