//! Order-preserving encryption over integer domains.
//!
//! An [`Ope`] instance deterministically maps plaintexts from `[0, D]` into
//! ciphertexts in `[0, R]` (with `R > D`) so that the order of plaintexts is
//! the order of their ciphertexts.  The mapping is driven by a keyed
//! AES-128-CTR stream, so equal keys give equal mappings.

use vstd::prelude::*;

pub mod hgd;
pub mod ope;
pub mod prng;
pub mod utils;

use crate::ope::Ope;

verus! {

/// Keys are exactly this many bytes: one AES-128 block.
pub const BLOCK_SIZE: usize = 16;

/// A 16-byte secret key, borrowed by an [`Ope`] instance for its lifetime.
pub type OpeKey = [u8; BLOCK_SIZE];

/// Default plaintext domain upper bound.
pub const DOMAIN: u64 = 65534;

/// Default ciphertext range upper bound.
pub const RANGE: u64 = 4294967294;

/// An instance over the default profile: domain `[0, 2^16 - 2]`, range
/// `[0, 2^32 - 2]`.
pub fn get_ope(key: &OpeKey) -> (s: Ope<'_>)
    ensures
        s.key@ == key@,
        s.d == DOMAIN,
        s.r == RANGE,
{
    Ope::new(key, DOMAIN, RANGE)
}

/// Errors reported by the sampler and by encryption.
#[derive(Debug, Clone, Copy, PartialEq, Eq, Structural)]
pub enum OpeError {
    /// The hypergeometric sampler was asked to draw more elements than the urn holds.
    HdgInvalidInputs,
    /// The configured ciphertext range is not strictly larger than the plaintext domain.
    OpeRange,
}

} // verus!
