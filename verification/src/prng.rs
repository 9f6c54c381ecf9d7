//! Keyed deterministic byte stream: AES-128-CTR with an explicit 16-byte
//! counter that the caller can reseed.
//!
//! Before every block the counter is incremented as a little-endian integer,
//! and the incremented counter is then XORed through the cipher's keystream.
//! The bytes drawn are therefore a pure function of the key, the counter and
//! the position already consumed from the keystream, which the contracts
//! below make explicit.

use vstd::prelude::*;

use aes::cipher::KeyIvInit;
use aes::cipher::StreamCipher;

use crate::utils::be_val;
use crate::utils::nbits;
use crate::OpeKey;

verus! {

/// An AES-128-CTR stream object (zero IV), opaque to verification.
#[verifier::external_body]
pub struct AesCtrState {
    inner: ctr::Ctr64LE<aes::Aes128>,
}

/// The key a stream object was built with.
pub uninterp spec fn cipher_key(c: AesCtrState) -> Seq<u8>;

/// How many 16-byte blocks of keystream the object has already produced.
pub uninterp spec fn cipher_pos(c: AesCtrState) -> nat;

/// What `apply_keystream` returns for a 16-byte block: a function of the key,
/// the stream position and the block alone (the IV is always zero here).
pub uninterp spec fn keystream_xor(key: Seq<u8>, pos: nat, block: Seq<u8>) -> Seq<u8>;

/// Relies on `ctr::Ctr64LE::<aes::Aes128>::new` (`cipher::KeyIvInit::new`):
/// builds a fresh AES-128-CTR stream for `key` with the all-zero IV,
/// positioned at the start of its keystream.
#[verifier::external_body]
fn keystream_new(key: &OpeKey) -> (c: AesCtrState)
    ensures
        cipher_key(c) == key@,
        cipher_pos(c) == 0,
{
    AesCtrState { inner: ctr::Ctr64LE::<aes::Aes128>::new(key.into(), &[0u8; 16].into()) }
}

/// Relies on `cipher::StreamCipher::apply_keystream`: XORs one 16-byte block
/// with the next block of keystream, which is determined by the key, the zero
/// IV and the current stream position, and advances the stream by one block.
#[verifier::external_body]
fn keystream_apply(c: &mut AesCtrState, block: Vec<u8>) -> (r: Vec<u8>)
    requires
        block@.len() == 16,
    ensures
        cipher_key(*final(c)) == cipher_key(*old(c)),
        cipher_pos(*final(c)) == cipher_pos(*old(c)) + 1,
        r@ == keystream_xor(cipher_key(*old(c)), cipher_pos(*old(c)), block@),
        r@.len() == 16,
{
    let mut b = block;
    c.inner.apply_keystream(&mut b);
    b
}

/// The all-zero 16-byte counter.
pub open spec fn zero16() -> Seq<u8> {
    Seq::new(16, |i: int| 0u8)
}

/// A 16-byte counter incremented by one as a little-endian integer: the first
/// byte is least significant and a carry propagates upward, wrapping at the
/// end.
pub open spec fn inc1(c: Seq<u8>) -> Seq<u8>
    decreases c.len(),
{
    if c.len() == 0 {
        c
    } else if c.first() == 255u8 {
        seq![0u8] + inc1(c.drop_first())
    } else {
        seq![(c.first() + 1) as u8] + c.drop_first()
    }
}

/// `n` increments in a row.
pub open spec fn inc_n(c: Seq<u8>, n: nat) -> Seq<u8>
    decreases n,
{
    if n == 0 {
        c
    } else {
        inc_n(inc1(c), (n - 1) as nat)
    }
}

/// Incrementing keeps the counter's length.
pub proof fn lemma_inc1_len(c: Seq<u8>)
    ensures
        inc1(c).len() == c.len(),
    decreases c.len(),
{
    if c.len() != 0 && c.first() == 255u8 {
        lemma_inc1_len(c.drop_first());
    }
}

/// An increment appended after `n` increments is `n + 1` increments.
pub proof fn lemma_inc_n_snoc(c: Seq<u8>, n: nat)
    ensures
        inc_n(c, n + 1) == inc1(inc_n(c, n)),
    decreases n,
{
    assert(inc_n(c, n + 1) == inc_n(inc1(c), n));
    if n > 0 {
        lemma_inc_n_snoc(inc1(c), (n - 1) as nat);
        assert(inc_n(c, n) == inc_n(inc1(c), (n - 1) as nat));
    }
}

/// The block of output produced at position `pos` when the counter was `c`
/// before the draw: `c` is first incremented, then XORed with the keystream.
/// Written as a 16-element sequence so lengths are known.
pub open spec fn block16(key: Seq<u8>, c: Seq<u8>, pos: nat) -> Seq<u8> {
    Seq::new(16, |i: int| keystream_xor(key, pos, inc1(c))[i])
}

/// How many whole 16-byte blocks cover `nbytes` bytes.
pub open spec fn nblocks_for(nbytes: nat) -> nat {
    (nbytes + 15) / 16
}

/// The first `n` bytes drawn from state `(key, c, pos)`.
pub open spec fn stream_bytes(key: Seq<u8>, c: Seq<u8>, pos: nat, n: nat) -> Seq<u8>
    decreases n,
{
    if n == 0 {
        Seq::empty()
    } else if n <= 16 {
        block16(key, c, pos).take(n as int)
    } else {
        block16(key, c, pos) + stream_bytes(key, inc1(c), pos + 1, (n - 16) as nat)
    }
}

/// Extending a whole number of blocks by one more (possibly partial) block.
proof fn lemma_stream_snoc(key: Seq<u8>, c: Seq<u8>, pos: nat, i: nat, n: nat)
    requires
        i % 16 == 0,
        0 < n <= 16,
    ensures
        stream_bytes(key, c, pos, i + n) == stream_bytes(key, c, pos, i) + block16(
            key,
            inc_n(c, i / 16),
            pos + i / 16,
        ).take(n as int),
    decreases i,
{
    if i == 0 {
        assert(stream_bytes(key, c, pos, n) =~= stream_bytes(key, c, pos, 0) + block16(
            key,
            inc_n(c, 0),
            pos,
        ).take(n as int));
    } else {
        lemma_stream_snoc(key, inc1(c), pos + 1, (i - 16) as nat, n);
        assert(inc_n(c, i / 16) == inc_n(inc1(c), (i - 16) as nat / 16));
        assert(stream_bytes(key, c, pos, i + n) =~= stream_bytes(key, c, pos, i) + block16(
            key,
            inc_n(c, i / 16),
            pos + i / 16,
        ).take(n as int));
    }
}

/// Deterministic PRNG: a keyed AES-CTR stream plus an explicit counter.
pub struct BlockCipher {
    ctr: Vec<u8>,
    state: AesCtrState,
}

impl BlockCipher {
    /// The counter always holds exactly 16 bytes.
    pub closed spec fn wf(&self) -> bool {
        self.ctr@.len() == 16
    }

    /// The key this stream was built with.
    pub closed spec fn key(&self) -> Seq<u8> {
        cipher_key(self.state)
    }

    /// Blocks of keystream consumed so far.
    pub closed spec fn pos(&self) -> nat {
        cipher_pos(self.state)
    }

    /// The current 16-byte counter.
    pub closed spec fn counter(&self) -> Seq<u8> {
        self.ctr@
    }

    /// A fresh stream for `key`: zero IV, zero counter, position zero.
    pub fn new(key: &OpeKey) -> (c: BlockCipher)
        ensures
            c.wf(),
            c.key() == key@,
            c.pos() == 0,
            c.counter() == zero16(),
    {
        let mut v: Vec<u8> = Vec::new();
        let mut i: usize = 0;
        while i < 16
            invariant
                i <= 16,
                v@ =~= Seq::new(i as nat, |j: int| 0u8),
            decreases 16 - i,
        {
            v.push(0);
            i = i + 1;
        }
        proof {
            assert(v@ =~= zero16());
        }
        BlockCipher { ctr: v, state: keystream_new(key) }
    }

    /// Overwrite the counter (seed injection); the keystream position is kept.
    pub fn set_ctr(&mut self, v: Vec<u8>)
        requires
            old(self).wf(),
            v@.len() == 16,
        ensures
            final(self).wf(),
            final(self).key() == old(self).key(),
            final(self).pos() == old(self).pos(),
            final(self).counter() == v@,
    {
        self.ctr = v;
    }

    /// Draw `n` bytes: per block, increment the counter, XOR it through the
    /// keystream, and copy the needed prefix out.
    pub fn rand_bytes(&mut self, n: usize) -> (buf: Vec<u8>)
        requires
            old(self).wf(),
        ensures
            final(self).wf(),
            final(self).key() == old(self).key(),
            buf@.len() == n,
            buf@ == stream_bytes(old(self).key(), old(self).counter(), old(self).pos(), n as nat),
            final(self).counter() == inc_n(old(self).counter(), nblocks_for(n as nat)),
            final(self).pos() == old(self).pos() + nblocks_for(n as nat),
    {
        let ghost key0 = old(self).key();
        let ghost ctr0 = old(self).counter();
        let ghost pos0 = old(self).pos();
        let mut buf: Vec<u8> = Vec::new();
        let mut i: usize = 0;
        while i < n
            invariant
                self.wf(),
                self.key() == key0,
                i <= n,
                i % 16 == 0 || i == n,
                buf@.len() == i,
                buf@ == stream_bytes(key0, ctr0, pos0, i as nat),
                self.counter() == inc_n(ctr0, (i as nat + 15) / 16),
                self.pos() == pos0 + (i as nat + 15) / 16,
            decreases n - i,
        {
            let ct = self.next_block();
            let copy_len: usize = if n - i < 16 {
                n - i
            } else {
                16
            };
            proof {
                lemma_stream_snoc(key0, ctr0, pos0, i as nat, copy_len as nat);
                assert(ct@ =~= block16(key0, inc_n(ctr0, i as nat / 16), pos0 + i as nat / 16));
            }
            let mut j: usize = 0;
            while j < copy_len
                invariant
                    j <= copy_len <= ct@.len() == 16,
                    buf@ =~= stream_bytes(key0, ctr0, pos0, i as nat) + ct@.take(j as int),
                decreases copy_len - j,
            {
                buf.push(ct[j]);
                j = j + 1;
            }
            i = i + copy_len;
            proof {
                assert((i as nat + 15) / 16 == (i - copy_len) as nat / 16 + 1);
                lemma_inc_n_snoc(ctr0, (i - copy_len) as nat / 16);
            }
        }
        buf
    }

    /// Increment the counter and run it through one block of keystream.
    fn next_block(&mut self) -> (ct: Vec<u8>)
        requires
            old(self).wf(),
        ensures
            final(self).wf(),
            final(self).key() == old(self).key(),
            final(self).counter() == inc1(old(self).counter()),
            final(self).pos() == old(self).pos() + 1,
            ct@ == keystream_xor(old(self).key(), old(self).pos(), inc1(old(self).counter())),
            ct@.len() == 16,
    {
        let next = ctr_inc(&self.ctr);
        proof {
            lemma_inc1_len(old(self).counter());
        }
        self.ctr = next;
        let mut ct: Vec<u8> = Vec::new();
        let mut j: usize = 0;
        while j < 16
            invariant
                j <= 16,
                self.ctr@.len() == 16,
                ct@ =~= self.ctr@.take(j as int),
            decreases 16 - j,
        {
            ct.push(self.ctr[j]);
            j = j + 1;
        }
        proof {
            assert(ct@ =~= self.ctr@);
        }
        keystream_apply(&mut self.state, ct)
    }

    /// A uniform-ish integer in `[0, max)`: draw `num_bits(max)` bytes, decode
    /// big-endian, reduce modulo `max`.  The modulo bias is accepted behavior.
    pub fn rand_int_mod(&mut self, max: u64) -> (r: u64)
        requires
            old(self).wf(),
            max >= 1,
        ensures
            final(self).wf(),
            final(self).key() == old(self).key(),
            r == spec_rand_int_mod(old(self).key(), old(self).counter(), old(self).pos(), max as nat),
            r < max,
            final(self).counter() == inc_n(old(self).counter(), nblocks_for(nbits(max as nat))),
            final(self).pos() == old(self).pos() + nblocks_for(nbits(max as nat)),
    {
        let nbytes = crate::utils::num_bits(max);
        let buf = self.rand_bytes(nbytes as usize);
        crate::utils::be_mod(&buf, max)
    }
}

/// What `rand_int_mod(max)` returns from state `(key, c, pos)`.
pub open spec fn spec_rand_int_mod(key: Seq<u8>, c: Seq<u8>, pos: nat, max: nat) -> nat {
    be_val(stream_bytes(key, c, pos, nbits(max))) % max
}

/// The counter after one little-endian increment, built functionally.
fn ctr_inc(v: &Vec<u8>) -> (r: Vec<u8>)
    ensures
        r@ == inc1(v@),
{
    proof {
        assert(v@.skip(0) =~= v@);
    }
    ctr_inc_from(v, 0)
}

/// `inc1` of the tail of `v` starting at `i`.
fn ctr_inc_from(v: &Vec<u8>, i: usize) -> (r: Vec<u8>)
    requires
        i <= v@.len(),
    ensures
        r@ == inc1(v@.skip(i as int)),
    decreases v@.len() - i,
{
    let n = v.len();
    if i == n {
        let r: Vec<u8> = Vec::new();
        proof {
            assert(r@ =~= inc1(v@.skip(i as int)));
        }
        r
    } else if v[i] == 255 {
        let mut r: Vec<u8> = Vec::new();
        r.push(0);
        let mut rest = ctr_inc_from(v, i + 1);
        r.append(&mut rest);
        proof {
            assert(v@.skip(i as int).drop_first() =~= v@.skip(i + 1));
            assert(r@ =~= inc1(v@.skip(i as int)));
        }
        r
    } else {
        let mut r: Vec<u8> = Vec::new();
        r.push(v[i] + 1);
        let mut j: usize = i + 1;
        while j < n
            invariant
                i < j <= n == v@.len(),
                v@[i as int] != 255,
                r@ =~= seq![(v@[i as int] + 1) as u8] + v@.subrange(i + 1, j as int),
            decreases n - j,
        {
            r.push(v[j]);
            j = j + 1;
        }
        proof {
            assert(v@.subrange(i + 1, n as int) =~= v@.skip(i as int).drop_first());
            assert(r@ =~= inc1(v@.skip(i as int)));
        }
        r
    }
}

} // verus!
