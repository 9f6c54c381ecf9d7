//! The lazy order-preserving sampler.
//!
//! `encrypt` and `decrypt` descend a virtual binary tree whose root spans the
//! whole domain `[0, d]` and range `[0, r]`.  At each node a PRNG counter is
//! reseeded from `HMAC(key, "<d_lo>/<d_hi>/<r_lo>/<r_hi>")`, the range is cut
//! in half, and a hypergeometric draw decides how many domain points fall
//! into the lower half.  A leaf pairs one domain point with one range
//! interval; `encrypt` places the plaintext uniformly in its interval (seeded
//! from the plaintext's digest), `decrypt` walks the same tree by range and
//! reads the domain point back.  The whole descent is a pure function of the
//! key and the query, which is what the contracts below say.

use vstd::prelude::*;

use crate::hgd::hgd;
use crate::hgd::hgd_blocks;
use crate::hgd::hgd_hi;
use crate::hgd::hgd_lo;
use crate::hgd::hgd_val;
use crate::prng::spec_rand_int_mod;
use crate::prng::BlockCipher;
use crate::utils::dec_str;
use crate::utils::hmac;
use crate::utils::hmac16;
use crate::utils::sha;
use crate::utils::sha16;
use crate::utils::u64_dec;
use crate::OpeError;
use crate::OpeKey;

verus! {

/// A leaf of the sampling tree: the unique domain point `d` and the closed
/// range interval `[r_lo, r_hi]` assigned to it.
pub struct OpeDomainRange {
    pub d: u64,
    pub r_lo: u64,
    pub r_hi: u64,
}

impl OpeDomainRange {
    /// Pack a leaf cell.
    pub fn new(d: u64, r_lo: u64, r_hi: u64) -> (s: Self)
        ensures
            s.d == d,
            s.r_lo == r_lo,
            s.r_hi == r_hi,
    {
        Self { d, r_lo, r_hi }
    }
}

/// The canonical per-node seed string `"<d_lo>/<d_hi>/<r_lo>/<r_hi>"`,
/// unpadded base-10 ASCII joined by `'/'`.
pub open spec fn seed_str(d_lo: nat, d_hi: nat, r_lo: nat, r_hi: nat) -> Seq<u8> {
    dec_str(d_lo) + seq![47u8] + dec_str(d_hi) + seq![47u8] + dec_str(r_lo) + seq![47u8]
        + dec_str(r_hi)
}

/// Build the seed string for a node.
fn seed_bytes(d_lo: u64, d_hi: u64, r_lo: u64, r_hi: u64) -> (s: Vec<u8>)
    ensures
        s@ == seed_str(d_lo as nat, d_hi as nat, r_lo as nat, r_hi as nat),
{
    let mut s = u64_dec(d_lo);
    s.push(47);
    let mut t = u64_dec(d_hi);
    s.append(&mut t);
    s.push(47);
    let mut t2 = u64_dec(r_lo);
    s.append(&mut t2);
    s.push(47);
    let mut t3 = u64_dec(r_hi);
    s.append(&mut t3);
    proof {
        assert(s@ =~= seed_str(d_lo as nat, d_hi as nat, r_lo as nat, r_hi as nat));
    }
    s
}

/// The hypergeometric draw made at a node, with the PRNG counter seeded from
/// the node's HMAC string and the keystream at block position `pos`.
pub open spec fn node_gap(key: Seq<u8>, d_lo: int, d_hi: int, r_lo: int, r_hi: int, pos: nat) -> int {
    let ndomain = d_hi - d_lo + 1;
    let nrange = r_hi - r_lo + 1;
    let rgap = nrange / 2;
    hgd_val(
        rgap,
        ndomain,
        nrange - ndomain,
        key,
        hmac16(seed_str(d_lo as nat, d_hi as nat, r_lo as nat, r_hi as nat), key),
        pos,
    )
}

/// How many keystream blocks the draw at a node consumes.
pub open spec fn node_blocks(d_lo: int, d_hi: int, r_lo: int, r_hi: int) -> nat {
    let ndomain = d_hi - d_lo + 1;
    let nrange = r_hi - r_lo + 1;
    let rgap = nrange / 2;
    hgd_blocks(rgap, ndomain, nrange - ndomain)
}

/// The leaf cell reached from a node for query `q`.  A domain query
/// (`by_range == false`) is compared against domain boundaries, a range
/// query against range boundaries; both follow the same draws, so an
/// encrypt descent and the decrypt descent of one of its ciphertexts walk
/// the same path.  `None` records a range too small for its domain.
pub open spec fn spec_cell(
    key: Seq<u8>,
    d_lo: int,
    d_hi: int,
    r_lo: int,
    r_hi: int,
    pos: nat,
    q: int,
    by_range: bool,
) -> Option<(int, int, int)>
    decreases r_hi - r_lo,
{
    let ndomain = d_hi - d_lo + 1;
    let nrange = r_hi - r_lo + 1;
    if nrange < ndomain || d_lo > d_hi || r_lo > r_hi {
        None
    } else if ndomain == 1 {
        Some((d_lo, r_lo, r_hi))
    } else {
        let rgap = nrange / 2;
        let gap = node_gap(key, d_lo, d_hi, r_lo, r_hi, pos);
        let used = node_blocks(d_lo, d_hi, r_lo, r_hi);
        let go_left = if by_range {
            if gap == 0 {
                false
            } else if gap == ndomain {
                true
            } else {
                q < r_lo + rgap
            }
        } else {
            q < d_lo + gap
        };
        if go_left {
            spec_cell(key, d_lo, d_lo + gap - 1, r_lo, r_lo + rgap - 1, pos + used, q, by_range)
        } else {
            spec_cell(key, d_lo + gap, d_hi, r_lo + rgap, r_hi, pos + used, q, by_range)
        }
    }
}

/// From a well-formed node the descent always reaches a leaf, the leaf's
/// range interval sits inside the node's, and a domain query is answered by
/// its own domain point.
pub proof fn lemma_cell_some(
    key: Seq<u8>,
    d_lo: int,
    d_hi: int,
    r_lo: int,
    r_hi: int,
    pos: nat,
    q: int,
    by_range: bool,
)
    requires
        0 <= d_lo <= d_hi,
        0 <= r_lo <= r_hi,
        d_hi - d_lo <= r_hi - r_lo,
        !by_range ==> d_lo <= q <= d_hi,
    ensures
        spec_cell(key, d_lo, d_hi, r_lo, r_hi, pos, q, by_range) is Some,
        ({
            let cell = spec_cell(key, d_lo, d_hi, r_lo, r_hi, pos, q, by_range)->Some_0;
            &&& d_lo <= cell.0 <= d_hi
            &&& r_lo <= cell.1 <= cell.2 <= r_hi
            &&& (!by_range ==> cell.0 == q)
        }),
    decreases r_hi - r_lo,
{
    let ndomain = d_hi - d_lo + 1;
    let nrange = r_hi - r_lo + 1;
    if ndomain == 1 {
    } else {
        let rgap = nrange / 2;
        let gap = node_gap(key, d_lo, d_hi, r_lo, r_hi, pos);
        let used = node_blocks(d_lo, d_hi, r_lo, r_hi);
        crate::hgd::lemma_hgd_val_range(
            rgap,
            ndomain,
            nrange - ndomain,
            key,
            hmac16(seed_str(d_lo as nat, d_hi as nat, r_lo as nat, r_hi as nat), key),
            pos,
        );
        assert(hgd_lo(rgap, nrange - ndomain) <= gap <= hgd_hi(rgap, ndomain));
        let go_left = if by_range {
            if gap == 0 {
                false
            } else if gap == ndomain {
                true
            } else {
                q < r_lo + rgap
            }
        } else {
            q < d_lo + gap
        };
        if go_left {
            lemma_cell_some(key, d_lo, d_lo + gap - 1, r_lo, r_lo + rgap - 1, pos + used, q, by_range);
        } else {
            lemma_cell_some(key, d_lo + gap, d_hi, r_lo + rgap, r_hi, pos + used, q, by_range);
        }
    }
}

/// Two domain queries in order get leaf intervals in order: everything of
/// the smaller query's interval lies strictly below the larger query's.
pub proof fn lemma_cells_ordered(
    key: Seq<u8>,
    d_lo: int,
    d_hi: int,
    r_lo: int,
    r_hi: int,
    pos: nat,
    x: int,
    y: int,
)
    requires
        0 <= d_lo <= d_hi,
        0 <= r_lo <= r_hi,
        d_hi - d_lo <= r_hi - r_lo,
        d_lo <= x < y <= d_hi,
    ensures
        spec_cell(key, d_lo, d_hi, r_lo, r_hi, pos, x, false)->Some_0.2 < spec_cell(
            key,
            d_lo,
            d_hi,
            r_lo,
            r_hi,
            pos,
            y,
            false,
        )->Some_0.1,
    decreases r_hi - r_lo,
{
    let ndomain = d_hi - d_lo + 1;
    let nrange = r_hi - r_lo + 1;
    let rgap = nrange / 2;
    let gap = node_gap(key, d_lo, d_hi, r_lo, r_hi, pos);
    let used = node_blocks(d_lo, d_hi, r_lo, r_hi);
    crate::hgd::lemma_hgd_val_range(
        rgap,
        ndomain,
        nrange - ndomain,
        key,
        hmac16(seed_str(d_lo as nat, d_hi as nat, r_lo as nat, r_hi as nat), key),
        pos,
    );
    if y < d_lo + gap {
        lemma_cells_ordered(key, d_lo, d_lo + gap - 1, r_lo, r_lo + rgap - 1, pos + used, x, y);
    } else if x >= d_lo + gap {
        lemma_cells_ordered(key, d_lo + gap, d_hi, r_lo + rgap, r_hi, pos + used, x, y);
    } else {
        lemma_cell_some(key, d_lo, d_lo + gap - 1, r_lo, r_lo + rgap - 1, pos + used, x, false);
        lemma_cell_some(key, d_lo + gap, d_hi, r_lo + rgap, r_hi, pos + used, y, false);
    }
}

/// A decrypt descent for any point of a plaintext's leaf interval follows
/// the plaintext's own path and lands on the same leaf.
pub proof fn lemma_cell_tracks(
    key: Seq<u8>,
    d_lo: int,
    d_hi: int,
    r_lo: int,
    r_hi: int,
    pos: nat,
    x: int,
    c: int,
)
    requires
        0 <= d_lo <= d_hi,
        0 <= r_lo <= r_hi,
        d_hi - d_lo <= r_hi - r_lo,
        d_lo <= x <= d_hi,
        spec_cell(key, d_lo, d_hi, r_lo, r_hi, pos, x, false)->Some_0.1 <= c <= spec_cell(
            key,
            d_lo,
            d_hi,
            r_lo,
            r_hi,
            pos,
            x,
            false,
        )->Some_0.2,
    ensures
        spec_cell(key, d_lo, d_hi, r_lo, r_hi, pos, c, true) == spec_cell(
            key,
            d_lo,
            d_hi,
            r_lo,
            r_hi,
            pos,
            x,
            false,
        ),
    decreases r_hi - r_lo,
{
    let ndomain = d_hi - d_lo + 1;
    let nrange = r_hi - r_lo + 1;
    lemma_cell_some(key, d_lo, d_hi, r_lo, r_hi, pos, x, false);
    if ndomain == 1 {
    } else {
        let rgap = nrange / 2;
        let gap = node_gap(key, d_lo, d_hi, r_lo, r_hi, pos);
        let used = node_blocks(d_lo, d_hi, r_lo, r_hi);
        crate::hgd::lemma_hgd_val_range(
            rgap,
            ndomain,
            nrange - ndomain,
            key,
            hmac16(seed_str(d_lo as nat, d_hi as nat, r_lo as nat, r_hi as nat), key),
            pos,
        );
        if x < d_lo + gap {
            lemma_cell_some(key, d_lo, d_lo + gap - 1, r_lo, r_lo + rgap - 1, pos + used, x, false);
            assert(c < r_lo + rgap);
            lemma_cell_tracks(key, d_lo, d_lo + gap - 1, r_lo, r_lo + rgap - 1, pos + used, x, c);
        } else {
            lemma_cell_some(key, d_lo + gap, d_hi, r_lo + rgap, r_hi, pos + used, x, false);
            assert(c >= r_lo + rgap);
            assert(gap <= ndomain - 1);
            lemma_cell_tracks(key, d_lo + gap, d_hi, r_lo + rgap, r_hi, pos + used, x, c);
        }
    }
}

/// Forward the node parameters to the hypergeometric sampler: `rgap` draws
/// from `ndomain` white and `nrange - ndomain` black balls.
pub fn domain_gap(ndomain: u64, nrange: u64, rgap: u64, prng: &mut BlockCipher) -> (res: Result<
    u64,
    OpeError,
>)
    requires
        old(prng).wf(),
        ndomain <= nrange,
        rgap <= nrange,
        (rgap as int) + (nrange as int) < 0x8000_0000_0000_0000,
    ensures
        final(prng).wf(),
        final(prng).key() == old(prng).key(),
        res is Ok,
        res matches Ok(v) ==> {
            &&& v as int == hgd_val(
                rgap as int,
                ndomain as int,
                (nrange - ndomain) as int,
                old(prng).key(),
                old(prng).counter(),
                old(prng).pos(),
            )
            &&& hgd_lo(rgap as int, (nrange - ndomain) as int) <= v as int <= hgd_hi(
                rgap as int,
                ndomain as int,
            )
            &&& final(prng).counter() == crate::prng::inc_n(
                old(prng).counter(),
                hgd_blocks(rgap as int, ndomain as int, (nrange - ndomain) as int),
            )
            &&& final(prng).pos() == old(prng).pos() + hgd_blocks(
                rgap as int,
                ndomain as int,
                (nrange - ndomain) as int,
            )
        },
{
    let res = hgd(rgap, ndomain, nrange - ndomain, prng);
    proof {
        assert(!(rgap as int > ndomain as int + (nrange - ndomain) as int));
    }
    res
}

/// An order-preserving encryption instance: a borrowed 16-byte key, the
/// domain upper bound `d` and the range upper bound `r` (both inclusive).
pub struct Ope<'a> {
    pub key: &'a OpeKey,
    pub d: u64,
    pub r: u64,
}

/// The leaf cell for a query against the full tree, after clamping the query
/// to its coordinate space; `None` exactly when the range is not strictly
/// larger than the domain.
pub open spec fn spec_search(key: Seq<u8>, d: int, r: int, q: int, by_range: bool) -> Option<
    (int, int, int),
> {
    if r <= d {
        None
    } else {
        let bound = if by_range {
            r
        } else {
            d
        };
        let qc = if q > bound {
            bound
        } else {
            q
        };
        spec_cell(key, 0, d, 0, r, 0, qc, by_range)
    }
}

/// The ciphertext for plaintext `x`: the low end of `x`'s leaf interval plus
/// a uniform offset seeded from SHA-256 of `x`'s decimal text.  Meaningful
/// when `0 <= d < r`.
pub open spec fn spec_encrypt(key: Seq<u8>, d: int, r: int, x: int) -> int {
    let cell = spec_search(key, d, r, x, false)->Some_0;
    let nrange = cell.2 - cell.1 + 1;
    cell.1 + spec_rand_int_mod(key, sha16(dec_str(x as nat)), 0, nrange as nat)
}

/// The plaintext for ciphertext `c`: the domain point of the leaf whose
/// range interval the descent by range assigns to `c`.
pub open spec fn spec_decrypt(key: Seq<u8>, d: int, r: int, c: int) -> int {
    spec_search(key, d, r, c, true)->Some_0.0
}

impl<'a> Ope<'a> {
    /// A new instance over domain `[0, domain_upper]` and range
    /// `[0, range_upper]`.  Construction always succeeds; a range that is
    /// not strictly larger than the domain makes every later call fail.
    pub fn new(key: &'a OpeKey, domain_upper: u64, range_upper: u64) -> (s: Self)
        ensures
            s.key@ == key@,
            s.d == domain_upper,
            s.r == range_upper,
    {
        Self { key, d: domain_upper, r: range_upper }
    }

    /// Descend from a node to its leaf for `query`.
    fn lazy_sample(
        &self,
        d_lo: u64,
        d_hi: u64,
        r_lo: u64,
        r_hi: u64,
        query: u64,
        by_range: bool,
        prng: &mut BlockCipher,
    ) -> (res: Result<OpeDomainRange, OpeError>)
        requires
            old(prng).wf(),
            old(prng).key() == self.key@,
            d_lo <= d_hi,
            r_lo <= r_hi,
            r_hi < 0x4000_0000_0000_0000,
            d_hi < 0x4000_0000_0000_0000,
            !by_range ==> d_lo <= query <= d_hi,
        ensures
            final(prng).wf(),
            final(prng).key() == old(prng).key(),
            res is Ok <==> spec_cell(
                self.key@,
                d_lo as int,
                d_hi as int,
                r_lo as int,
                r_hi as int,
                old(prng).pos(),
                query as int,
                by_range,
            ) is Some,
            res matches Ok(c) ==> spec_cell(
                self.key@,
                d_lo as int,
                d_hi as int,
                r_lo as int,
                r_hi as int,
                old(prng).pos(),
                query as int,
                by_range,
            ) == Some((c.d as int, c.r_lo as int, c.r_hi as int)),
            res is Err ==> res == Err::<OpeDomainRange, OpeError>(OpeError::OpeRange),
        decreases r_hi - r_lo,
    {
        let ndomain = d_hi - d_lo + 1;
        let nrange = r_hi - r_lo + 1;
        if nrange < ndomain {
            return Err(OpeError::OpeRange);
        }
        if ndomain == 1 {
            return Ok(OpeDomainRange::new(d_lo, r_lo, r_hi));
        }
        let s = seed_bytes(d_lo, d_hi, r_lo, r_hi);
        let v = hmac(s.as_slice(), self.key);
        prng.set_ctr(v);
        let rgap = nrange / 2;
        let dgap = match domain_gap(ndomain, nrange, rgap, prng) {
            Ok(g) => g,
            Err(e) => {
                return Err(e);
            },
        };
        let ghost gap = node_gap(
            self.key@,
            d_lo as int,
            d_hi as int,
            r_lo as int,
            r_hi as int,
            old(prng).pos(),
        );
        proof {
            assert(dgap as int == gap);
            assert(prng.pos() == old(prng).pos() + node_blocks(
                d_lo as int,
                d_hi as int,
                r_lo as int,
                r_hi as int,
            ));
        }
        let go_left: bool = if by_range {
            if dgap == 0 {
                false
            } else if dgap == ndomain {
                true
            } else {
                query < r_lo + rgap
            }
        } else {
            query < d_lo + dgap
        };
        if go_left {
            self.lazy_sample(d_lo, d_lo + dgap - 1, r_lo, r_lo + rgap - 1, query, by_range, prng)
        } else {
            self.lazy_sample(d_lo + dgap, d_hi, r_lo + rgap, r_hi, query, by_range, prng)
        }
    }

    /// Find the leaf cell for `query`, clamped to its coordinate space.
    fn search(&self, query: u64, by_range: bool) -> (res: Result<OpeDomainRange, OpeError>)
        requires
            self.r < 0x4000_0000_0000_0000,
            self.d < 0x4000_0000_0000_0000,
        ensures
            res is Ok <==> self.d < self.r,
            res matches Ok(c) ==> spec_search(
                self.key@,
                self.d as int,
                self.r as int,
                query as int,
                by_range,
            ) == Some((c.d as int, c.r_lo as int, c.r_hi as int)),
            res is Err ==> res == Err::<OpeDomainRange, OpeError>(OpeError::OpeRange),
    {
        if self.r <= self.d {
            return Err(OpeError::OpeRange);
        }
        let bound: u64 = if by_range {
            self.r
        } else {
            self.d
        };
        let q: u64 = if query > bound {
            bound
        } else {
            query
        };
        let mut prng = BlockCipher::new(self.key);
        proof {
            lemma_cell_some(
                self.key@,
                0,
                self.d as int,
                0,
                self.r as int,
                0,
                q as int,
                by_range,
            );
        }
        self.lazy_sample(0, self.d, 0, self.r, q, by_range, &mut prng)
    }

    /// Encrypt `ptext`.  Fails with `OpeRange` exactly when the configured
    /// range is not strictly larger than the domain; otherwise the ciphertext
    /// is a pure function of the key, the parameters and the plaintext, and
    /// lies within the plaintext's leaf interval (so within `[0, r]`).  A
    /// plaintext above the domain is the caller's responsibility: it is
    /// mapped through the last leaf.
    pub fn encrypt(&self, ptext: u64) -> (res: Result<u64, OpeError>)
        requires
            self.r < 0x4000_0000_0000_0000,
            self.d < 0x4000_0000_0000_0000,
        ensures
            res is Ok <==> self.d < self.r,
            res is Err ==> res == Err::<u64, OpeError>(OpeError::OpeRange),
            res matches Ok(c) ==> c as int == spec_encrypt(
                self.key@,
                self.d as int,
                self.r as int,
                ptext as int,
            ) && c <= self.r,
    {
        let dr = match self.search(ptext, false) {
            Ok(dr) => dr,
            Err(e) => {
                return Err(e);
            },
        };
        proof {
            lemma_cell_some(
                self.key@,
                0,
                self.d as int,
                0,
                self.r as int,
                0,
                if ptext > self.d {
                    self.d as int
                } else {
                    ptext as int
                },
                false,
            );
        }
        let pv = u64_dec(ptext);
        let v = sha(pv.as_slice());
        let mut aesrand = BlockCipher::new(self.key);
        aesrand.set_ctr(v);
        let nrange = dr.r_hi - dr.r_lo + 1;
        let off = aesrand.rand_int_mod(nrange);
        Ok(dr.r_lo + off)
    }

    /// Decrypt `ctext`.  Fails with `OpeRange` exactly when the configured
    /// range is not strictly larger than the domain; otherwise returns the
    /// domain point of the leaf whose interval holds `ctext` (a ciphertext
    /// above the range is clamped: caller's responsibility).
    pub fn decrypt(&self, ctext: u64) -> (res: Result<u64, OpeError>)
        requires
            self.r < 0x4000_0000_0000_0000,
            self.d < 0x4000_0000_0000_0000,
        ensures
            res is Ok <==> self.d < self.r,
            res is Err ==> res == Err::<u64, OpeError>(OpeError::OpeRange),
            res matches Ok(p) ==> p as int == spec_decrypt(
                self.key@,
                self.d as int,
                self.r as int,
                ctext as int,
            ),
    {
        let dr = match self.search(ctext, true) {
            Ok(dr) => dr,
            Err(e) => {
                return Err(e);
            },
        };
        Ok(dr.d)
    }
}

/// Order preservation: for plaintexts `x < y` in the domain, the ciphertext
/// of `x` is strictly below the ciphertext of `y`.
pub proof fn lemma_encrypt_order(key: Seq<u8>, d: int, r: int, x: int, y: int)
    requires
        0 <= x < y <= d < r,
    ensures
        spec_encrypt(key, d, r, x) < spec_encrypt(key, d, r, y),
{
    lemma_cells_ordered(key, 0, d, 0, r, 0, x, y);
    lemma_cell_some(key, 0, d, 0, r, 0, x, false);
    lemma_cell_some(key, 0, d, 0, r, 0, y, false);
    let cx = spec_cell(key, 0, d, 0, r, 0, x, false)->Some_0;
    let cy = spec_cell(key, 0, d, 0, r, 0, y, false)->Some_0;
    let nx = (cx.2 - cx.1 + 1) as nat;
    let ny = (cy.2 - cy.1 + 1) as nat;
    assert(spec_rand_int_mod(key, sha16(dec_str(x as nat)), 0, nx) < nx) by {
        vstd::arithmetic::div_mod::lemma_mod_division_less_than_divisor(
            crate::utils::be_val(
                crate::prng::stream_bytes(
                    key,
                    sha16(dec_str(x as nat)),
                    0,
                    crate::utils::nbits(nx),
                ),
            ) as int,
            nx as int,
        );
    }
}

/// Round trip: decrypting the ciphertext of any domain plaintext gives the
/// plaintext back.
pub proof fn lemma_round_trip(key: Seq<u8>, d: int, r: int, x: int)
    requires
        0 <= x <= d < r,
    ensures
        spec_decrypt(key, d, r, spec_encrypt(key, d, r, x)) == x,
{
    lemma_cell_some(key, 0, d, 0, r, 0, x, false);
    let cell = spec_cell(key, 0, d, 0, r, 0, x, false)->Some_0;
    let n = (cell.2 - cell.1 + 1) as nat;
    let off = spec_rand_int_mod(key, sha16(dec_str(x as nat)), 0, n);
    assert(off < n) by {
        vstd::arithmetic::div_mod::lemma_mod_division_less_than_divisor(
            crate::utils::be_val(
                crate::prng::stream_bytes(key, sha16(dec_str(x as nat)), 0, crate::utils::nbits(n)),
            ) as int,
            n as int,
        );
    }
    let c = spec_encrypt(key, d, r, x);
    assert(cell.1 <= c <= cell.2);
    lemma_cell_tracks(key, 0, d, 0, r, 0, x, c);
}

/// Determinism: the ciphertext is a pure function of the key, the domain,
/// the range and the plaintext, so independent instances built from equal
/// keys and parameters agree on every plaintext.
pub proof fn lemma_encrypt_deterministic(k1: Seq<u8>, k2: Seq<u8>, d: int, r: int, x: int)
    requires
        k1 == k2,
    ensures
        spec_encrypt(k1, d, r, x) == spec_encrypt(k2, d, r, x),
{
}

} // verus!
