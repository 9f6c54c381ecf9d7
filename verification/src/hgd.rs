//! Hypergeometric variate generator.
//!
//! `hgd(kk, nn1, nn2, prng)` returns how many white balls turn up when `kk`
//! balls are drawn without replacement from an urn of `nn1` white and `nn2`
//! black balls.  The draw is an inverse-transform sample over a window of the
//! distribution centred at its mode: fixed-point weights follow the ratio
//! `p(x+1)/p(x) = (nn1-x)(kk-x) / ((x+1)(nn2-kk+x+1))` outward from the mode
//! until they become negligible, one uniform draw from the keyed PRNG picks a
//! cell, and the result always lies in the distribution's support
//! `[max(0, kk-nn2), min(nn1, kk)]`.  Everything is integer arithmetic, so
//! the value is a pure function of the inputs and the PRNG state.

use vstd::prelude::*;

use crate::prng::inc_n;
use crate::prng::nblocks_for;
use crate::prng::spec_rand_int_mod;
use crate::prng::BlockCipher;
use crate::utils::nbits;
use crate::OpeError;

verus! {

/// Fixed-point weight given to the mode of the distribution.
pub const SCALE: u64 = 0x100_0000_0000;

/// Weights saturate here; the cap only matters far from well-behaved inputs.
pub const WCAP: u64 = 0x400_0000_0000;

/// The window stops growing once a weight falls below this.
pub const WCUT: u64 = 0x10_0000;

/// At most this many cells on each side of the mode.
pub const MAXSIDE: u64 = 0x1_0000;

/// The largest weight one window side can accumulate.
proof fn lemma_side_cap()
    ensures
        MAXSIDE as int * WCAP == 0x400_0000_0000_0000,
{
    assert(0x1_0000int * 0x400_0000_0000int == 0x400_0000_0000_0000int);
}

/// `w * num / den`, computed after shrinking `num` and `den` proportionally
/// so that the products stay representable; clamped into `[0, WCAP]`.
pub open spec fn wscale(w: int, num: int, den: int) -> int {
    if w < 1 || num < 1 || den < 1 {
        0
    } else {
        let mx = if num >= den {
            num
        } else {
            den
        };
        let g = mx / 0x8000_0000_0000_0000 + 1;
        let n2 = num / g;
        let d2 = if den / g >= 1 {
            den / g
        } else {
            1
        };
        let raw = (w * n2) / d2;
        if raw >= WCAP {
            WCAP as int
        } else {
            raw
        }
    }
}

/// Weight one step above `x`, from the weight `w` at `x`.
pub open spec fn wstep_up(kk: int, nn1: int, nn2: int, x: int, w: int) -> int {
    wscale(w, (nn1 - x) * (kk - x), (x + 1) * (nn2 - kk + x + 1))
}

/// Weight one step below `x`, from the weight `w` at `x`.
pub open spec fn wstep_down(kk: int, nn1: int, nn2: int, x: int, w: int) -> int {
    wscale(w, x * (nn2 - kk + x), (nn1 - x + 1) * (kk - x + 1))
}

/// Total weight of the window cells strictly above `x`, where `x` carries
/// weight `w`: cells are added while they stay at least `WCUT` and within
/// `fuel` steps, never beyond `hi`.
pub open spec fn rsum(kk: int, nn1: int, nn2: int, hi: int, x: int, w: int, fuel: nat) -> int
    decreases fuel,
{
    if x >= hi || w < WCUT || fuel == 0 {
        0
    } else {
        let wn = wstep_up(kk, nn1, nn2, x, w);
        wn + rsum(kk, nn1, nn2, hi, x + 1, wn, (fuel - 1) as nat)
    }
}

/// Total weight of the window cells strictly below `x`, never beyond `lo`.
pub open spec fn lsum(kk: int, nn1: int, nn2: int, lo: int, x: int, w: int, fuel: nat) -> int
    decreases fuel,
{
    if x <= lo || w < WCUT || fuel == 0 {
        0
    } else {
        let wn = wstep_down(kk, nn1, nn2, x, w);
        wn + lsum(kk, nn1, nn2, lo, x - 1, wn, (fuel - 1) as nat)
    }
}

/// The cell above `x` that a residual draw `u` lands in, walking upward.
pub open spec fn rpick(kk: int, nn1: int, nn2: int, hi: int, x: int, w: int, fuel: nat, u: int) -> int
    decreases fuel,
{
    if x >= hi || w < WCUT || fuel == 0 {
        x
    } else {
        let wn = wstep_up(kk, nn1, nn2, x, w);
        if u < wn {
            x + 1
        } else {
            rpick(kk, nn1, nn2, hi, x + 1, wn, (fuel - 1) as nat, u - wn)
        }
    }
}

/// The cell below `x` that a residual draw `u` lands in, walking downward.
pub open spec fn lpick(kk: int, nn1: int, nn2: int, lo: int, x: int, w: int, fuel: nat, u: int) -> int
    decreases fuel,
{
    if x <= lo || w < WCUT || fuel == 0 {
        x
    } else {
        let wn = wstep_down(kk, nn1, nn2, x, w);
        if u < wn {
            x - 1
        } else {
            lpick(kk, nn1, nn2, lo, x - 1, wn, (fuel - 1) as nat, u - wn)
        }
    }
}

/// Lower end of the support: `max(0, kk - nn2)`.
pub open spec fn hgd_lo(kk: int, nn2: int) -> int {
    if kk - nn2 >= 0 {
        kk - nn2
    } else {
        0
    }
}

/// Upper end of the support: `min(nn1, kk)`.
pub open spec fn hgd_hi(kk: int, nn1: int) -> int {
    if nn1 <= kk {
        nn1
    } else {
        kk
    }
}

/// The mode `floor((kk+1)(nn1+1)/(nn1+nn2+2))`, clamped into the support.
pub open spec fn hgd_mode(kk: int, nn1: int, nn2: int) -> int {
    let m = ((kk + 1) * (nn1 + 1)) / (nn1 + nn2 + 2);
    let lo = hgd_lo(kk, nn2);
    let hi = hgd_hi(kk, nn1);
    if m < lo {
        lo
    } else if m > hi {
        hi
    } else {
        m
    }
}

/// Total weight of the window.
pub open spec fn hgd_w(kk: int, nn1: int, nn2: int) -> int {
    let m = hgd_mode(kk, nn1, nn2);
    SCALE + rsum(kk, nn1, nn2, hgd_hi(kk, nn1), m, SCALE as int, MAXSIDE as nat) + lsum(
        kk,
        nn1,
        nn2,
        hgd_lo(kk, nn2),
        m,
        SCALE as int,
        MAXSIDE as nat,
    )
}

/// The cell a uniform draw `u < hgd_w(..)` lands in: the mode first, then the
/// cells above it in ascending order, then the cells below it in descending
/// order.
pub open spec fn hgd_pick(kk: int, nn1: int, nn2: int, u: int) -> int {
    let m = hgd_mode(kk, nn1, nn2);
    let rs = rsum(kk, nn1, nn2, hgd_hi(kk, nn1), m, SCALE as int, MAXSIDE as nat);
    if u < SCALE {
        m
    } else if u - SCALE < rs {
        rpick(kk, nn1, nn2, hgd_hi(kk, nn1), m, SCALE as int, MAXSIDE as nat, u - SCALE)
    } else {
        lpick(kk, nn1, nn2, hgd_lo(kk, nn2), m, SCALE as int, MAXSIDE as nat, u - SCALE - rs)
    }
}

/// What `hgd` returns from PRNG state `(key, c, pos)`.
pub open spec fn hgd_val(kk: int, nn1: int, nn2: int, key: Seq<u8>, c: Seq<u8>, pos: nat) -> int {
    if hgd_lo(kk, nn2) == hgd_hi(kk, nn1) {
        hgd_lo(kk, nn2)
    } else {
        hgd_pick(kk, nn1, nn2, spec_rand_int_mod(key, c, pos, hgd_w(kk, nn1, nn2) as nat) as int)
    }
}

/// How many keystream blocks one `hgd` call consumes.
pub open spec fn hgd_blocks(kk: int, nn1: int, nn2: int) -> nat {
    if hgd_lo(kk, nn2) == hgd_hi(kk, nn1) {
        0
    } else {
        nblocks_for(nbits(hgd_w(kk, nn1, nn2) as nat))
    }
}

/// A scaled weight stays within `[0, WCAP]`.
pub proof fn lemma_wscale_bounds(w: int, num: int, den: int)
    ensures
        0 <= wscale(w, num, den) <= WCAP,
{
    if w < 1 || num < 1 || den < 1 {
    } else {
        let mx = if num >= den {
            num
        } else {
            den
        };
        let g = mx / 0x8000_0000_0000_0000 + 1;
        let n2 = num / g;
        let d2 = if den / g >= 1 {
            den / g
        } else {
            1
        };
        assert(g >= 1);
        assert(n2 >= 0) by {
            vstd::arithmetic::div_mod::lemma_div_pos_is_pos(num, g);
        }
        assert(w * n2 >= 0) by (nonlinear_arith)
            requires
                w >= 1,
                n2 >= 0,
        ;
        assert((w * n2) / d2 >= 0) by {
            vstd::arithmetic::div_mod::lemma_div_pos_is_pos(w * n2, d2);
        }
    }
}

/// A window side's weight is nonnegative and at most `fuel * WCAP`.
pub proof fn lemma_rsum_bounds(kk: int, nn1: int, nn2: int, hi: int, x: int, w: int, fuel: nat)
    ensures
        0 <= rsum(kk, nn1, nn2, hi, x, w, fuel) <= fuel * WCAP,
    decreases fuel,
{
    if x >= hi || w < WCUT || fuel == 0 {
        assert(fuel * WCAP >= 0) by (nonlinear_arith);
    } else {
        let wn = wstep_up(kk, nn1, nn2, x, w);
        lemma_wscale_bounds(w, (nn1 - x) * (kk - x), (x + 1) * (nn2 - kk + x + 1));
        lemma_rsum_bounds(kk, nn1, nn2, hi, x + 1, wn, (fuel - 1) as nat);
        assert(fuel * WCAP == (fuel - 1) as nat * WCAP + WCAP) by (nonlinear_arith)
            requires
                fuel >= 1,
        ;
    }
}

/// Mirror of `lemma_rsum_bounds` for the lower side.
pub proof fn lemma_lsum_bounds(kk: int, nn1: int, nn2: int, lo: int, x: int, w: int, fuel: nat)
    ensures
        0 <= lsum(kk, nn1, nn2, lo, x, w, fuel) <= fuel * WCAP,
    decreases fuel,
{
    if x <= lo || w < WCUT || fuel == 0 {
        assert(fuel * WCAP >= 0) by (nonlinear_arith);
    } else {
        let wn = wstep_down(kk, nn1, nn2, x, w);
        lemma_wscale_bounds(w, x * (nn2 - kk + x), (nn1 - x + 1) * (kk - x + 1));
        lemma_lsum_bounds(kk, nn1, nn2, lo, x - 1, wn, (fuel - 1) as nat);
        assert(fuel * WCAP == (fuel - 1) as nat * WCAP + WCAP) by (nonlinear_arith)
            requires
                fuel >= 1,
        ;
    }
}

/// A draw below the upper side's weight lands strictly above `x`, at most `hi`.
pub proof fn lemma_rpick_range(kk: int, nn1: int, nn2: int, hi: int, x: int, w: int, fuel: nat, u: int)
    requires
        0 <= u < rsum(kk, nn1, nn2, hi, x, w, fuel),
    ensures
        x + 1 <= rpick(kk, nn1, nn2, hi, x, w, fuel, u) <= hi,
    decreases fuel,
{
    let wn = wstep_up(kk, nn1, nn2, x, w);
    if u < wn {
    } else {
        lemma_rpick_range(kk, nn1, nn2, hi, x + 1, wn, (fuel - 1) as nat, u - wn);
    }
}

/// A draw below the lower side's weight lands strictly below `x`, at least `lo`.
pub proof fn lemma_lpick_range(kk: int, nn1: int, nn2: int, lo: int, x: int, w: int, fuel: nat, u: int)
    requires
        0 <= u < lsum(kk, nn1, nn2, lo, x, w, fuel),
    ensures
        lo <= lpick(kk, nn1, nn2, lo, x, w, fuel, u) <= x - 1,
    decreases fuel,
{
    let wn = wstep_down(kk, nn1, nn2, x, w);
    if u < wn {
    } else {
        lemma_lpick_range(kk, nn1, nn2, lo, x - 1, wn, (fuel - 1) as nat, u - wn);
    }
}

/// The sampler's value always lies in the support of the distribution.
pub proof fn lemma_hgd_val_range(kk: int, nn1: int, nn2: int, key: Seq<u8>, c: Seq<u8>, pos: nat)
    requires
        0 <= kk,
        0 <= nn1,
        0 <= nn2,
        kk <= nn1 + nn2,
    ensures
        hgd_lo(kk, nn2) <= hgd_val(kk, nn1, nn2, key, c, pos) <= hgd_hi(kk, nn1),
{
    let lo = hgd_lo(kk, nn2);
    let hi = hgd_hi(kk, nn1);
    let m = hgd_mode(kk, nn1, nn2);
    if lo == hi {
    } else {
        let rs = rsum(kk, nn1, nn2, hi, m, SCALE as int, MAXSIDE as nat);
        let ls = lsum(kk, nn1, nn2, lo, m, SCALE as int, MAXSIDE as nat);
        lemma_rsum_bounds(kk, nn1, nn2, hi, m, SCALE as int, MAXSIDE as nat);
        lemma_lsum_bounds(kk, nn1, nn2, lo, m, SCALE as int, MAXSIDE as nat);
        let w = hgd_w(kk, nn1, nn2);
        assert(w >= SCALE);
        let u = spec_rand_int_mod(key, c, pos, w as nat) as int;
        assert(0 <= u < w) by {
            vstd::arithmetic::div_mod::lemma_mod_division_less_than_divisor(
                crate::utils::be_val(
                    crate::prng::stream_bytes(key, c, pos, nbits(w as nat)),
                ) as int,
                w,
            );
        }
        if u < SCALE {
        } else if u - SCALE < rs {
            lemma_rpick_range(kk, nn1, nn2, hi, m, SCALE as int, MAXSIDE as nat, u - SCALE);
        } else {
            lemma_lpick_range(kk, nn1, nn2, lo, m, SCALE as int, MAXSIDE as nat, u - SCALE - rs);
        }
    }
}

/// `w * num / den` in machine arithmetic, equal to the spec-level `wscale`.
fn wscale_exec(w: u64, num: u128, den: u128) -> (wn: u64)
    requires
        1 <= w <= WCAP,
        num >= 1,
        den >= 1,
    ensures
        wn == wscale(w as int, num as int, den as int),
        wn <= WCAP,
{
    let mx: u128 = if num >= den {
        num
    } else {
        den
    };
    let g: u128 = mx / 0x8000_0000_0000_0000u128 + 1;
    let n2: u128 = num / g;
    let d2raw: u128 = den / g;
    let d2: u128 = if d2raw >= 1 {
        d2raw
    } else {
        1
    };
    proof {
        vstd::arithmetic::div_mod::lemma_fundamental_div_mod(mx as int, 0x8000_0000_0000_0000);
        vstd::arithmetic::div_mod::lemma_mod_bound(mx as int, 0x8000_0000_0000_0000);
        assert(mx < g * 0x8000_0000_0000_0000);
        vstd::arithmetic::div_mod::lemma_multiply_divide_lt(
            num as int,
            g as int,
            0x8000_0000_0000_0000,
        );
        assert(n2 < 0x8000_0000_0000_0000);
        assert((w as u128) * n2 <= 0x400_0000_0000u128 * 0x8000_0000_0000_0000u128)
            by (nonlinear_arith)
            requires
                0 <= w <= 0x400_0000_0000u128,
                0 <= n2 <= 0x8000_0000_0000_0000u128,
        ;
    }
    let raw: u128 = (w as u128) * n2 / d2;
    if raw >= WCAP as u128 {
        WCAP
    } else {
        raw as u64
    }
}

/// One step up from `x` (weight `w`) in machine arithmetic.
fn wstep_up_exec(kk: u64, nn1: u64, nn2: u64, x: u64, w: u64) -> (wn: u64)
    requires
        x < nn1,
        x < kk,
        (nn2 as int) + (x as int) >= kk as int,
        1 <= w <= WCAP,
        (kk as int) + (nn1 as int) + (nn2 as int) < 0x8000_0000_0000_0000,
    ensures
        wn == wstep_up(kk as int, nn1 as int, nn2 as int, x as int, w as int),
        wn <= WCAP,
{
    let a: u128 = (nn1 - x) as u128;
    let b: u128 = (kk - x) as u128;
    let c1: u128 = x as u128 + 1;
    let c2: u128 = nn2 as u128 + x as u128 + 1 - kk as u128;
    proof {
        assert(a * b < 0x8000_0000_0000_0000u128 * 0x8000_0000_0000_0000u128)
            by (nonlinear_arith)
            requires
                0 < a < 0x8000_0000_0000_0000u128,
                0 < b < 0x8000_0000_0000_0000u128,
        ;
        assert(c1 * c2 < 0x8000_0000_0000_0000u128 * 0x8000_0000_0000_0000u128)
            by (nonlinear_arith)
            requires
                0 < c1 < 0x8000_0000_0000_0000u128,
                0 < c2 < 0x8000_0000_0000_0000u128,
        ;
        assert(a * b >= 1) by (nonlinear_arith)
            requires
                a >= 1,
                b >= 1,
        ;
        assert(c1 * c2 >= 1) by (nonlinear_arith)
            requires
                c1 >= 1,
                c2 >= 1,
        ;
    }
    let num: u128 = a * b;
    let den: u128 = c1 * c2;
    let r = wscale_exec(w, num, den);
    proof {
        assert(num as int == ((nn1 as int) - (x as int)) * ((kk as int) - (x as int)));
        assert(den as int == ((x as int) + 1) * ((nn2 as int) - (kk as int) + (x as int) + 1));
    }
    r
}

/// One step down from `x` (weight `w`) in machine arithmetic.
fn wstep_down_exec(kk: u64, nn1: u64, nn2: u64, x: u64, w: u64) -> (wn: u64)
    requires
        x >= 1,
        x <= nn1,
        x <= kk,
        (nn2 as int) + (x as int) > kk as int,
        1 <= w <= WCAP,
        (kk as int) + (nn1 as int) + (nn2 as int) < 0x8000_0000_0000_0000,
    ensures
        wn == wstep_down(kk as int, nn1 as int, nn2 as int, x as int, w as int),
        wn <= WCAP,
{
    let a: u128 = x as u128;
    let b: u128 = nn2 as u128 + x as u128 - kk as u128;
    let c1: u128 = (nn1 - x) as u128 + 1;
    let c2: u128 = (kk - x) as u128 + 1;
    proof {
        assert(a * b < 0x8000_0000_0000_0000u128 * 0x8000_0000_0000_0000u128)
            by (nonlinear_arith)
            requires
                0 < a < 0x8000_0000_0000_0000u128,
                0 < b < 0x8000_0000_0000_0000u128,
        ;
        assert(c1 * c2 <= 0x8000_0000_0000_0000u128 * 0x8000_0000_0000_0000u128)
            by (nonlinear_arith)
            requires
                0 < c1 <= 0x8000_0000_0000_0000u128,
                0 < c2 <= 0x8000_0000_0000_0000u128,
        ;
        assert(a * b >= 1) by (nonlinear_arith)
            requires
                a >= 1,
                b >= 1,
        ;
        assert(c1 * c2 >= 1) by (nonlinear_arith)
            requires
                c1 >= 1,
                c2 >= 1,
        ;
    }
    let num: u128 = a * b;
    let den: u128 = c1 * c2;
    let r = wscale_exec(w, num, den);
    proof {
        assert(num as int == (x as int) * ((nn2 as int) - (kk as int) + (x as int)));
        assert(den as int == ((nn1 as int) - (x as int) + 1) * ((kk as int) - (x as int) + 1));
    }
    r
}

/// Sum the window cells above the mode.
fn sum_up_exec(kk: u64, nn1: u64, nn2: u64, hi: u64, m: u64) -> (s: u64)
    requires
        hi as int == hgd_hi(kk as int, nn1 as int),
        hgd_lo(kk as int, nn2 as int) <= (m as int) <= hi as int,
        kk as int + nn1 as int + (nn2 as int) < 0x8000_0000_0000_0000,
    ensures
        s as int == rsum(kk as int, nn1 as int, nn2 as int, hi as int, m as int, SCALE as int, MAXSIDE as nat),
        (s as int) <= MAXSIDE * WCAP,
{
    let mut x: u64 = m;
    let mut w: u64 = SCALE;
    let mut fuel: u64 = MAXSIDE;
    let mut acc: u64 = 0;
    proof {
        lemma_side_cap();
    }
    while x < hi && w >= WCUT && fuel > 0
        invariant
            hi as int == hgd_hi(kk as int, nn1 as int),
            hgd_lo(kk as int, nn2 as int) <= m as int,
            m <= x <= hi,
            kk as int + nn1 as int + (nn2 as int) < 0x8000_0000_0000_0000,
            w <= WCAP,
            fuel <= MAXSIDE,
            acc as int + rsum(kk as int, nn1 as int, nn2 as int, hi as int, x as int, w as int, fuel as nat)
                == rsum(kk as int, nn1 as int, nn2 as int, hi as int, m as int, SCALE as int, MAXSIDE as nat),
            (acc as int) <= (MAXSIDE - fuel) as int * WCAP,
        decreases fuel,
    {
        let wn = wstep_up_exec(kk, nn1, nn2, x, w);
        proof {
            assert((MAXSIDE - fuel) as int * WCAP + WCAP == (MAXSIDE - (fuel - 1)) as int * WCAP)
                by (nonlinear_arith)
                requires
                    1 <= fuel <= MAXSIDE,
            ;
            assert((MAXSIDE - (fuel - 1)) as int * WCAP <= MAXSIDE as int * WCAP)
                by (nonlinear_arith)
                requires
                    1 <= fuel <= MAXSIDE,
            ;
            lemma_side_cap();
        }
        acc = acc + wn;
        x = x + 1;
        w = wn;
        fuel = fuel - 1;
    }
    proof {
        assert(rsum(kk as int, nn1 as int, nn2 as int, hi as int, x as int, w as int, fuel as nat) == 0);
        assert((MAXSIDE - fuel) as int * WCAP <= MAXSIDE as int * WCAP) by (nonlinear_arith)
            requires
                fuel <= MAXSIDE,
        ;
    }
    acc
}

/// Sum the window cells below the mode.
fn sum_down_exec(kk: u64, nn1: u64, nn2: u64, lo: u64, m: u64) -> (s: u64)
    requires
        lo as int == hgd_lo(kk as int, nn2 as int),
        (lo as int) <= (m as int) <= hgd_hi(kk as int, nn1 as int),
        kk as int + nn1 as int + (nn2 as int) < 0x8000_0000_0000_0000,
    ensures
        s as int == lsum(kk as int, nn1 as int, nn2 as int, lo as int, m as int, SCALE as int, MAXSIDE as nat),
        (s as int) <= MAXSIDE * WCAP,
{
    let mut x: u64 = m;
    let mut w: u64 = SCALE;
    let mut fuel: u64 = MAXSIDE;
    let mut acc: u64 = 0;
    while x > lo && w >= WCUT && fuel > 0
        invariant
            lo as int == hgd_lo(kk as int, nn2 as int),
            (m as int) <= hgd_hi(kk as int, nn1 as int),
            lo <= x <= m,
            kk as int + nn1 as int + (nn2 as int) < 0x8000_0000_0000_0000,
            w <= WCAP,
            fuel <= MAXSIDE,
            acc as int + lsum(kk as int, nn1 as int, nn2 as int, lo as int, x as int, w as int, fuel as nat)
                == lsum(kk as int, nn1 as int, nn2 as int, lo as int, m as int, SCALE as int, MAXSIDE as nat),
            (acc as int) <= (MAXSIDE - fuel) as int * WCAP,
        decreases fuel,
    {
        let wn = wstep_down_exec(kk, nn1, nn2, x, w);
        proof {
            assert((MAXSIDE - fuel) as int * WCAP + WCAP == (MAXSIDE - (fuel - 1)) as int * WCAP)
                by (nonlinear_arith)
                requires
                    1 <= fuel <= MAXSIDE,
            ;
            assert((MAXSIDE - (fuel - 1)) as int * WCAP <= MAXSIDE as int * WCAP)
                by (nonlinear_arith)
                requires
                    1 <= fuel <= MAXSIDE,
            ;
            lemma_side_cap();
        }
        acc = acc + wn;
        x = x - 1;
        w = wn;
        fuel = fuel - 1;
    }
    proof {
        assert(lsum(kk as int, nn1 as int, nn2 as int, lo as int, x as int, w as int, fuel as nat) == 0);
        assert((MAXSIDE - fuel) as int * WCAP <= MAXSIDE as int * WCAP) by (nonlinear_arith)
            requires
                fuel <= MAXSIDE,
        ;
        lemma_side_cap();
    }
    acc
}

/// Walk upward from the mode until the residual draw `u` is spent.
fn walk_up_exec(kk: u64, nn1: u64, nn2: u64, hi: u64, m: u64, u: u64) -> (r: u64)
    requires
        hi as int == hgd_hi(kk as int, nn1 as int),
        hgd_lo(kk as int, nn2 as int) <= (m as int) <= hi as int,
        kk as int + nn1 as int + (nn2 as int) < 0x8000_0000_0000_0000,
        (u as int) < rsum(kk as int, nn1 as int, nn2 as int, hi as int, m as int, SCALE as int, MAXSIDE as nat),
    ensures
        r as int == rpick(kk as int, nn1 as int, nn2 as int, hi as int, m as int, SCALE as int, MAXSIDE as nat, u as int),
{
    let mut x: u64 = m;
    let mut w: u64 = SCALE;
    let mut fuel: u64 = MAXSIDE;
    let mut uu: u64 = u;
    while x < hi && w >= WCUT && fuel > 0
        invariant
            hi as int == hgd_hi(kk as int, nn1 as int),
            hgd_lo(kk as int, nn2 as int) <= m as int,
            m <= x <= hi,
            kk as int + nn1 as int + (nn2 as int) < 0x8000_0000_0000_0000,
            w <= WCAP,
            fuel <= MAXSIDE,
            (uu as int) < rsum(kk as int, nn1 as int, nn2 as int, hi as int, x as int, w as int, fuel as nat),
            rpick(kk as int, nn1 as int, nn2 as int, hi as int, x as int, w as int, fuel as nat, uu as int)
                == rpick(kk as int, nn1 as int, nn2 as int, hi as int, m as int, SCALE as int, MAXSIDE as nat, u as int),
        decreases fuel,
    {
        let wn = wstep_up_exec(kk, nn1, nn2, x, w);
        if uu < wn {
            return x + 1;
        }
        proof {
            lemma_rsum_bounds(
                kk as int,
                nn1 as int,
                nn2 as int,
                hi as int,
                x as int + 1,
                wn as int,
                (fuel - 1) as nat,
            );
        }
        uu = uu - wn;
        x = x + 1;
        w = wn;
        fuel = fuel - 1;
    }
    proof {
        assert(rsum(kk as int, nn1 as int, nn2 as int, hi as int, x as int, w as int, fuel as nat) == 0);
        assert(false);
    }
    m
}

/// Walk downward from the mode until the residual draw `u` is spent.
fn walk_down_exec(kk: u64, nn1: u64, nn2: u64, lo: u64, m: u64, u: u64) -> (r: u64)
    requires
        lo as int == hgd_lo(kk as int, nn2 as int),
        (lo as int) <= (m as int) <= hgd_hi(kk as int, nn1 as int),
        kk as int + nn1 as int + (nn2 as int) < 0x8000_0000_0000_0000,
        (u as int) < lsum(kk as int, nn1 as int, nn2 as int, lo as int, m as int, SCALE as int, MAXSIDE as nat),
    ensures
        r as int == lpick(kk as int, nn1 as int, nn2 as int, lo as int, m as int, SCALE as int, MAXSIDE as nat, u as int),
{
    let mut x: u64 = m;
    let mut w: u64 = SCALE;
    let mut fuel: u64 = MAXSIDE;
    let mut uu: u64 = u;
    while x > lo && w >= WCUT && fuel > 0
        invariant
            lo as int == hgd_lo(kk as int, nn2 as int),
            (m as int) <= hgd_hi(kk as int, nn1 as int),
            lo <= x <= m,
            kk as int + nn1 as int + (nn2 as int) < 0x8000_0000_0000_0000,
            w <= WCAP,
            fuel <= MAXSIDE,
            (uu as int) < lsum(kk as int, nn1 as int, nn2 as int, lo as int, x as int, w as int, fuel as nat),
            lpick(kk as int, nn1 as int, nn2 as int, lo as int, x as int, w as int, fuel as nat, uu as int)
                == lpick(kk as int, nn1 as int, nn2 as int, lo as int, m as int, SCALE as int, MAXSIDE as nat, u as int),
        decreases fuel,
    {
        let wn = wstep_down_exec(kk, nn1, nn2, x, w);
        if uu < wn {
            return x - 1;
        }
        proof {
            lemma_lsum_bounds(
                kk as int,
                nn1 as int,
                nn2 as int,
                lo as int,
                x as int - 1,
                wn as int,
                (fuel - 1) as nat,
            );
        }
        uu = uu - wn;
        x = x - 1;
        w = wn;
        fuel = fuel - 1;
    }
    proof {
        assert(lsum(kk as int, nn1 as int, nn2 as int, lo as int, x as int, w as int, fuel as nat) == 0);
        assert(false);
    }
    m
}

/// Draw a hypergeometric variate: the number of white balls when `kk` balls
/// are drawn from an urn of `nn1` white and `nn2` black balls, using `prng`
/// as the (deterministic) source of uniform draws.
///
/// Fails with `HdgInvalidInputs` exactly when `kk > nn1 + nn2`.  On success
/// the value lies in `[max(0, kk - nn2), min(nn1, kk)]` and is a pure
/// function of `(kk, nn1, nn2)` and the PRNG state.  Callers keep
/// `kk + nn1 + nn2` below `2^63` so the draw's byte count and the
/// fixed-point weights stay within machine range.
pub fn hgd(kk: u64, nn1: u64, nn2: u64, prng: &mut BlockCipher) -> (res: Result<u64, OpeError>)
    requires
        old(prng).wf(),
        kk as int + nn1 as int + (nn2 as int) < 0x8000_0000_0000_0000,
    ensures
        final(prng).wf(),
        final(prng).key() == old(prng).key(),
        res is Err <==> (kk as int) > nn1 as int + nn2 as int,
        res is Err ==> res == Err::<u64, OpeError>(OpeError::HdgInvalidInputs)
            && final(prng).counter() == old(prng).counter()
            && final(prng).pos() == old(prng).pos(),
        res matches Ok(v) ==> {
            &&& v as int == hgd_val(kk as int, nn1 as int, nn2 as int, old(prng).key(), old(prng).counter(), old(prng).pos())
            &&& hgd_lo(kk as int, nn2 as int) <= (v as int) <= hgd_hi(kk as int, nn1 as int)
            &&& final(prng).counter() == inc_n(old(prng).counter(), hgd_blocks(kk as int, nn1 as int, nn2 as int))
            &&& final(prng).pos() == old(prng).pos() + hgd_blocks(kk as int, nn1 as int, nn2 as int)
        },
{
    let n: u64 = nn1 + nn2;
    if kk > n {
        return Err(OpeError::HdgInvalidInputs);
    }
    let lo: u64 = if kk > nn2 {
        kk - nn2
    } else {
        0
    };
    let hi: u64 = if nn1 < kk {
        nn1
    } else {
        kk
    };
    if lo == hi {
        return Ok(lo);
    }
    proof {
        assert((kk as u128 + 1) * (nn1 as u128 + 1) <= 0x8000_0000_0000_0000u128
            * 0x8000_0000_0000_0000u128) by (nonlinear_arith)
            requires
                0 <= kk as u128 + 1 <= 0x8000_0000_0000_0000u128,
                0 <= nn1 as u128 + 1 <= 0x8000_0000_0000_0000u128,
        ;
    }
    let mprod: u128 = (kk as u128 + 1) * (nn1 as u128 + 1);
    let mdiv: u128 = mprod / (n as u128 + 2);
    let m: u64 = if mdiv < lo as u128 {
        lo
    } else if mdiv > hi as u128 {
        hi
    } else {
        mdiv as u64
    };
    proof {
        assert(m as int == hgd_mode(kk as int, nn1 as int, nn2 as int));
    }
    let rs: u64 = sum_up_exec(kk, nn1, nn2, hi, m);
    let ls: u64 = sum_down_exec(kk, nn1, nn2, lo, m);
    proof {
        lemma_side_cap();
    }
    let w_total: u64 = SCALE + rs + ls;
    let u: u64 = prng.rand_int_mod(w_total);
    let v: u64 = if u < SCALE {
        m
    } else {
        let u2: u64 = u - SCALE;
        if u2 < rs {
            walk_up_exec(kk, nn1, nn2, hi, m, u2)
        } else {
            walk_down_exec(kk, nn1, nn2, lo, m, u2 - rs)
        }
    };
    proof {
        lemma_hgd_val_range(
            kk as int,
            nn1 as int,
            nn2 as int,
            old(prng).key(),
            old(prng).counter(),
            old(prng).pos(),
        );
    }
    Ok(v)
}

} // verus!
