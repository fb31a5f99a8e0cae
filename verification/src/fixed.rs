//! Fixed-point arithmetic for the selection score. Mean values are exact
//! (visit outcomes accumulate in half-units), and the exploration term
//! `c * sqrt(2 * ln(parent) / visits)` is evaluated in 16-bit fixed point
//! with an integer square root and a natural logarithm that is linear
//! between powers of two.

use vstd::prelude::*;

verus! {

/// One in 16-bit fixed point.
pub const SCALE: u64 = 65536;

/// `ln(2)` in 16-bit fixed point.
pub const LN2_FP: u64 = 45426;

/// Visit counts beyond this bound are clamped before taking the logarithm.
pub const LN_CAP: u64 = 0x100_0000_0000;

pub open spec fn pow2(e: nat) -> int
    decreases e,
{
    if e == 0 {
        1
    } else {
        2 * pow2((e - 1) as nat)
    }
}

pub open spec fn log2_floor(n: int) -> nat
    decreases n,
{
    if n < 2 {
        0
    } else {
        1 + log2_floor(n / 2)
    }
}

/// Floor of the square root.
pub open spec fn sqrt_floor(x: int) -> int
    decreases x,
{
    if x < 1 {
        0
    } else {
        let r = sqrt_floor(x - 1);
        if (r + 1) * (r + 1) <= x {
            r + 1
        } else {
            r
        }
    }
}

/// `sqrt_floor` is the integer square root: it brackets its argument.
pub proof fn lemma_sqrt_floor(x: int)
    requires
        x >= 0,
    ensures
        0 <= sqrt_floor(x),
        sqrt_floor(x) * sqrt_floor(x) <= x,
        x < (sqrt_floor(x) + 1) * (sqrt_floor(x) + 1),
    decreases x,
{
    if x >= 1 {
        lemma_sqrt_floor(x - 1);
        let r = sqrt_floor(x - 1);
        if (r + 1) * (r + 1) <= x {
            assert(x < (r + 2) * (r + 2)) by (nonlinear_arith)
                requires
                    x - 1 < (r + 1) * (r + 1),
                    r >= 0,
            ;
        }
    }
}

/// The clamped argument of the logarithm.
pub open spec fn ln_arg(n: u64) -> int {
    if n < 1 {
        1
    } else if n > LN_CAP {
        LN_CAP as int
    } else {
        n as int
    }
}

/// `ln(n) * SCALE`, with the mantissa interpolated linearly between powers
/// of two: for `n = 2^k * (1 + f)` this is `(k + f) * ln(2) * SCALE`.
pub open spec fn ln_fp(n: u64) -> int {
    let m = ln_arg(n);
    let k = log2_floor(m);
    let frac = m * SCALE / pow2(k) - SCALE;
    k * LN2_FP + frac * LN2_FP / (SCALE as int)
}

/// The selection score of a child in fixed point, from the parent's
/// perspective: `1 - meanValue` plus the exploration bonus, where `c2x2`
/// is `2 * c^2 * SCALE` for exploration constant `c`.
pub open spec fn score_fp(value_half: u64, visits: u64, parent_visits: u64, c2x2: u64) -> int {
    let exploit = SCALE - value_half * SCALE / (2 * visits as int);
    let explore = sqrt_floor(c2x2 * ln_fp(parent_visits) / (visits as int));
    exploit + explore
}

/// Floor of the square root, by binary search.
pub fn isqrt(x: u64) -> (r: u64)
    ensures
        r * r <= x < (r + 1) * (r + 1),
        r == sqrt_floor(x as int),
        r <= 0xFFFF_FFFF,
{
    let mut lo: u64 = 0;
    let mut hi: u64 = 0x1_0000_0000;
    while lo + 1 < hi
        invariant
            lo < hi <= 0x1_0000_0000,
            lo * lo <= x,
            x < hi * hi,
        decreases hi - lo,
    {
        let mid: u64 = lo + (hi - lo) / 2;
        proof {
            assert(mid as int * mid <= 0xFFFF_FFFFint * 0xFFFF_FFFF) by (nonlinear_arith)
                requires
                    mid <= 0xFFFF_FFFFu64,
            ;
        }
        if mid * mid <= x {
            lo = mid;
        } else {
            hi = mid;
        }
    }
    proof {
        let r = lo as int;
        assert(0 <= r && r * r <= x < (r + 1) * (r + 1));
        let w = sqrt_floor(x as int);
        lemma_sqrt_floor(x as int);
        assert(0 <= w && w * w <= x < (w + 1) * (w + 1));
        assert(w == r) by (nonlinear_arith)
            requires
                0 <= r,
                0 <= w,
                r * r <= x < (r + 1) * (r + 1),
                w * w <= x < (w + 1) * (w + 1),
        ;
    }
    lo
}

/// `ln(n) * SCALE` on the clamped argument, matching `ln_fp`.
pub fn ln_fixed(n: u64) -> (r: u64)
    ensures
        r == ln_fp(n),
        r <= 49 * LN2_FP,
{
    let m: u64 = if n < 1 {
        1
    } else if n > LN_CAP {
        LN_CAP
    } else {
        n
    };
    let mut x: u64 = m;
    let mut k: u64 = 0;
    let mut p: u64 = 1;
    while x >= 2
        invariant
            1 <= x <= m,
            m <= LN_CAP,
            p == pow2(k as nat),
            1 <= p <= m,
            log2_floor(m as int) == k + log2_floor(x as int),
            x * p <= m < (x + 1) * p,
            k <= 48,
        decreases x,
    {
        proof {
            assert((x / 2) * (2 * p) <= x * p && (x / 2 + 1) * (2 * p) >= (x + 1) * p)
                by (nonlinear_arith)
                requires
                    x >= 2,
                    p >= 1,
            ;
            assert(2 * p <= m) by (nonlinear_arith)
                requires
                    x >= 2,
                    p >= 1,
                    x * p <= m,
            ;
            assert(k < 48) by {
                if k >= 48 {
                    assert(pow2(48) <= pow2(k as nat)) by {
                        lemma_pow2_increases(48, k as nat);
                    }
                    lemma_pow2_48();
                    assert(p >= 0x1_0000_0000_0000);
                    assert(false);
                }
            }
        }
        x = x / 2;
        k = k + 1;
        p = p * 2;
    }
    proof {
        assert(x == 1);
        assert(p <= m < 2 * p) by (nonlinear_arith)
            requires
                x == 1,
                x * p <= m < (x + 1) * p,
        ;
        assert(m as int * SCALE < 2 * (p as int) * SCALE) by (nonlinear_arith)
            requires
                m < 2 * p,
                SCALE > 0,
        ;
        assert(m as int * SCALE / (p as int) < 2 * SCALE) by (nonlinear_arith)
            requires
                m as int * SCALE < 2 * (p as int) * SCALE,
                p > 0,
        ;
        assert(m as int * SCALE / (p as int) >= SCALE) by (nonlinear_arith)
            requires
                p <= m,
                p > 0,
                SCALE > 0,
        ;
    }
    let frac: u64 = m * SCALE / p - SCALE;
    proof {
        assert(frac as int * LN2_FP / (SCALE as int) <= LN2_FP) by (nonlinear_arith)
            requires
                frac < SCALE,
                SCALE > 0,
                LN2_FP > 0,
        ;
    }
    k * LN2_FP + frac * LN2_FP / SCALE
}

pub proof fn lemma_pow2_48()
    ensures
        pow2(48) == 0x1_0000_0000_0000,
{
    reveal_with_fuel(pow2, 49);
}

pub proof fn lemma_pow2_increases(a: nat, b: nat)
    requires
        a <= b,
    ensures
        pow2(a) <= pow2(b),
    decreases b,
{
    if a < b {
        lemma_pow2_increases(a, (b - 1) as nat);
        assert(pow2((b - 1) as nat) >= 1) by {
            lemma_pow2_pos((b - 1) as nat);
        }
    }
}

pub proof fn lemma_pow2_pos(e: nat)
    ensures
        pow2(e) >= 1,
    decreases e,
{
    if e > 0 {
        lemma_pow2_pos((e - 1) as nat);
    }
}

/// The selection score in fixed point, matching `score_fp`.
pub fn score_fixed(value_half: u64, visits: u64, parent_visits: u64, c2x2: u64) -> (r: u64)
    requires
        visits >= 1,
        value_half <= 2 * visits,
        c2x2 <= SCALE,
    ensures
        r == score_fp(value_half, visits, parent_visits, c2x2),
{
    proof {
        assert(value_half as int * SCALE <= 0xFFFF_FFFF_FFFF_FFFFint * SCALE) by (nonlinear_arith)
            requires
                value_half <= 0xFFFF_FFFF_FFFF_FFFFu64,
        ;
        assert(0 <= value_half as int * SCALE / (2 * visits as int) <= SCALE) by (nonlinear_arith)
            requires
                visits >= 1,
                value_half <= 2 * visits,
                SCALE > 0,
        ;
    }
    let exploit: u64 = (SCALE as u128 - value_half as u128 * SCALE as u128 / (2 * visits as u128))
        as u64;
    let lf: u64 = ln_fixed(parent_visits);
    proof {
        assert(c2x2 as int * lf <= SCALE * (49 * LN2_FP)) by (nonlinear_arith)
            requires
                c2x2 <= SCALE,
                lf <= 49 * LN2_FP,
        ;
    }
    let prod: u64 = c2x2 * lf;
    let explore: u64 = isqrt(prod / visits);
    exploit + explore
}

} // verus!
