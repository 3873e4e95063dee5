//! Fixed-point rendering of the UCB1 selection rule.
//!
//! The score of a visited child is `average + C * sqrt(ln(N) / n)`, with `N`
//! the parent's visit count and `n` the child's.  Averages are exact
//! rationals (value total over visit count); the exploration bonus is
//! computed in fixed point (multiples of `1 / FP_SCALE`) with a
//! piecewise-linear binary logarithm and an integer square root; scores are
//! compared exactly by cross-multiplication, so selection is deterministic.

use vstd::arithmetic::power2::{lemma_pow2_adds, lemma_pow2_pos, lemma_pow2_strictly_increases, pow2};
use vstd::prelude::*;

use crate::constants::{FP_SCALE, LN2_FP};

verus! {

/// The floor of the binary logarithm.
pub open spec fn spec_log2(n: nat) -> nat
    decreases n,
{
    if n < 2 {
        0
    } else {
        1 + spec_log2(n / 2)
    }
}

/// `spec_log2` brackets its argument between two adjacent powers of two.
pub proof fn lemma_log2_bracket(n: nat)
    requires
        n >= 1,
    ensures
        pow2(spec_log2(n)) <= n < pow2(spec_log2(n) + 1),
    decreases n,
{
    if n < 2 {
        vstd::arithmetic::power2::lemma2_to64();
    } else {
        lemma_log2_bracket(n / 2);
        let l = spec_log2(n / 2);
        lemma_pow2_adds(l, 1);
        lemma_pow2_adds(l + 1, 1);
        vstd::arithmetic::power2::lemma2_to64();
        assert(n >= 2 * (n / 2) >= 2 * pow2(l));
        assert(n <= 2 * (n / 2) + 1 < 2 * pow2(l + 1));
    }
}

/// A bound on the argument bounds the binary logarithm.
pub proof fn lemma_log2_at_most(n: nat, e: nat)
    requires
        1 <= n,
        n < pow2(e),
    ensures
        spec_log2(n) < e,
{
    lemma_log2_bracket(n);
    if spec_log2(n) >= e {
        lemma_pow2_pos(e);
        if spec_log2(n) > e {
            lemma_pow2_strictly_increases(e, spec_log2(n));
        }
    }
}

/// The floor of the binary logarithm, executable form.
fn floor_log2(n: u64) -> (r: u64)
    requires
        n >= 1,
    ensures
        r as nat == spec_log2(n as nat),
        r <= 63,
{
    let mut v: u64 = n;
    let mut r: u64 = 0;

    proof {
        vstd::arithmetic::power2::lemma2_to64();
    }
    while v >= 2
        invariant
            v >= 1,
            spec_log2(n as nat) == r as nat + spec_log2(v as nat),
            v as nat * pow2(r as nat) <= n as nat,
            r <= 63,
        decreases v,
    {
        proof {
            // Stepping keeps the product bound: (v / 2) * pow2(r + 1) <= v * pow2(r).
            lemma_pow2_adds(r as nat, 1);
            vstd::arithmetic::power2::lemma2_to64();
            lemma_pow2_pos(r as nat);
            assert((v as nat / 2) * (2 * pow2(r as nat)) <= v as nat * pow2(r as nat))
                by (nonlinear_arith)
                requires
                    v >= 1,
                    pow2(r as nat) >= 1,
            {}
            // r stays below 64: otherwise the product bound would exceed n.
            assert(2 * pow2(r as nat) <= v as nat * pow2(r as nat)) by (nonlinear_arith)
                requires
                    v >= 2,
                    pow2(r as nat) >= 1,
            {}
            if r >= 63 {
                lemma_pow2_adds(63, 1);
                vstd::arithmetic::power2::lemma2_to64_rest();
            }
        }
        v = v / 2;
        r = r + 1;
    }

    r
}

/// `pow2`, executable form for small exponents.
fn pow2_exec(e: u64) -> (r: u64)
    requires
        e <= 62,
    ensures
        r as nat == pow2(e as nat),
        r >= 1,
{
    let mut r: u64 = 1;
    let mut i: u64 = 0;

    proof {
        vstd::arithmetic::power2::lemma2_to64();
    }
    while i < e
        invariant
            i <= e,
            e <= 62,
            r as nat == pow2(i as nat),
            r >= 1,
        decreases e - i,
    {
        proof {
            lemma_pow2_adds(i as nat, 1);
            vstd::arithmetic::power2::lemma2_to64();
            lemma_pow2_increase_bound(i as nat, 62);
            vstd::arithmetic::power2::lemma2_to64_rest();
        }
        r = r * 2;
        i = i + 1;
    }

    r
}

/// `pow2` is monotone (helper for overflow bounds).
proof fn lemma_pow2_increase_bound(e1: nat, e2: nat)
    requires
        e1 <= e2,
    ensures
        pow2(e1) <= pow2(e2),
{
    if e1 < e2 {
        lemma_pow2_strictly_increases(e1, e2);
    }
}

/// The binary logarithm in fixed point: the integer part is `spec_log2`, the
/// fractional part interpolates linearly between adjacent powers of two.
pub open spec fn log2_fp_spec(n: nat) -> nat {
    let l = spec_log2(n);
    l * (FP_SCALE as nat) + (((n - pow2(l)) * FP_SCALE) as nat) / pow2(l)
}

/// The natural logarithm in fixed point: the fixed-point binary logarithm
/// rescaled by `ln(2)`.
pub open spec fn ln_fp_spec(n: nat) -> nat {
    (log2_fp_spec(n) * (LN2_FP as nat)) / (FP_SCALE as nat)
}

/// Floor division by a positive divisor is monotone in the dividend.
pub(crate) proof fn lemma_div_le(a: int, b: int, d: int)
    requires
        0 <= a <= b,
        d >= 1,
    ensures
        a / d <= b / d,
{
    vstd::arithmetic::div_mod::lemma_div_is_ordered(a, b, d);
}

/// A dividend below `c * d` has quotient below `c`.
pub(crate) proof fn lemma_div_below(a: int, d: int, c: int)
    requires
        0 <= a,
        d >= 1,
        a < c * d,
    ensures
        a / d < c,
{
    assert(a / d < c) by (nonlinear_arith)
        requires
            0 <= a,
            d >= 1,
            a < c * d,
    {}
}

/// The natural logarithm in fixed point, executable form.
fn ln_fp(n: u64) -> (r: u64)
    requires
        1 <= n <= u32::MAX as u64,
    ensures
        r as nat == ln_fp_spec(n as nat),
        r < 32 * LN2_FP,
{
    let k = floor_log2(n);
    proof {
        vstd::arithmetic::power2::lemma2_to64();
        lemma_log2_at_most(n as nat, 32);
        lemma_log2_bracket(n as nat);
    }
    let p = pow2_exec(k);
    let frac: u64 = (n - p) * FP_SCALE / p;
    proof {
        // The fractional part stays below one: n - p < pow2(k + 1) - pow2(k) = p.
        lemma_pow2_adds(k as nat, 1);
        vstd::arithmetic::power2::lemma2_to64();
        assert((((n - p) * FP_SCALE) as int) < (FP_SCALE as int) * (p as int)) by (nonlinear_arith)
            requires
                0 <= ((n - p) as int) < (p as int),
                FP_SCALE >= 1,
        {}
        lemma_div_below(((n - p) * FP_SCALE) as int, p as int, FP_SCALE as int);
    }
    let log_fp: u64 = k * FP_SCALE + frac;
    proof {
        assert(log_fp as nat == log2_fp_spec(n as nat));
        // Rescaling by ln(2) keeps the value below 32 * LN2_FP.
        assert((log_fp as int) * (LN2_FP as int) < (32 * LN2_FP as int) * (FP_SCALE as int))
            by (nonlinear_arith)
            requires
                (log_fp as int) < 32 * (FP_SCALE as int),
                LN2_FP >= 1,
                FP_SCALE >= 1,
        {}
        lemma_div_below((log_fp as int) * (LN2_FP as int), FP_SCALE as int, 32 * LN2_FP as int);
    }
    log_fp * LN2_FP / FP_SCALE
}

/// The floor of the square root.
pub open spec fn spec_isqrt(y: nat) -> nat
    decreases y,
{
    if y == 0 {
        0
    } else {
        let r = spec_isqrt((y - 1) as nat);
        if (r + 1) * (r + 1) <= y {
            r + 1
        } else {
            r
        }
    }
}

/// `spec_isqrt` brackets its argument between two adjacent squares.
pub proof fn lemma_isqrt_bracket(y: nat)
    ensures
        spec_isqrt(y) * spec_isqrt(y) <= y,
        y < (spec_isqrt(y) + 1) * (spec_isqrt(y) + 1),
    decreases y,
{
    if y > 0 {
        lemma_isqrt_bracket((y - 1) as nat);
        let r0 = spec_isqrt((y - 1) as nat);
        assert(r0 * r0 <= y - 1);
        assert(y - 1 < (r0 + 1) * (r0 + 1));
        if (r0 + 1) * (r0 + 1) <= y {
            assert(spec_isqrt(y) == r0 + 1);
            assert(y == (r0 + 1) * (r0 + 1));
            assert((r0 + 1) * (r0 + 1) < (r0 + 2) * (r0 + 2)) by (nonlinear_arith)
                requires
                    r0 >= 0,
            {}
            assert(y < (spec_isqrt(y) + 1) * (spec_isqrt(y) + 1));
        } else {
            assert(spec_isqrt(y) == r0);
        }
    } else {
        let s = spec_isqrt(y);
        assert(s == 0);
        assert((s + 1) * (s + 1) == 1) by (nonlinear_arith)
            requires
                s == 0,
        {}
    }
}

/// The bracket property determines the square root uniquely.
proof fn lemma_isqrt_unique(y: nat, r: nat)
    requires
        r * r <= y,
        y < (r + 1) * (r + 1),
    ensures
        r == spec_isqrt(y),
{
    lemma_isqrt_bracket(y);
    let s = spec_isqrt(y);
    assert(r == s) by (nonlinear_arith)
        requires
            r * r <= y,
            y < (r + 1) * (r + 1),
            s * s <= y,
            y < (s + 1) * (s + 1),
    {}
}

/// The floor of the square root, executable form: binary search for the
/// largest root whose square does not exceed the argument.
fn isqrt(y: u64) -> (r: u64)
    requires
        y < 0x4000000000000000,
    ensures
        r as nat == spec_isqrt(y as nat),
{
    let mut lo: u64 = 0;
    let mut hi: u64 = 0x80000000;

    while hi - lo > 1
        invariant
            lo < hi <= 0x80000000,
            (lo as nat) * (lo as nat) <= y as nat,
            (y as nat) < (hi as nat) * (hi as nat),
        decreases hi - lo,
    {
        let mid = lo + (hi - lo) / 2;
        proof {
            assert((mid as nat) * (mid as nat) <= 0x4000000000000000) by (nonlinear_arith)
                requires
                    0 <= (mid as nat) <= 0x80000000,
            {}
        }
        if mid * mid <= y {
            lo = mid;
        } else {
            hi = mid;
        }
    }

    proof {
        lemma_isqrt_unique(y as nat, lo as nat);
    }
    lo
}

/// The UCB1 exploration bonus in fixed point:
/// `C * sqrt(ln(parent_visits) / child_visits)`.
pub open spec fn ucb_bonus_spec(uct_exploration: nat, parent_visits: nat, child_visits: nat) -> nat {
    let ratio = (ln_fp_spec(parent_visits) * (FP_SCALE as nat)) / child_visits;
    (uct_exploration * spec_isqrt(ratio)) / (FP_SCALE as nat)
}

/// The UCB1 exploration bonus, executable form.
pub fn ucb_bonus(uct_exploration: u32, parent_visits: u32, child_visits: u32) -> (r: u64)
    requires
        parent_visits >= 1,
        child_visits >= 1,
    ensures
        r as nat == ucb_bonus_spec(
            uct_exploration as nat,
            parent_visits as nat,
            child_visits as nat,
        ),
        r < 0x1000000000,
{
    let l = ln_fp(parent_visits as u64);
    proof {
        // The scaled logarithm stays below 2^37, so the ratio under the
        // square root does too.
        assert((l as int) * (FP_SCALE as int) < 0x2000000000) by (nonlinear_arith)
            requires
                0 <= (l as int) < 32 * 45426,
                FP_SCALE == 65536,
        {}
    }
    let ratio: u64 = l * FP_SCALE / (child_visits as u64);
    proof {
        lemma_div_le_self((l * FP_SCALE) as int, child_visits as int);
    }
    let s = isqrt(ratio);
    proof {
        // A root of a value below 2^37 stays below 2^19; the bonus therefore
        // fits comfortably after the final division.
        lemma_isqrt_bracket(ratio as nat);
        assert(s as nat <= 0x7FFFF) by (nonlinear_arith)
            requires
                (s as nat) * (s as nat) <= ratio as nat,
                (ratio as nat) < 0x2000000000,
        {}
        assert((uct_exploration as int) * (s as int) < 0x1000000000 * (FP_SCALE as int))
            by (nonlinear_arith)
            requires
                uct_exploration <= 0xFFFFFFFFu32,
                0 <= (s as int) <= 0x7FFFF,
                FP_SCALE == 65536,
        {}
        lemma_div_below(
            (uct_exploration as int) * (s as int),
            FP_SCALE as int,
            0x1000000000,
        );
    }
    (uct_exploration as u64) * s / FP_SCALE
}

/// Dividing a non-negative value by a positive divisor cannot increase it.
pub(crate) proof fn lemma_div_le_self(a: int, d: int)
    requires
        a >= 0,
        d >= 1,
    ensures
        a / d <= a,
{
    assert(a / d <= a) by (nonlinear_arith)
        requires
            a >= 0,
            d >= 1,
    {}
}

/// The exact numerator of a node's UCB1 score over the denominator
/// `visits * FP_SCALE`: the value total scaled to fixed point, plus the
/// exploration bonus weighted by the visit count.
pub open spec fn score_num(total: int, visits: int, bonus: int) -> int {
    total * FP_SCALE + bonus * visits
}

/// Exact comparison of two UCB1 scores, as rationals with positive
/// denominators, by cross-multiplication.
pub open spec fn score_lt(
    total_a: int,
    visits_a: int,
    bonus_a: int,
    total_b: int,
    visits_b: int,
    bonus_b: int,
) -> bool {
    score_num(total_a, visits_a, bonus_a) * visits_b < score_num(total_b, visits_b, bonus_b)
        * visits_a
}

/// Exact score comparison, executable form.
pub fn score_lt_exec(
    total_a: i64,
    visits_a: u32,
    bonus_a: u64,
    total_b: i64,
    visits_b: u32,
    bonus_b: u64,
) -> (r: bool)
    requires
        visits_a >= 1,
        visits_b >= 1,
        i32::MIN * (visits_a as int) <= (total_a as int) <= i32::MAX * (visits_a as int),
        i32::MIN * (visits_b as int) <= (total_b as int) <= i32::MAX * (visits_b as int),
        bonus_a < 0x1000000000,
        bonus_b < 0x1000000000,
    ensures
        r == score_lt(
            total_a as int,
            visits_a as int,
            bonus_a as int,
            total_b as int,
            visits_b as int,
            bonus_b as int,
        ),
{
    proof {
        lemma_score_num_bound(total_a as int, visits_a as int, bonus_a as int);
        lemma_score_num_bound(total_b as int, visits_b as int, bonus_b as int);
        let na = score_num(total_a as int, visits_a as int, bonus_a as int);
        let nb = score_num(total_b as int, visits_b as int, bonus_b as int);
        assert(-0x100000000000000000000000000000 < na * (visits_b as int)
            < 0x100000000000000000000000000000) by (nonlinear_arith)
            requires
                -0x1000000000000000000000 < na < 0x1000000000000000000000,
                1 <= (visits_b as int) <= 0x100000000,
        {}
        assert(-0x100000000000000000000000000000 < nb * (visits_a as int)
            < 0x100000000000000000000000000000) by (nonlinear_arith)
            requires
                -0x1000000000000000000000 < nb < 0x1000000000000000000000,
                1 <= (visits_a as int) <= 0x100000000,
        {}
    }
    let na: i128 = (total_a as i128) * (FP_SCALE as i128) + (bonus_a as i128) * (visits_a as i128);
    let nb: i128 = (total_b as i128) * (FP_SCALE as i128) + (bonus_b as i128) * (visits_b as i128);
    na * (visits_b as i128) < nb * (visits_a as i128)
}

/// Comparison of rationals with positive denominators is transitive, in
/// the less-or-equal / less-than combination: `a <= b` and `b < c` give
/// `a < c` (each rational is a numerator over its denominator).
pub proof fn lemma_rational_le_lt_trans(na: int, va: int, nb: int, vb: int, nc: int, vc: int)
    requires
        va >= 1,
        vb >= 1,
        vc >= 1,
        na * vb <= nb * va,
        nb * vc < nc * vb,
    ensures
        na * vc < nc * va,
{
    assert((na * vb) * vc <= (nb * va) * vc) by (nonlinear_arith)
        requires
            vc >= 1,
            na * vb <= nb * va,
    {}
    assert((nb * vc) * va < (nc * vb) * va) by (nonlinear_arith)
        requires
            va >= 1,
            nb * vc < nc * vb,
    {}
    assert((na * vc) * vb < (nc * va) * vb) by (nonlinear_arith)
        requires
            (na * vb) * vc <= (nb * va) * vc,
            (nb * vc) * va < (nc * vb) * va,
    {}
    assert(na * vc < nc * va) by (nonlinear_arith)
        requires
            vb >= 1,
            (na * vc) * vb < (nc * va) * vb,
    {}
}

/// Strict rational comparison is transitive.
pub proof fn lemma_rational_lt_trans(na: int, va: int, nb: int, vb: int, nc: int, vc: int)
    requires
        va >= 1,
        vb >= 1,
        vc >= 1,
        na * vb < nb * va,
        nb * vc < nc * vb,
    ensures
        na * vc < nc * va,
{
    lemma_rational_le_lt_trans(na, va, nb, vb, nc, vc);
}

/// A score numerator built from bounded parts is itself bounded.
proof fn lemma_score_num_bound(total: int, visits: int, bonus: int)
    requires
        1 <= visits <= 0x100000000,
        i32::MIN * visits <= total <= i32::MAX * visits,
        0 <= bonus < 0x1000000000,
    ensures
        -0x100000000000000000000 <= total * FP_SCALE <= 0x100000000000000000000,
        0 <= bonus * visits < 0x10000000000000000000,
        -0x1000000000000000000000 < score_num(total, visits, bonus) < 0x1000000000000000000000,
{
    assert(-0x8000000000000000 <= total <= 0x8000000000000000) by (nonlinear_arith)
        requires
            1 <= visits <= 0x100000000,
            i32::MIN * visits <= total <= i32::MAX * visits,
    {}
    assert(-0x100000000000000000000 <= total * FP_SCALE <= 0x100000000000000000000)
        by (nonlinear_arith)
        requires
            -0x8000000000000000 <= total <= 0x8000000000000000,
            FP_SCALE == 65536,
    {}
    assert(0 <= bonus * visits < 0x10000000000000000000) by (nonlinear_arith)
        requires
            1 <= visits <= 0x100000000,
            0 <= bonus < 0x1000000000,
    {}
}

} // verus!
