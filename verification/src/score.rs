//! Fixed-point arithmetic for the UCT selection score.
//!
//! Selection ranks children by `wins / visits + sqrt(2 * ln(parent_visits)
//! / visits)`. The engine keeps all statistics in integers, so the score is
//! computed in fixed point: values carry [`SCALE`] sub-units per whole
//! unit, the natural logarithm is interpolated linearly between powers of
//! two, and the square root rounds down. Every function here is proved
//! equal to its defining spec function.

use vstd::prelude::*;

verus! {

/// Fixed-point sub-units per whole unit.
pub const SCALE: u64 = 1000000;

/// ln(2) in [`SCALE`] sub-units, rounded down.
pub const LN2_SCALED: u64 = 693147;

/// Floor of the base-2 logarithm; 0 for inputs below 2.
pub open spec fn log2_floor(n: int) -> int
    decreases n,
{
    if n < 2 {
        0
    } else {
        1 + log2_floor(n / 2)
    }
}

/// 2 to the power `k`; 1 for non-positive `k`.
pub open spec fn pow2(k: int) -> int
    decreases k,
{
    if k <= 0 {
        1
    } else {
        2 * pow2(k - 1)
    }
}

/// The natural logarithm in [`SCALE`] sub-units, interpolated linearly
/// between consecutive powers of two; 0 for inputs below 2.
pub open spec fn ln_scaled(n: int) -> int {
    if n <= 1 {
        0
    } else {
        (LN2_SCALED as int) * log2_floor(n) + (n - pow2(log2_floor(n))) * (LN2_SCALED as int)
            / pow2(log2_floor(n))
    }
}

/// The integer square root, rounded down; 0 for negative inputs.
pub open spec fn sqrt_floor(x: int) -> int
    decreases x,
{
    if x <= 0 {
        0
    } else {
        let r = sqrt_floor(x - 1);
        if (r + 1) * (r + 1) <= x {
            r + 1
        } else {
            r
        }
    }
}

/// The UCT score of a child, in [`SCALE`] sub-units: the exploitation
/// term `wins / visits` plus the exploration term
/// `sqrt(2 * ln(parent_visits) / visits)`, each rounded down. Wins are
/// counted in half-points, so the exploitation term divides by twice the
/// visit count.
pub open spec fn spec_uct(parent_visits: int, child_wins_half: int, child_visits: int) -> int {
    child_wins_half * (SCALE as int) / (2 * child_visits) + sqrt_floor(
        2 * ln_scaled(parent_visits) * (SCALE as int) / child_visits,
    )
}

pub proof fn lemma_pow2_pos(k: int)
    ensures
        pow2(k) >= 1,
    decreases k,
{
    if k > 0 {
        lemma_pow2_pos(k - 1);
    }
}

/// `log2_floor` is the unique `k` with `pow2(k) <= n < pow2(k + 1)`.
pub proof fn lemma_log2_floor_of(n: int, k: int)
    requires
        k >= 0,
        pow2(k) <= n,
        n < pow2(k + 1),
    ensures
        log2_floor(n) == k,
    decreases k,
{
    lemma_pow2_pos(k);
    if k == 0 {
        assert(n == 1);
    } else {
        assert(pow2(k) == 2 * pow2(k - 1));
        assert(pow2(k + 1) == 2 * pow2(k));
        assert(n >= 2);
        assert(pow2(k - 1) <= n / 2);
        assert(n / 2 < pow2(k));
        lemma_log2_floor_of(n / 2, k - 1);
    }
}

/// The powers of two around `n` bracket it: `pow2(log2_floor(n))` is at
/// most `n`, and the next power exceeds it.
pub proof fn lemma_log2_floor_brackets(n: int)
    requires
        n >= 1,
    ensures
        0 <= log2_floor(n),
        pow2(log2_floor(n)) <= n,
        n < pow2(log2_floor(n) + 1),
    decreases n,
{
    if n < 2 {
    } else {
        lemma_log2_floor_brackets(n / 2);
        assert(pow2(log2_floor(n)) == 2 * pow2(log2_floor(n / 2)));
    }
}

/// Squares of non-negative integers are monotone, strictly so.
proof fn lemma_square_monotone(a: int, b: int)
    requires
        0 <= a < b,
    ensures
        a * a < b * b,
{
    assert(a * a < b * b) by (nonlinear_arith)
        requires
            0 <= a < b,
    ;
}

/// `sqrt_floor(x)` is the greatest integer whose square is at most `x`.
pub proof fn lemma_sqrt_floor_bounds(x: int)
    requires
        x >= 0,
    ensures
        0 <= sqrt_floor(x),
        sqrt_floor(x) * sqrt_floor(x) <= x,
        x < (sqrt_floor(x) + 1) * (sqrt_floor(x) + 1),
    decreases x,
{
    if x > 0 {
        lemma_sqrt_floor_bounds(x - 1);
        let r = sqrt_floor(x - 1);
        if (r + 1) * (r + 1) <= x {
            assert(x < ((r + 1) + 1) * ((r + 1) + 1)) by (nonlinear_arith)
                requires
                    0 <= r,
                    x - 1 < (r + 1) * (r + 1),
            ;
        }
    }
}

/// Any `r` whose square is at most `x` while the next square exceeds it
/// is `sqrt_floor(x)`.
pub proof fn lemma_sqrt_floor_unique(x: int, r: int)
    requires
        x >= 0,
        r >= 0,
        r * r <= x,
        x < (r + 1) * (r + 1),
    ensures
        r == sqrt_floor(x),
{
    let s = sqrt_floor(x);
    lemma_sqrt_floor_bounds(x);
    if r < s {
        lemma_square_monotone(r + 1, s + 1);
        assert(s * s <= (s + 1) * (s + 1)) by (nonlinear_arith)
            requires
                0 <= s,
        ;
        lemma_square_monotone(r, s);
        assert((r + 1) * (r + 1) <= s * s) by (nonlinear_arith)
            requires
                0 <= r < s,
        ;
    }
    if s < r {
        assert((s + 1) * (s + 1) <= r * r) by (nonlinear_arith)
            requires
                0 <= s < r,
        ;
    }
}

/// `log2_floor` never exceeds 63 on 64-bit values.
pub proof fn lemma_log2_floor_u64(n: int)
    requires
        1 <= n <= u64::MAX,
    ensures
        0 <= log2_floor(n) <= 63,
        pow2(log2_floor(n)) <= u64::MAX,
{
    lemma_log2_floor_brackets(n);
    let k = log2_floor(n);
    if k > 63 {
        lemma_pow2_mono(64, k);
        assert(pow2(64) == 2 * pow2(63));
        lemma_pow2_63();
    }
}

proof fn lemma_pow2_mono(a: int, b: int)
    requires
        0 <= a <= b,
    ensures
        pow2(a) <= pow2(b),
    decreases b - a,
{
    if a < b {
        lemma_pow2_mono(a, b - 1);
        lemma_pow2_pos(b - 1);
    }
}

proof fn lemma_pow2_63()
    ensures
        pow2(63) == 0x8000000000000000,
{
    assert(pow2(63) == 0x8000000000000000) by {
        reveal_with_fuel(pow2, 64);
    }
}

/// The scaled logarithm of a 64-bit value stays below 64 ln(2).
pub proof fn lemma_ln_scaled_bound(n: int)
    requires
        0 <= n <= u64::MAX,
    ensures
        0 <= ln_scaled(n),
        ln_scaled(n) <= 64 * (LN2_SCALED as int),
{
    if n > 1 {
        lemma_log2_floor_u64(n);
        lemma_log2_floor_brackets(n);
        let k = log2_floor(n);
        let p = pow2(k);
        assert(pow2(k + 1) == 2 * p);
        assert(n - p < p);
        assert(0 <= (n - p) * (LN2_SCALED as int) / p < (LN2_SCALED as int)) by (nonlinear_arith)
            requires
                p >= 1,
                0 <= n - p < p,
        ;
        assert((LN2_SCALED as int) * k <= (LN2_SCALED as int) * 63) by (nonlinear_arith)
            requires
                k <= 63,
        ;
    }
}

/// Floor of the base-2 logarithm of a 64-bit value.
fn log2_floor_exec(n: u64) -> (k: u64)
    requires
        n >= 1,
    ensures
        k == log2_floor(n as int),
        k <= 63,
{
    let mut k: u64 = 0;
    let mut p: u64 = 1;
    while p <= n / 2
        invariant
            n >= 1,
            p == pow2(k as int),
            p <= n,
            k <= 63,
        decreases n - p,
    {
        proof {
            lemma_pow2_pos(k as int);
            if k >= 63 {
                lemma_pow2_63();
                lemma_pow2_mono(63, k as int);
            }
        }
        p = p * 2;
        k = k + 1;
    }
    proof {
        assert(n < 2 * p) by {
            assert(p > n / 2);
        };
        assert(pow2(k as int + 1) == 2 * p);
        lemma_log2_floor_of(n as int, k as int);
    }
    k
}

/// 2 to the power `k`, for exponents that fit a 64-bit result.
fn pow2_exec(k: u64) -> (p: u64)
    requires
        k <= 63,
    ensures
        p == pow2(k as int),
{
    let mut i: u64 = 0;
    let mut p: u64 = 1;
    while i < k
        invariant
            i <= k,
            k <= 63,
            p == pow2(i as int),
        decreases k - i,
    {
        proof {
            lemma_pow2_mono(i as int + 1, 63);
            lemma_pow2_63();
        }
        p = p * 2;
        i = i + 1;
    }
    p
}

/// The natural logarithm of `n` in [`SCALE`] sub-units, interpolated
/// linearly between consecutive powers of two.
pub fn ln_fixed(n: u64) -> (r: u64)
    ensures
        r == ln_scaled(n as int),
        r <= 64 * LN2_SCALED,
{
    if n <= 1 {
        return 0;
    }
    let k = log2_floor_exec(n);
    let p = pow2_exec(k);
    proof {
        lemma_log2_floor_brackets(n as int);
        assert(pow2(k as int + 1) == 2 * pow2(k as int));
        assert(n - p < p);
        assert(0 <= ((n - p) as int) * (LN2_SCALED as int) / (p as int) < (LN2_SCALED as int))
            by (nonlinear_arith)
            requires
                p >= 1,
                0 <= ((n - p) as int) < (p as int),
        ;
        lemma_ln_scaled_bound(n as int);
    }
    let frac = (((n - p) as u128) * (LN2_SCALED as u128) / (p as u128)) as u64;
    LN2_SCALED * k + frac
}

/// The integer square root of `x`, rounded down.
pub fn isqrt(x: u64) -> (r: u64)
    ensures
        r == sqrt_floor(x as int),
        r <= 4294967295,
{
    proof {
        lemma_sqrt_floor_bounds(x as int);
    }
    let mut lo: u64 = 0;
    let mut hi: u64 = 4294967296;
    proof {
        assert((4294967296 as int) * (4294967296 as int) > u64::MAX);
    }
    while lo + 1 < hi
        invariant
            lo < hi,
            hi <= 4294967296,
            (lo as int) * (lo as int) <= x as int,
            (x as int) < (hi as int) * (hi as int),
        decreases hi - lo,
    {
        let mid = lo + (hi - lo) / 2;
        proof {
            assert((mid as int) * (mid as int) <= 4294967296 * 4294967296) by (nonlinear_arith)
                requires
                    0 <= (mid as int) <= 4294967296,
            ;
        }
        let sq = (mid as u128) * (mid as u128);
        if sq <= x as u128 {
            lo = mid;
        } else {
            hi = mid;
        }
    }
    proof {
        lemma_sqrt_floor_unique(x as int, lo as int);
    }
    lo
}

/// The UCT score of a child with `child_visits` rollouts and
/// `child_wins_half` half-point wins, under a parent with
/// `parent_visits` rollouts, in [`SCALE`] sub-units.
pub fn uct(parent_visits: u64, child_wins_half: u64, child_visits: u64) -> (r: u64)
    requires
        child_visits >= 1,
        child_wins_half <= 2 * child_visits,
    ensures
        r == spec_uct(parent_visits as int, child_wins_half as int, child_visits as int),
{
    proof {
        assert((child_wins_half as int) * (SCALE as int) <= 0xFFFFFFFFFFFFFFFF * 1000000)
            by (nonlinear_arith)
            requires
                0 <= (child_wins_half as int) <= 0xFFFFFFFFFFFFFFFF,
                SCALE == 1000000,
        ;
    }
    let exploit = (((child_wins_half as u128) * (SCALE as u128)) / (2 * (child_visits as u128)))
        as u64;
    proof {
        assert(0 <= (child_wins_half as int) * (SCALE as int) / (2 * (child_visits as int))
            <= SCALE) by (nonlinear_arith)
            requires
                child_visits >= 1,
                0 <= child_wins_half <= 2 * (child_visits as int),
                SCALE == 1000000,
        ;
    }
    let lnv = ln_fixed(parent_visits);
    let arg = 2 * lnv * SCALE / child_visits;
    let explore = isqrt(arg);
    proof {
        lemma_sqrt_floor_bounds(arg as int);
        assert(sqrt_floor(arg as int) <= 0x10000000000) by {
            if sqrt_floor(arg as int) > 0x10000000000 {
                assert((0x10000000000 as int) * (0x10000000000 as int) <= sqrt_floor(arg as int)
                    * sqrt_floor(arg as int)) by (nonlinear_arith)
                    requires
                        0x10000000000 <= sqrt_floor(arg as int),
                ;
            }
        };
    }
    exploit + explore
}

} // verus!
