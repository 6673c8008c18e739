//! The UCT scorer: an exploration-weighted priority for a candidate child.
//!
//! A child that was never visited gets the greatest representable
//! priority, so every child is visited once before any statistics are
//! compared. Otherwise the priority is the canonical UCT1 value
//! `score / visits + c * sqrt(ln(total_visits) / visits)` with
//! `c = sqrt(2)`, computed in fixed-point arithmetic: a value `x` is
//! carried as the integer `x * 65536`, the natural logarithm is
//! interpolated linearly between powers of two, and the square root is
//! rounded down. The exact value computed is pinned by `uct_spec`.

use vstd::arithmetic::div_mod::lemma_fundamental_div_mod;
use vstd::arithmetic::mul::lemma_mul_inequality;
use vstd::prelude::*;

verus! {

/// The fixed-point scale: priorities carry sixteen fractional bits.
pub const FP: u64 = 65536;

/// `ln(2) * FP`, rounded down.
pub const LN2_FP: u64 = 45426;

/// The exploration constant `sqrt(2) * FP`, rounded down.
pub const UCT_C_FP: u64 = 92681;

/// `2^k`.
pub open spec fn two_pow(k: nat) -> nat
    decreases k,
{
    if k == 0 {
        1
    } else {
        2 * two_pow((k - 1) as nat)
    }
}

/// The position of the highest set bit: `floor(log2(n))` for `n >= 1`.
pub open spec fn log2_floor(n: nat) -> nat
    decreases n,
{
    if n < 2 {
        0
    } else {
        (1 + log2_floor(n / 2)) as nat
    }
}

/// `ln(n) * FP`, approximated by linear interpolation between
/// consecutive powers of two: with `k = floor(log2 n)` and `p = 2^k`,
/// the value is `(k + (n - p)/p) * ln(2) * FP`, rounded down at each
/// division. `ln_fp_spec(0)` is defined as 0; the scorer only reads it
/// when every child statistic is zero and the result is then unused.
pub open spec fn ln_fp_spec(n: nat) -> int {
    if n == 0 {
        0
    } else {
        let k = log2_floor(n) as int;
        let p = two_pow(log2_floor(n)) as int;
        let frac = ((n - p) * (FP as int)) / p;
        ((k * (FP as int) + frac) * (LN2_FP as int)) / (FP as int)
    }
}

/// `floor(sqrt(n))`.
pub open spec fn sqrt_floor(n: nat) -> nat
    decreases n,
{
    if n == 0 {
        0
    } else {
        let s = sqrt_floor((n - 1) as nat);
        if (s + 1) * (s + 1) <= n {
            (s + 1) as nat
        } else {
            s
        }
    }
}

/// Clamps a mathematical integer into the representable score range.
pub open spec fn clamp_i64(x: int) -> int {
    if x > i64::MAX {
        i64::MAX as int
    } else if x < i64::MIN {
        i64::MIN as int
    } else {
        x
    }
}

/// Division that truncates toward zero (for a positive divisor).
pub open spec fn div_trunc(a: int, b: int) -> int {
    if a >= 0 {
        a / b
    } else {
        -((-a) / b)
    }
}

/// The exact priority the scorer computes. A never-visited child gets
/// the greatest representable value; otherwise the fixed-point UCT1
/// formula, clamped into the representable range.
pub open spec fn uct_spec(score: int, visits: nat, total: nat) -> int {
    if visits == 0 {
        i64::MAX as int
    } else {
        let exploit = div_trunc(score * (FP as int), visits as int);
        let ratio = ln_fp_spec(total) / (visits as int);
        let explore = ((UCT_C_FP as int) * (sqrt_floor((ratio * (FP as int)) as nat) as int)) / (
        FP as int);
        clamp_i64(exploit + explore)
    }
}

proof fn lemma_two_pow_pos(k: nat)
    ensures
        two_pow(k) >= 1,
    decreases k,
{
    if k > 0 {
        lemma_two_pow_pos((k - 1) as nat);
    }
}

proof fn lemma_two_pow_increases(a: nat, b: nat)
    requires
        a <= b,
    ensures
        two_pow(a) <= two_pow(b),
    decreases b,
{
    if a < b {
        lemma_two_pow_increases(a, (b - 1) as nat);
        lemma_two_pow_pos((b - 1) as nat);
    }
}

proof fn lemma_two_pow_64()
    ensures
        two_pow(64) == 0x1_0000_0000_0000_0000,
{
    assert(two_pow(64) == 0x1_0000_0000_0000_0000) by {
        reveal_with_fuel(two_pow, 65);
    }
}

/// `x / d < b` whenever `x < d * b`.
proof fn lemma_div_below(x: int, d: int, b: int)
    requires
        0 <= x,
        0 < d,
        x < d * b,
    ensures
        x / d < b,
{
    lemma_fundamental_div_mod(x, d);
    if x / d >= b {
        lemma_mul_inequality(b, x / d, d);
        assert(d * (x / d) == (x / d) * d) by (nonlinear_arith);
        assert(b * d == d * b) by (nonlinear_arith);
    }
}

/// `x / d >= b` whenever `d * b <= x`.
proof fn lemma_div_at_least(x: int, d: int, b: int)
    requires
        0 < d,
        0 <= b,
        d * b <= x,
    ensures
        x / d >= b,
{
    lemma_fundamental_div_mod(x, d);
    if x / d < b {
        lemma_mul_inequality(x / d + 1, b, d);
        assert(d * (x / d) == (x / d) * d) by (nonlinear_arith);
        assert((x / d + 1) * d == (x / d) * d + d) by (nonlinear_arith);
        assert(b * d == d * b) by (nonlinear_arith);
    }
}

/// `2^(log2_floor n) <= n < 2^(log2_floor n + 1)` for `n >= 1`.
proof fn lemma_log2_sandwich(n: nat)
    requires
        n >= 1,
    ensures
        two_pow(log2_floor(n)) <= n,
        n < two_pow((log2_floor(n) + 1) as nat),
    decreases n,
{
    if n < 2 {
        assert(two_pow(0) == 1);
        assert(two_pow(1) == 2);
    } else {
        let h = n / 2;
        assert(h >= 1);
        lemma_log2_sandwich(h);
        lemma_fundamental_div_mod(n as int, 2);
        let l = log2_floor(h);
        assert(log2_floor(n) == l + 1);
        assert(two_pow((l + 1) as nat) == 2 * two_pow(l));
        assert(two_pow((l + 2) as nat) == 2 * two_pow((l + 1) as nat));
    }
}

/// `log2_floor` is the only exponent whose power-of-two window holds `n`.
proof fn lemma_log2_unique(n: nat, k: nat)
    requires
        n >= 1,
        two_pow(k) <= n,
        n < two_pow((k + 1) as nat),
    ensures
        k == log2_floor(n),
{
    let l = log2_floor(n);
    lemma_log2_sandwich(n);
    if k < l {
        lemma_two_pow_increases((k + 1) as nat, l);
    } else if l < k {
        lemma_two_pow_increases((l + 1) as nat, k);
    }
}

proof fn lemma_sqrt_floor_bounds(n: nat)
    ensures
        sqrt_floor(n) * sqrt_floor(n) <= n,
        n < (sqrt_floor(n) + 1) * (sqrt_floor(n) + 1),
    decreases n,
{
    reveal_with_fuel(sqrt_floor, 2);
    if n == 0 {
        assert(sqrt_floor(n) == 0);
        assert(sqrt_floor(n) * sqrt_floor(n) <= n) by (nonlinear_arith)
            requires
                n == 0nat,
                sqrt_floor(n) == 0,
        ;
        assert(n < (sqrt_floor(n) + 1) * (sqrt_floor(n) + 1)) by (nonlinear_arith)
            requires
                n == 0nat,
                sqrt_floor(n) == 0,
        ;
    }
    if n > 0 {
        lemma_sqrt_floor_bounds((n - 1) as nat);
        let s = sqrt_floor((n - 1) as nat);
        assert((s + 2) * (s + 2) > (s + 1) * (s + 1)) by (nonlinear_arith);
        if (s + 1) * (s + 1) <= n {
            assert(sqrt_floor(n) == s + 1);
            assert(sqrt_floor(n) * sqrt_floor(n) <= n);
            assert(n <= (s + 1) * (s + 1));
            assert(n < (sqrt_floor(n) + 1) * (sqrt_floor(n) + 1));
        } else {
            assert(sqrt_floor(n) == s);
            assert(sqrt_floor(n) * sqrt_floor(n) <= n);
            assert(n < (sqrt_floor(n) + 1) * (sqrt_floor(n) + 1));
        }
    }
}

proof fn lemma_sqrt_unique(n: nat, r: nat)
    requires
        r * r <= n,
        n < (r + 1) * (r + 1),
    ensures
        r == sqrt_floor(n),
{
    let s = sqrt_floor(n);
    lemma_sqrt_floor_bounds(n);
    if r < s {
        assert((r + 1) * (r + 1) <= s * s) by (nonlinear_arith)
            requires
                r + 1 <= s,
        ;
    } else if s < r {
        assert((s + 1) * (s + 1) <= r * r) by (nonlinear_arith)
            requires
                s + 1 <= r,
        ;
    }
}

/// `floor(sqrt(n))` by binary search over the answer.
pub fn isqrt(n: u64) -> (r: u64)
    ensures
        r as nat == sqrt_floor(n as nat),
        r as nat * r as nat <= n as nat,
        (n as nat) < (r as nat + 1) * (r as nat + 1),
{
    let mut lo: u64 = 0;
    let mut hi: u64 = 4294967295;
    proof {
        assert((hi as int + 1) * (hi as int + 1) > n as int) by (nonlinear_arith)
            requires
                hi == 4294967295u64,
                n <= u64::MAX,
        ;
    }
    while lo < hi
        invariant
            lo <= hi,
            hi <= 4294967295,
            lo as nat * lo as nat <= n as nat,
            (n as int) < (hi as int + 1) * (hi as int + 1),
        decreases hi - lo,
    {
        let mid: u64 = (lo + hi + 1) / 2;
        proof {
            lemma_div_at_least(lo as int + hi as int + 1, 2, lo as int + 1);
            lemma_div_below(lo as int + hi as int + 1, 2, hi as int + 1);
            assert((mid as int) * (mid as int) <= 4294967295int * 4294967295)
                by (nonlinear_arith)
                requires
                    0 <= (mid as int) <= 4294967295,
            ;
        }
        if (mid as u128) * (mid as u128) <= n as u128 {
            lo = mid;
        } else {
            hi = mid - 1;
        }
    }
    proof {
        lemma_sqrt_unique(n as nat, lo as nat);
    }
    lo
}

/// `ln(n) * FP` in fixed point, by finding the highest set bit and
/// interpolating linearly to the next power of two; equals `ln_fp_spec`.
pub fn ln_fp(n: u64) -> (r: u64)
    ensures
        r as int == ln_fp_spec(n as nat),
        r <= 2907264,
{
    if n == 0 {
        return 0;
    }
    let mut k: u64 = 0;
    let mut p: u64 = 1;
    let mut m: u64 = n;
    proof {
        assert(two_pow(0) == 1);
    }
    while m >= 2
        invariant
            n >= 1,
            1 <= p,
            p as nat == two_pow(k as nat),
            m as int == n as int / p as int,
            p <= n,
            k <= 63,
        decreases m,
    {
        proof {
            // m >= 2 means n / p >= 2, so n >= 2 * p and the doubled power
            // still fits; its exponent stays below 64.
            lemma_fundamental_div_mod(n as int, p as int);
            assert(p as int * (n as int / p as int) >= p as int * 2) by (nonlinear_arith)
                requires
                    n as int / p as int >= 2,
                    p >= 1,
            ;
            assert(two_pow((k + 1) as nat) == 2 * two_pow(k as nat));
            if k + 1 >= 64 {
                lemma_two_pow_increases(64, (k + 1) as nat);
                lemma_two_pow_64();
            }
            // n / p / 2 == n / (2 * p)
            vstd::arithmetic::div_mod::lemma_div_denominator(n as int, p as int, 2);
        }
        m = m / 2;
        k = k + 1;
        p = p * 2;
    }
    proof {
        // After the loop n / p <= 1, and p <= n gives n / p >= 1; so
        // p <= n < 2p and k is exactly log2_floor(n).
        lemma_div_at_least(n as int, p as int, 1);
        lemma_fundamental_div_mod(n as int, p as int);
        assert((n as int) < 2 * (p as int));
        assert(two_pow((k + 1) as nat) == 2 * two_pow(k as nat));
        lemma_log2_unique(n as nat, k as nat);
    }
    let frac: u64 = (((n - p) as u128 * FP as u128) / (p as u128)) as u64;
    proof {
        assert(((n - p) as int) * (FP as int) < (p as int) * (FP as int)) by (nonlinear_arith)
            requires
                0 <= ((n - p) as int) < (p as int),
                FP as int > 0,
        ;
        lemma_div_below((n - p) as int * FP as int, p as int, FP as int);
        lemma_div_pos((n - p) as int * FP as int, p as int);
    }
    let scaled: u64 = k * FP + frac;
    let r: u64 = (((scaled as u128) * (LN2_FP as u128)) / (FP as u128)) as u64;
    proof {
        assert((scaled as int) * (LN2_FP as int) < (FP as int) * (64 * (LN2_FP as int)))
            by (nonlinear_arith)
            requires
                (scaled as int) < 64 * (FP as int),
                LN2_FP as int > 0,
                FP as int > 0,
        ;
        lemma_div_below(scaled as int * LN2_FP as int, FP as int, 64 * LN2_FP as int);
        lemma_div_pos(scaled as int * LN2_FP as int, FP as int);
    }
    r
}

/// The UCT priority of a child with accumulated `score` and `visits`,
/// under a parent with `total_visits`; returns exactly `uct_spec`.
pub fn uct(score: i64, visits: u64, total_visits: u64) -> (r: i64)
    ensures
        r as int == uct_spec(score as int, visits as nat, total_visits as nat),
{
    if visits == 0 {
        return i64::MAX;
    }
    let ln_t: u64 = ln_fp(total_visits);
    let ratio: u64 = ln_t / visits;
    proof {
        // The ratio is at most the logarithm itself, so ratio * FP stays
        // far below 2^38.
        assert((ln_t as int) < (visits as int) * (ln_t as int + 1)) by (nonlinear_arith)
            requires
                visits >= 1,
                ln_t >= 0,
        ;
        lemma_div_below(ln_t as int, visits as int, ln_t as int + 1);
        lemma_div_pos(ln_t as int, visits as int);
        assert(ratio * FP <= 2907264 * 65536) by (nonlinear_arith)
            requires
                ratio <= 2907264,
                FP == 65536u64,
        ;
    }
    let root: u64 = isqrt(ratio * FP);
    proof {
        // The root of a value below 2^38 is below 2^19, so the
        // exploration product fits comfortably in u64.
        if root >= 524288 {
            assert((root as int) * (root as int) >= 524288 * 524288) by (nonlinear_arith)
                requires
                    root as int >= 524288,
            ;
        }
        assert(root < 524288);
        assert((UCT_C_FP as int) * (root as int) <= 92681 * 524287) by (nonlinear_arith)
            requires
                UCT_C_FP == 92681u64,
                root as int <= 524287,
        ;
    }
    let explore: u64 = (UCT_C_FP * root) / FP;
    proof {
        lemma_div_pos(UCT_C_FP as int * root as int, FP as int);
    }
    let neg: bool = score < 0;
    let mag: u64 = if neg {
        (-(score as i128)) as u64
    } else {
        score as u64
    };
    let q: u128 = ((mag as u128) * (FP as u128)) / (visits as u128);
    proof {
        let big: int = 0x8000_0000_0000_0000int * 0x1_0000 + 1;
        assert((mag as int) * (FP as int) < (visits as int) * big) by (nonlinear_arith)
            requires
                mag as int <= 0x8000_0000_0000_0000,
                FP == 65536u64,
                visits as int >= 1,
                big == 0x8000_0000_0000_0000int * 0x1_0000 + 1,
        ;
        lemma_div_below(mag as int * FP as int, visits as int, big);
        lemma_div_pos(mag as int * FP as int, visits as int);
    }
    let exploit: i128 = if neg {
        -(q as i128)
    } else {
        q as i128
    };
    let sum: i128 = exploit + (explore as i128);
    if sum > i64::MAX as i128 {
        i64::MAX
    } else if sum < i64::MIN as i128 {
        i64::MIN
    } else {
        sum as i64
    }
}

proof fn lemma_div_pos(x: int, d: int)
    requires
        x >= 0,
        d > 0,
    ensures
        x / d >= 0,
{
    lemma_fundamental_div_mod(x, d);
    if x / d < 0 {
        lemma_mul_inequality(x / d + 1, 0, d);
        assert(d * (x / d) <= -d) by (nonlinear_arith)
            requires
                x / d <= -1,
                d > 0,
        ;
    }
}

/// A never-visited child always holds the highest priority the scorer
/// can produce: its priority is the greatest representable value, and no
/// visited child's priority exceeds it.
pub proof fn lemma_unvisited_child_has_top_priority(
    score: int,
    other_score: int,
    visits: nat,
    total: nat,
)
    ensures
        uct_spec(score, 0, total) == i64::MAX as int,
        uct_spec(other_score, visits, total) <= i64::MAX as int,
{
}

} // verus!
