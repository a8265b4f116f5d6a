use vstd::prelude::*;

use crate::aliases::{Nat, Num};
use vstd::arithmetic::div_mod::{
    lemma_div_by_multiple, lemma_div_is_ordered, lemma_div_nonincreasing, lemma_div_plus_one,
    lemma_multiply_divide_lt,
};

verus! {

/// Fixed-point scale of the exploration constant, the logarithm and the
/// square root: nine decimal places.
pub const SCALE: u64 = 1000000000;

/// `2^32`, the scale of the intermediate binary fraction used by `log2_fixed`.
pub const TWO32: u64 = 4294967296;

/// Largest accepted exploration constant (`1000.0` in fixed point).
pub const C_MAX: u64 = 1000000000000;

/// The customary exploration constant `sqrt(2)`, in fixed point.
pub const DEFAULT_C: u64 = 1414213562;

/// `SCALE * 2^32`: the finer scale at which scores are returned. It exceeds
/// the largest possible visit count, so one unit of reward never vanishes in
/// the floored division of the exploitation mean.
pub const FINE_SCALE: u128 = 4294967296000000000;

/// `2^i`.
pub open spec fn p2(i: nat) -> nat
    decreases i,
{
    if i == 0 {
        1
    } else {
        2 * p2((i - 1) as nat)
    }
}

/// The integer part of the base-2 logarithm.
pub open spec fn floor_log2(n: nat) -> nat
    decreases n,
{
    if n < 2 {
        0
    } else {
        1 + floor_log2(n / 2)
    }
}

/// The first `i` fractional bits of the base-2 logarithm of `x / 2^32`,
/// where `x` lies in `[2^32, 2^33)`, computed by repeated squaring.
pub open spec fn frac_bits(x: nat, i: nat) -> nat
    decreases i,
{
    if i == 0 {
        0
    } else {
        let y = (x * x) / (TWO32 as nat);
        if y >= 2 * (TWO32 as nat) {
            p2((i - 1) as nat) + frac_bits(y / 2, (i - 1) as nat)
        } else {
            frac_bits(y, (i - 1) as nat)
        }
    }
}

/// The base-2 logarithm of `n`, in fixed point with scale `SCALE`.
pub open spec fn spec_log2_fp(n: nat) -> nat {
    let k = floor_log2(n);
    let x0 = (n * (TWO32 as nat)) / p2(k);
    k * (SCALE as nat) + (frac_bits(x0, 32) * (SCALE as nat)) / (TWO32 as nat)
}

/// The integer square root: the largest `r` with `r * r <= x`.
pub open spec fn spec_isqrt(x: nat) -> nat
    decreases x,
{
    if x == 0 {
        0
    } else {
        let r = spec_isqrt((x - 1) as nat);
        if (r + 1) * (r + 1) <= x {
            r + 1
        } else {
            r
        }
    }
}

/// The UCT score, in fixed point at scale `FINE_SCALE`: the exploitation
/// mean `sum_rewards / node_visit` plus `c` times the square root of
/// `log2(parent_visits) / node_visit`. The score is strictly increasing in
/// the reward sum (`lemma_uct_strict_in_rewards`); the exploration term is
/// resolved to `SCALE`, so changes of the logarithm below one part in
/// `SCALE` do not move the score.
pub open spec fn spec_uct(parent_visits: nat, sum_rewards: nat, node_visit: nat, c: nat) -> nat {
    (sum_rewards * (FINE_SCALE as nat)) / node_visit + (c * spec_isqrt(
        (spec_log2_fp(parent_visits) * (SCALE as nat)) / node_visit,
    ) * (TWO32 as nat)) / (SCALE as nat)
}

proof fn lemma_mul_fits_u128(a: nat, b: nat)
    requires
        a < 0x10000000000000000,
        b < 0x10000000000000000,
    ensures
        a * b < 0x100000000000000000000000000000000nat,
{
    assert(a * b < 0x100000000000000000000000000000000nat) by (nonlinear_arith)
        requires
            a < 0x10000000000000000,
            b < 0x10000000000000000,
    ;
}

pub proof fn lemma_isqrt_bounds(x: nat)
    ensures
        spec_isqrt(x) * spec_isqrt(x) <= x,
        x < (spec_isqrt(x) + 1) * (spec_isqrt(x) + 1),
    decreases x,
{
    if x == 0 {
        assert(spec_isqrt(0nat) == 0nat);
        assert(spec_isqrt(x) * spec_isqrt(x) <= x);
        assert(x < (spec_isqrt(x) + 1) * (spec_isqrt(x) + 1)) by (nonlinear_arith)
            requires
                x == 0,
                spec_isqrt(x) == 0,
        ;
    } else {
        lemma_isqrt_bounds((x - 1) as nat);
        let r0 = spec_isqrt((x - 1) as nat);
        if (r0 + 1) * (r0 + 1) <= x {
            assert(spec_isqrt(x) == r0 + 1);
            assert(x - 1 < (r0 + 1) * (r0 + 1));
            assert((r0 + 1) * (r0 + 1) < (r0 + 2) * (r0 + 2)) by (nonlinear_arith);
            assert(spec_isqrt(x) * spec_isqrt(x) <= x);
            assert(x < (spec_isqrt(x) + 1) * (spec_isqrt(x) + 1));
        } else {
            assert(spec_isqrt(x) == r0);
            assert(r0 * r0 <= x - 1);
            assert(spec_isqrt(x) * spec_isqrt(x) <= x);
            assert(x < (spec_isqrt(x) + 1) * (spec_isqrt(x) + 1));
        }
    }
}

pub proof fn lemma_isqrt_unique(x: nat, r: nat)
    requires
        r * r <= x,
        x < (r + 1) * (r + 1),
    ensures
        r == spec_isqrt(x),
{
    let s = spec_isqrt(x);
    lemma_isqrt_bounds(x);
    if r < s {
        assert((r + 1) * (r + 1) <= s * s) by (nonlinear_arith)
            requires
                r + 1 <= s,
        ;
    } else if s < r {
        assert((s + 1) * (s + 1) <= r * r) by (nonlinear_arith)
            requires
                s + 1 <= r,
        ;
    }
}

/// Integer square root of a fixed-point value, by binary search.
pub fn isqrt_fp(x: u128) -> (r: u64)
    requires
        x < 36000000000000000000u128,
    ensures
        r as nat == spec_isqrt(x as nat),
        r <= 6000000000u64,
{
    let mut lo: u64 = 0;
    let mut hi: u64 = 6000000000;
    assert((6000000000nat) * (6000000000nat) == 36000000000000000000nat) by (nonlinear_arith);
    while lo + 1 < hi
        invariant
            lo < hi <= 6000000000u64,
            (lo as nat) * (lo as nat) <= x as nat,
            (x as nat) < (hi as nat) * (hi as nat),
        decreases hi - lo,
    {
        let mid: u64 = lo + (hi - lo) / 2;
        proof {
            lemma_mul_fits_u128(mid as nat, mid as nat);
        }
        if (mid as u128) * (mid as u128) <= x {
            lo = mid;
        } else {
            hi = mid;
        }
    }
    proof {
        lemma_isqrt_unique(x as nat, lo as nat);
    }
    lo
}

proof fn lemma_floor_log2_char(n: nat)
    requires
        n >= 1,
    ensures
        p2(floor_log2(n)) <= n,
        n < 2 * p2(floor_log2(n)),
    decreases n,
{
    if n < 2 {
    } else {
        lemma_floor_log2_char(n / 2);
    }
}

proof fn lemma_p2_monotone(a: nat, b: nat)
    requires
        a <= b,
    ensures
        p2(a) <= p2(b),
    decreases b,
{
    if a < b {
        lemma_p2_monotone(a, (b - 1) as nat);
    }
}

proof fn lemma_p2_values()
    ensures
        p2(31) == 0x80000000nat,
        p2(32) == 0x100000000nat,
{
    reveal_with_fuel(p2, 33);
}

proof fn lemma_floor_log2_le31(n: nat)
    requires
        1 <= n < 0x100000000nat,
    ensures
        floor_log2(n) <= 31,
{
    lemma_floor_log2_char(n);
    lemma_p2_values();
    if floor_log2(n) >= 32 {
        lemma_p2_monotone(32, floor_log2(n));
        assert(false);
    }
}

/// The base-2 logarithm in fixed point, with 32 binary fractional bits
/// computed by repeated squaring, then rescaled to `SCALE`.
pub fn log2_fixed(n: Nat) -> (r: u64)
    requires
        n >= 1,
    ensures
        r as nat == spec_log2_fp(n as nat),
        r <= 32 * SCALE,
{
    let mut k: u32 = 0;
    let mut p: u64 = 1;
    let mut m: u32 = n;
    proof {
        lemma_floor_log2_char(n as nat);
        lemma_floor_log2_le31(n as nat);
        lemma_p2_values();
    }
    while m >= 2
        invariant
            1 <= m <= n,
            p == p2(k as nat),
            floor_log2(n as nat) == k + floor_log2(m as nat),
            k <= floor_log2(n as nat),
            floor_log2(n as nat) <= 31,
        decreases m,
    {
        m = m / 2;
        k = k + 1;
        proof {
            lemma_p2_monotone(k as nat, 31);
            lemma_p2_values();
        }
        p = p * 2;
    }
    proof {
        assert(floor_log2(m as nat) == 0);
        assert(k == floor_log2(n as nat));
        lemma_mul_fits_u128(n as nat, TWO32 as nat);
    }
    let x0w: u128 = ((n as u128) * (TWO32 as u128)) / (p as u128);
    proof {
        let nn = n as nat;
        let tt = TWO32 as nat;
        let pk = p2(k as nat);
        lemma_floor_log2_char(nn);
        assert(nn * tt < pk * (2 * tt)) by (nonlinear_arith)
            requires
                nn < 2 * pk,
                tt >= 1,
        ;
        lemma_multiply_divide_lt((nn * tt) as int, pk as int, (2 * tt) as int);
        assert(pk * tt <= nn * tt) by (nonlinear_arith)
            requires
                pk <= nn,
                tt >= 1,
        ;
        lemma_div_is_ordered((pk * tt) as int, (nn * tt) as int, pk as int);
        lemma_div_by_multiple(tt as int, pk as int);
        assert(tt * pk == pk * tt) by (nonlinear_arith);
        assert((nn * tt) / pk >= tt);
    }
    let x0: u64 = x0w as u64;
    let mut x: u64 = x0;
    let mut f: u64 = 0;
    let mut i: u32 = 0;
    while i < 32
        invariant
            i <= 32,
            TWO32 <= x < 2 * TWO32,
            f < p2(i as nat),
            frac_bits(x0 as nat, 32) == (f as nat) * p2((32 - i) as nat) + frac_bits(
                x as nat,
                (32 - i) as nat,
            ),
        decreases 32 - i,
    {
        proof {
            lemma_mul_fits_u128(x as nat, x as nat);
        }
        let xx: u128 = ((x as u128) * (x as u128)) / (TWO32 as u128);
        proof {
            let j = (32 - i) as nat;
            let tt = TWO32 as nat;
            let y = ((x as nat) * (x as nat)) / tt;
            assert(xx as nat == y);
            assert((x as nat) * (x as nat) < tt * (4 * tt)) by (nonlinear_arith)
                requires
                    (x as nat) < 2 * tt,
            ;
            lemma_multiply_divide_lt(((x as nat) * (x as nat)) as int, tt as int, (4 * tt) as int);
            assert(tt * tt <= (x as nat) * (x as nat)) by (nonlinear_arith)
                requires
                    tt <= x as nat,
            ;
            lemma_div_is_ordered((tt * tt) as int, ((x as nat) * (x as nat)) as int, tt as int);
            lemma_div_by_multiple(tt as int, tt as int);
            assert(y >= tt);
            assert(y < 4 * tt);
            assert(frac_bits(x as nat, j) == if y >= 2 * tt {
                p2((j - 1) as nat) + frac_bits(y / 2, (j - 1) as nat)
            } else {
                frac_bits(y, (j - 1) as nat)
            });
            lemma_p2_monotone(i as nat, 31);
            lemma_p2_values();
            assert(p2(j) == 2 * p2((j - 1) as nat));
        }
        if xx >= 2 * (TWO32 as u128) {
            proof {
                let j = (32 - i) as nat;
                let fj = f as nat;
                assert((2 * fj + 1) * p2((j - 1) as nat) == fj * p2(j) + p2((j - 1) as nat))
                    by (nonlinear_arith)
                    requires
                        p2(j) == 2 * p2((j - 1) as nat),
                ;
            }
            f = 2 * f + 1;
            x = (xx / 2) as u64;
        } else {
            proof {
                let j = (32 - i) as nat;
                let fj = f as nat;
                assert((2 * fj) * p2((j - 1) as nat) == fj * p2(j)) by (nonlinear_arith)
                    requires
                        p2(j) == 2 * p2((j - 1) as nat),
                ;
            }
            f = 2 * f;
            x = xx as u64;
        }
        i = i + 1;
    }
    proof {
        assert(frac_bits(x0 as nat, 32) == (f as nat) * p2(0) + frac_bits(x as nat, 0));
        assert((f as nat) * 1 == f as nat) by (nonlinear_arith);
        lemma_p2_values();
        lemma_mul_fits_u128(f as nat, SCALE as nat);
        assert((f as nat) * (SCALE as nat) < (TWO32 as nat) * (SCALE as nat)) by (nonlinear_arith)
            requires
                (f as nat) < TWO32 as nat,
        ;
        lemma_multiply_divide_lt(((f as nat) * (SCALE as nat)) as int, TWO32 as int, SCALE as int);
    }
    let frac: u64 = (((f as u128) * (SCALE as u128)) / (TWO32 as u128)) as u64;
    (k as u64) * SCALE + frac
}

/// The UCT value of a child during selection, in fixed point at scale
/// `FINE_SCALE`: the exploitation mean plus `c` times the square root of
/// `log2(parent_visits) / node_visit`. The scale exceeds every possible
/// visit count, so the score is strictly increasing in `sum_rewards`; the
/// exploration term keeps the coarser resolution `SCALE` of the logarithm
/// and the square root, a design bound of the fixed-point arithmetic.
pub fn uct_value(parent_visits: Nat, sum_rewards: u64, node_visit: Nat, c: u64) -> (r: Num)
    requires
        1 <= node_visit,
        node_visit <= parent_visits,
        sum_rewards as nat <= (node_visit as nat) * 4294967295,
        c <= C_MAX,
    ensures
        r as nat == spec_uct(parent_visits as nat, sum_rewards as nat, node_visit as nat, c as nat),
{
    proof {
        lemma_mul_fits_u128(sum_rewards as nat, FINE_SCALE as nat);
        lemma_div_nonincreasing(
            ((sum_rewards as nat) * (FINE_SCALE as nat)) as int,
            node_visit as int,
        );
    }
    let exploit: u128 = ((sum_rewards as u128) * FINE_SCALE) / (node_visit as u128);
    let lg: u64 = log2_fixed(parent_visits);
    proof {
        lemma_mul_fits_u128(lg as nat, SCALE as nat);
        lemma_div_nonincreasing(((lg as nat) * (SCALE as nat)) as int, node_visit as int);
        assert((lg as nat) * (SCALE as nat) <= 32000000000nat * (SCALE as nat))
            by (nonlinear_arith)
            requires
                lg as nat <= 32000000000nat,
        ;
    }
    let t: u128 = ((lg as u128) * (SCALE as u128)) / (node_visit as u128);
    let s: u64 = isqrt_fp(t);
    proof {
        lemma_mul_fits_u128(c as nat, s as nat);
        assert((c as nat) * (s as nat) <= (C_MAX as nat) * 6000000000nat) by (nonlinear_arith)
            requires
                c <= C_MAX,
                s <= 6000000000u64,
        ;
        assert(((c as nat) * (s as nat)) * (TWO32 as nat) <= ((C_MAX as nat) * 6000000000nat) * (
        TWO32 as nat)) by (nonlinear_arith)
            requires
                (c as nat) * (s as nat) <= (C_MAX as nat) * 6000000000nat,
        ;
        lemma_div_nonincreasing(
            (((c as nat) * (s as nat)) * (TWO32 as nat)) as int,
            SCALE as int,
        );
        assert((sum_rewards as nat) * (FINE_SCALE as nat)
            < 0x40000000000000000000000000000000nat) by (nonlinear_arith)
            requires
                (sum_rewards as nat) < 0x10000000000000000,
                (FINE_SCALE as nat) <= 4294967296000000000nat,
        ;
    }
    let explor: u128 = (((c as u128) * (s as u128)) * (TWO32 as u128)) / (SCALE as u128);
    exploit + explor
}

/// With the other arguments fixed, a strictly larger reward sum gives a
/// strictly larger UCT score: the fine scale keeps one unit of reward from
/// vanishing in the floored division by the visit count.
pub proof fn lemma_uct_strict_in_rewards(
    parent_visits: nat,
    s1: nat,
    s2: nat,
    node_visit: nat,
    c: nat,
)
    requires
        1 <= node_visit <= 4294967295,
        s1 < s2,
    ensures
        spec_uct(parent_visits, s1, node_visit, c) < spec_uct(parent_visits, s2, node_visit, c),
{
    let f = FINE_SCALE as nat;
    let n = node_visit;
    assert((s1 + 1) * f == s1 * f + f) by (nonlinear_arith);
    assert((s1 + 1) * f <= s2 * f) by (nonlinear_arith)
        requires
            s1 + 1 <= s2,
            f >= 1,
    ;
    lemma_div_plus_one((s1 * f) as int, n as int);
    assert(s1 * f + n <= s1 * f + f);
    lemma_div_is_ordered((s1 * f + n) as int, (s2 * f) as int, n as int);
    assert((s1 * f) / n + 1 <= (s2 * f) / n);
}

} // verus!
