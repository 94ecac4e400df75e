use vstd::prelude::*;
use vstd::arithmetic::div_mod::lemma_div_denominator;

verus! {

/// One unit in the fixed-point numbers of the search: `2^16`.
pub const UNIT: u64 = 65536;

/// `ln 2` in units, rounded down.
pub const LN2_UNITS: u64 = 45426;

pub open spec fn pow_two(k: nat) -> nat
    decreases k,
{
    if k == 0 {
        1
    } else {
        2 * pow_two((k - 1) as nat)
    }
}

/// The largest `k` with `2^k <= n`, for `n >= 1`.
pub open spec fn log2_floor(n: nat) -> nat
    decreases n,
{
    if n < 2 {
        0
    } else {
        1 + log2_floor(n / 2)
    }
}

/// `ln n` in units: `log2 n` taken linearly between neighbouring powers of
/// two, times `ln 2`. This is exact at powers of two and at most about 6%
/// low between them (`ln 3` comes out 5% low), so where two children are
/// close in value, selection may prefer another child than exact UCB1 would.
pub open spec fn ln_units(n: nat) -> int {
    let k = log2_floor(n) as int;
    let p = pow_two(k as nat) as int;
    k * LN2_UNITS + (n - p) * LN2_UNITS / p
}

/// The integer square root: the `r` with `r * r <= x < (r + 1) * (r + 1)`.
pub open spec fn sqrt_floor(x: nat) -> nat {
    choose|r: nat| #[trigger] (r * r) <= x && x < (r + 1) * (r + 1)
}

/// The UCB1 value of a child with tally `win` over `n` visits under a parent
/// with `parent_n` visits, in units and shifted up by one unit so that it is
/// never negative: `(win / n + 1) + c * sqrt(ln(parent_n) / n)` with `c` given
/// in thousandths.
pub open spec fn ucb_units(win: int, n: int, parent_n: int, c_milli: int) -> int {
    (win + n) * UNIT / n + c_milli * sqrt_floor((ln_units(parent_n as nat) * UNIT / n) as nat) / 1000
}

proof fn lemma_pow_two_monotone(a: nat, b: nat)
    requires
        a <= b,
    ensures
        pow_two(a) <= pow_two(b),
    decreases b,
{
    if a < b {
        lemma_pow_two_monotone(a, (b - 1) as nat);
    }
}

proof fn lemma_sqrt_unique(r: nat, x: nat)
    requires
        r * r <= x,
        x < (r + 1) * (r + 1),
    ensures
        sqrt_floor(x) == r,
{
    let s = sqrt_floor(x);
    assert(s * s <= x && x < (s + 1) * (s + 1));
    if s < r {
        assert((s + 1) * (s + 1) <= r * r) by (nonlinear_arith)
            requires
                s + 1 <= r,
        ;
    } else if r < s {
        assert((r + 1) * (r + 1) <= s * s) by (nonlinear_arith)
            requires
                r + 1 <= s,
        ;
    }
}

/// `ln n` in units, for `1 <= n < 2^32`.
pub fn ln_fixed(n: u64) -> (r: u64)
    requires
        1 <= n <= u32::MAX,
    ensures
        r == ln_units(n as nat),
        r < 32 * LN2_UNITS + LN2_UNITS,
{
    let mut m: u64 = n;
    let mut k: u64 = 0;
    let mut p: u64 = 1;
    proof {
        reveal_with_fuel(pow_two, 33);
        assert(pow_two(32) == 4294967296);
    }
    while m >= 2
        invariant
            1 <= m,
            1 <= n <= u32::MAX,
            p == pow_two(k as nat),
            p >= 1,
            p <= n,
            m == n / p,
            log2_floor(n as nat) == k + log2_floor(m as nat),
            k < 32,
            pow_two(32) == 4294967296,
        decreases m,
    {
        proof {
            lemma_div_denominator(n as int, p as int, 2);
            assert(2 * p <= n) by {
                vstd::arithmetic::div_mod::lemma_fundamental_div_mod(n as int, p as int);
                assert(n / p >= 2);
                assert(p * (n / p) >= p * 2) by (nonlinear_arith)
                    requires
                        n / p >= 2,
                        p >= 1,
                ;
                assert(n as int % p as int >= 0) by {
                    vstd::arithmetic::div_mod::lemma_mod_pos_bound(n as int, p as int);
                }
            }
            if k + 1 >= 32 {
                lemma_pow_two_monotone(32, (k + 1) as nat);
            }
        }
        m = m / 2;
        k = k + 1;
        p = p * 2;
    }
    proof {
        assert(m == 1);
        vstd::arithmetic::div_mod::lemma_fundamental_div_mod(n as int, p as int);
        vstd::arithmetic::div_mod::lemma_mod_pos_bound(n as int, p as int);
        assert(n < 2 * p);
    }
    let frac = (n - p) * LN2_UNITS / p;
    proof {
        assert((n - p) * LN2_UNITS < p * LN2_UNITS) by (nonlinear_arith)
            requires
                n - p < p,
                p >= 1,
        ;
        vstd::arithmetic::div_mod::lemma_div_is_ordered(((n - p) * LN2_UNITS) as int, (p * LN2_UNITS) as int, p as int);
        assert((p as int * LN2_UNITS) / (p as int) == LN2_UNITS as int) by {
            vstd::arithmetic::div_mod::lemma_div_multiples_vanish(LN2_UNITS as int, p as int);
        }
        if frac == LN2_UNITS {
            vstd::arithmetic::div_mod::lemma_fundamental_div_mod(((n - p) * LN2_UNITS) as int, p as int);
            vstd::arithmetic::div_mod::lemma_mod_pos_bound(((n - p) * LN2_UNITS) as int, p as int);
            assert(p * frac <= (n - p) * LN2_UNITS);
            assert(false);
        }
    }
    k * LN2_UNITS + frac
}

/// The integer square root of `x < 2^40`.
pub fn sqrt_fixed(x: u64) -> (r: u64)
    requires
        x < 1099511627776,
    ensures
        r == sqrt_floor(x as nat),
        r < 1048576,
{
    let mut lo: u64 = 0;
    let mut hi: u64 = 1048576;
    while hi - lo > 1
        invariant
            lo < hi <= 1048576,
            lo * lo <= x,
            x < hi * hi,
        decreases hi - lo,
    {
        let mid = lo + (hi - lo) / 2;
        assert(mid * mid <= 1048576 * 1048576) by (nonlinear_arith)
            requires
                mid < 1048576,
        ;
        if mid * mid <= x {
            lo = mid;
        } else {
            hi = mid;
        }
    }
    proof {
        lemma_sqrt_unique(lo as nat, x as nat);
    }
    lo
}

/// The UCB1 value of a child, in units (see `ucb_units`).
pub fn ucb_value(win: i64, n: u64, parent_n: u64, c_milli: u64) -> (r: u64)
    requires
        1 <= n <= parent_n <= u32::MAX,
        -(n as int) <= win <= n,
        c_milli <= u32::MAX,
    ensures
        r == ucb_units(win as int, n as int, parent_n as int, c_milli as int),
{
    let shifted = (win + n as i64) as u64;
    assert(shifted * UNIT <= 2 * u32::MAX * UNIT) by (nonlinear_arith)
        requires
            shifted <= 2 * n,
            n <= u32::MAX,
    ;
    let exploitation = shifted * UNIT / n;
    let ln = ln_fixed(parent_n);
    let spread = ln * UNIT / n;
    proof {
        vstd::arithmetic::div_mod::lemma_div_is_ordered_by_denominator((ln * UNIT) as int, 1, n as int);
    }
    let root = sqrt_fixed(spread);
    assert(c_milli * root <= u32::MAX * 1048576) by (nonlinear_arith)
        requires
            c_milli <= u32::MAX,
            root < 1048576,
    ;
    let exploration = c_milli * root / 1000;
    assert(exploitation <= shifted * UNIT) by {
        vstd::arithmetic::div_mod::lemma_div_is_ordered_by_denominator((shifted * UNIT) as int, 1, n as int);
    }
    exploitation + exploration
}

} // verus!
