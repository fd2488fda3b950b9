//! Fixed-point scalar arithmetic: values are signed counts of `SCALE`-ths.
//!
//! Every scaling step rounds toward zero (`tdiv`). The checked operations
//! return `None` when a result would leave the `i64` range; callers surface
//! that as a fatal numeric defect.

use vstd::arithmetic::div_mod::{
    lemma_div_is_ordered, lemma_div_multiples_vanish, lemma_div_nonincreasing,
    lemma_div_pos_is_pos,
};
use vstd::arithmetic::power2::{lemma2_to64, lemma_pow2_strictly_increases, pow2};
use vstd::prelude::*;

verus! {

/// Number of fixed-point units in 1.0: a value `v` denotes `v / SCALE`.
pub const SCALE: i64 = 1_000_000_000;

/// Half of `SCALE`; the threshold used when normalising logarithm arguments.
pub const HALF_SCALE: i64 = 500_000_000;

/// ln(2) in fixed-point units, rounded to the nearest unit.
pub const LN_TWO: i64 = 693_147_181;

/// Arguments at or below `-EXP_UNDERFLOW` (that is, -20.0) flush the
/// exponential to zero: e^-20 amounts to no more than a couple of units.
pub const EXP_UNDERFLOW: i64 = 20_000_000_000;

pub open spec fn fits_i64(x: int) -> bool {
    i64::MIN <= x <= i64::MAX
}

/// Division rounded toward zero, for positive divisors: the rounding of
/// every scaling step in this crate.
pub open spec fn tdiv(a: int, b: int) -> int
    recommends
        b > 0,
{
    if a >= 0 {
        a / b
    } else {
        -((-a) / b)
    }
}

/// The view of a checked result as a mathematical option.
pub open spec fn opt_int(r: Option<i64>) -> Option<int> {
    match r {
        Some(v) => Some(v as int),
        None => None,
    }
}

pub proof fn lemma_tdiv_bounds(a: int, b: int)
    requires
        b > 0,
    ensures
        a >= 0 ==> 0 <= tdiv(a, b) <= a,
        a < 0 ==> a <= tdiv(a, b) <= 0,
{
    if a >= 0 {
        lemma_div_pos_is_pos(a, b);
        lemma_div_nonincreasing(a, b);
    } else {
        lemma_div_pos_is_pos(-a, b);
        lemma_div_nonincreasing(-a, b);
    }
}

/// Truncating division never exceeds `c` once the dividend is at most `b * c`.
pub proof fn lemma_tdiv_le(a: int, b: int, c: int)
    requires
        b > 0,
        0 <= a <= b * c,
    ensures
        0 <= tdiv(a, b) <= c,
{
    lemma_div_pos_is_pos(a, b);
    lemma_div_is_ordered(a, b * c, b);
    lemma_div_multiples_vanish(c, b);
}

/// Dividing an exact multiple recovers the factor, for either sign.
pub proof fn lemma_tdiv_exact(a: int, b: int)
    requires
        b > 0,
    ensures
        tdiv(a * b, b) == a,
{
    if a >= 0 {
        lemma_div_multiples_vanish(a, b);
        assert(a * b >= 0) by (nonlinear_arith)
            requires
                a >= 0 && b > 0,
        ;
        assert(a * b == b * a) by (nonlinear_arith);
    } else {
        lemma_div_multiples_vanish(-a, b);
        assert(a * b < 0 && -(a * b) == b * (-a)) by (nonlinear_arith)
            requires
                a < 0 && b > 0,
        ;
    }
}

/// Scaling by a factor within `[0, SCALE]` cannot grow a value's magnitude.
pub proof fn lemma_tdiv_scale_bound(a: int, b: int)
    requires
        0 <= b <= SCALE,
    ensures
        a >= 0 ==> 0 <= tdiv(a * b, SCALE as int) <= a,
        a < 0 ==> a <= tdiv(a * b, SCALE as int) <= 0,
{
    if a >= 0 {
        assert(0 <= a * b <= 1_000_000_000 * a) by (nonlinear_arith)
            requires
                a >= 0 && 0 <= b <= 1_000_000_000,
        ;
        lemma_tdiv_le(a * b, SCALE as int, a);
    } else {
        assert(0 <= (-a) * b <= 1_000_000_000 * (-a) && -(a * b) == (-a) * b) by (nonlinear_arith)
            requires
                a < 0 && 0 <= b <= 1_000_000_000,
        ;
        lemma_tdiv_le((-a) * b, SCALE as int, -a);
    }
}

/// Division rounded toward zero, computed through unsigned division.
pub(crate) fn div_trunc(p: i128, d: i128) -> (q: i128)
    requires
        d > 0,
        p > i128::MIN,
    ensures
        q == tdiv(p as int, d as int),
{
    if p >= 0 {
        let qu: u128 = (p as u128) / (d as u128);
        proof {
            lemma_div_pos_is_pos(p as int, d as int);
            lemma_div_nonincreasing(p as int, d as int);
        }
        qu as i128
    } else {
        let m: u128 = (-p) as u128;
        let qu: u128 = m / (d as u128);
        proof {
            lemma_div_pos_is_pos(m as int, d as int);
            lemma_div_nonincreasing(m as int, d as int);
        }
        -(qu as i128)
    }
}

pub open spec fn fx_add_s(a: int, b: int) -> Option<int> {
    if fits_i64(a + b) {
        Some(a + b)
    } else {
        None
    }
}

/// Checked fixed-point addition.
pub fn fx_add(a: i64, b: i64) -> (r: Option<i64>)
    ensures
        opt_int(r) == fx_add_s(a as int, b as int),
{
    if b >= 0 {
        if a <= i64::MAX - b {
            Some(a + b)
        } else {
            None
        }
    } else {
        if a >= i64::MIN - b {
            Some(a + b)
        } else {
            None
        }
    }
}

pub open spec fn fx_sub_s(a: int, b: int) -> Option<int> {
    if fits_i64(a - b) {
        Some(a - b)
    } else {
        None
    }
}

/// Checked fixed-point subtraction.
pub fn fx_sub(a: i64, b: i64) -> (r: Option<i64>)
    ensures
        opt_int(r) == fx_sub_s(a as int, b as int),
{
    if b <= 0 {
        if a <= i64::MAX + b {
            Some(a - b)
        } else {
            None
        }
    } else {
        if a >= i64::MIN + b {
            Some(a - b)
        } else {
            None
        }
    }
}

pub open spec fn fx_mul_s(a: int, b: int) -> Option<int> {
    let q = tdiv(a * b, SCALE as int);
    if fits_i64(q) {
        Some(q)
    } else {
        None
    }
}

/// The product of two `i64` values stays strictly inside the `i128` range.
proof fn lemma_i64_product_fits(a: int, b: int)
    requires
        i64::MIN <= a <= i64::MAX,
        i64::MIN <= b <= i64::MAX,
    ensures
        i128::MIN < a * b < i128::MAX,
{
    assert(i128::MIN < a * b < i128::MAX) by (nonlinear_arith)
        requires
            -0x8000_0000_0000_0000 <= a <= 0x7fff_ffff_ffff_ffff,
            -0x8000_0000_0000_0000 <= b <= 0x7fff_ffff_ffff_ffff,
    ;
}

/// Checked fixed-point multiplication: `a * b / SCALE`, rounded toward zero.
pub fn fx_mul(a: i64, b: i64) -> (r: Option<i64>)
    ensures
        opt_int(r) == fx_mul_s(a as int, b as int),
{
    proof {
        lemma_i64_product_fits(a as int, b as int);
    }
    let p: i128 = (a as i128) * (b as i128);
    let q: i128 = div_trunc(p, SCALE as i128);
    if i64::MIN as i128 <= q && q <= i64::MAX as i128 {
        Some(q as i64)
    } else {
        None
    }
}

/// Second-order series for e^(y/SCALE), accurate for small nonpositive `y`.
pub open spec fn exp_taylor(y: int) -> int
    recommends
        -(SCALE as int) <= y <= 0,
{
    (SCALE as int) + y + tdiv(y * y, 2 * (SCALE as int))
}

/// One fixed-point squaring step.
pub open spec fn sq_fx(v: int) -> int {
    tdiv(v * v, SCALE as int)
}

/// `k` successive fixed-point squarings of `v`.
pub open spec fn pow_sq(v: int, k: nat) -> int
    decreases k,
{
    if k == 0 {
        v
    } else {
        sq_fx(pow_sq(v, (k - 1) as nat))
    }
}

/// Fixed-point exponential for nonpositive arguments: the argument is cut
/// by 1024, fed to the series, and squared back up ten times. Arguments at
/// or below `-EXP_UNDERFLOW` flush to zero.
pub open spec fn exp_fx_s(x: int) -> int
    recommends
        x <= 0,
{
    if x <= -(EXP_UNDERFLOW as int) {
        0
    } else {
        pow_sq(exp_taylor(tdiv(x, 1024)), 10)
    }
}

/// A value in the unit interval keeps to it under fixed-point squaring.
pub proof fn lemma_sq_fx_range(v: int)
    requires
        0 <= v <= SCALE,
    ensures
        0 <= sq_fx(v) <= SCALE,
{
    assert(0 <= v * v <= 1_000_000_000 * 1_000_000_000) by (nonlinear_arith)
        requires
            0 <= v <= 1_000_000_000,
    ;
    lemma_tdiv_le(v * v, SCALE as int, SCALE as int);
}

pub proof fn lemma_pow_sq_range(v: int, k: nat)
    requires
        0 <= v <= SCALE,
    ensures
        0 <= pow_sq(v, k) <= SCALE,
    decreases k,
{
    if k > 0 {
        lemma_pow_sq_range(v, (k - 1) as nat);
        lemma_sq_fx_range(pow_sq(v, (k - 1) as nat));
    }
}

/// 1.0 is a fixed point of squaring: e^0 comes out exactly as SCALE.
pub proof fn lemma_pow_sq_scale(k: nat)
    ensures
        pow_sq(SCALE as int, k) == SCALE as int,
    decreases k,
{
    if k > 0 {
        lemma_pow_sq_scale((k - 1) as nat);
        lemma_tdiv_exact(SCALE as int, SCALE as int);
    }
}

/// Bounds for the series on the argument range the exponential feeds it.
pub proof fn lemma_exp_taylor_range(y: int)
    requires
        -20_000_000 <= y <= 0,
    ensures
        0 <= exp_taylor(y) <= SCALE,
{
    let s = SCALE as int;
    assert(0 <= y * y <= (2 * s) * (-y)) by (nonlinear_arith)
        requires
            -20_000_000 <= y <= 0 && s == 1_000_000_000,
    ;
    lemma_tdiv_le(y * y, 2 * s, -y);
}

/// The exponential of a nonpositive argument lies in the unit interval,
/// and the exponential of zero is exactly one.
pub proof fn lemma_exp_fx_s_range(x: int)
    requires
        x <= 0,
    ensures
        0 <= exp_fx_s(x) <= SCALE,
        x == 0 ==> exp_fx_s(x) == SCALE as int,
{
    if x > -(EXP_UNDERFLOW as int) {
        let y = tdiv(x, 1024);
        lemma_tdiv_bounds(x, 1024);
        assert(-(EXP_UNDERFLOW as int) < x ==> -x < EXP_UNDERFLOW as int);
        assert((-x) / 1024 <= 20_000_000) by {
            lemma_div_is_ordered(-x, EXP_UNDERFLOW as int, 1024);
            assert((EXP_UNDERFLOW as int) / 1024 == 19_531_250);
        }
        lemma_exp_taylor_range(y);
        lemma_pow_sq_range(exp_taylor(y), 10);
        if x == 0 {
            assert(y == 0);
            assert(exp_taylor(0) == SCALE as int);
            lemma_pow_sq_scale(10);
        }
    }
}

/// Fixed-point exponential of a nonpositive argument.
pub fn exp_fx(x: i64) -> (r: i64)
    requires
        x <= 0,
    ensures
        r == exp_fx_s(x as int),
        0 <= r <= SCALE,
{
    proof {
        lemma_exp_fx_s_range(x as int);
    }
    if x <= -EXP_UNDERFLOW {
        return 0;
    }
    let y: i64 = div_trunc(x as i128, 1024) as i64;
    proof {
        lemma_tdiv_bounds(x as int, 1024);
        lemma_div_is_ordered(-(x as int), EXP_UNDERFLOW as int, 1024);
        assert((EXP_UNDERFLOW as int) / 1024 == 19_531_250);
        lemma_exp_taylor_range(y as int);
    }
    let q0: i64 = div_trunc((y as i128) * (y as i128), 2 * (SCALE as i128)) as i64;
    let t: i64 = SCALE + y + q0;
    let ghost t0 = exp_taylor(tdiv(x as int, 1024));
    assert(t == t0);
    let mut v: i64 = t;
    let mut k: u32 = 0;
    while k < 10
        invariant
            0 <= t0 <= SCALE,
            k <= 10,
            v == pow_sq(t0, k as nat),
            0 <= v <= SCALE,
        decreases 10 - k,
    {
        proof {
            lemma_sq_fx_range(v as int);
        }
        let q: i128 = div_trunc((v as i128) * (v as i128), SCALE as i128);
        v = q as i64;
        k = k + 1;
        proof {
            lemma_pow_sq_range(t0, k as nat);
        }
    }
    v
}

/// The argument of the logarithm, doubled until it exceeds half of SCALE.
pub open spec fn ln_scaled(m: int) -> int
    recommends
        1 <= m <= SCALE,
    decreases (SCALE as int) - m when 1 <= m
{
    if m > HALF_SCALE as int {
        m
    } else {
        ln_scaled(2 * m)
    }
}

/// How many doublings `ln_scaled` performs.
pub open spec fn ln_shift(m: int) -> nat
    recommends
        1 <= m <= SCALE,
    decreases (SCALE as int) - m when 1 <= m
{
    if m > HALF_SCALE as int {
        0
    } else {
        1 + ln_shift(2 * m)
    }
}

/// `u^k / SCALE^(k-1)`, the k-th power term of the logarithm series.
pub open spec fn ln_pow(u: int, k: nat) -> int
    decreases k,
{
    if k <= 1 {
        u
    } else {
        tdiv(ln_pow(u, (k - 1) as nat) * u, SCALE as int)
    }
}

/// Six terms of -ln(1 - u/SCALE) = u + u^2/2 + u^3/3 + ..., in units.
pub open spec fn ln_series(u: int) -> int {
    ln_pow(u, 1) + tdiv(ln_pow(u, 2), 2) + tdiv(ln_pow(u, 3), 3) + tdiv(ln_pow(u, 4), 4) + tdiv(
        ln_pow(u, 5),
        5,
    ) + tdiv(ln_pow(u, 6), 6)
}

/// -ln(p/SCALE) in fixed-point units, for `p` in `[1, SCALE]`: the argument
/// is doubled into `(1/2, 1]`, each doubling contributing ln(2), and the
/// remainder comes from the series.
pub open spec fn neg_ln_s(p: int) -> int
    recommends
        1 <= p <= SCALE,
{
    (ln_shift(p) as int) * (LN_TWO as int) + ln_series((SCALE as int) - ln_scaled(p))
}

/// The doubled argument lands in `(HALF_SCALE, SCALE]`, equals the original
/// times 2^shift, and needs at most 19 doublings.
pub proof fn lemma_ln_scaled_range(m: int)
    requires
        1 <= m <= SCALE,
    ensures
        (HALF_SCALE as int) < ln_scaled(m) <= SCALE,
        ln_scaled(m) == m * pow2(ln_shift(m)),
        ln_shift(m) <= 29,
    decreases (SCALE as int) - m,
{
    if m > HALF_SCALE as int {
        assert(m * pow2(0) == m) by {
            lemma2_to64();
        }
    } else {
        lemma_ln_scaled_range(2 * m);
        let k = ln_shift(2 * m);
        assert(pow2(k + 1) == 2 * pow2(k)) by {
            vstd::arithmetic::power2::lemma_pow2_unfold(k + 1);
        }
        assert((2 * m) * pow2(k) == m * (2 * pow2(k))) by (nonlinear_arith);
        // m * pow2(k + 1) <= SCALE with m >= 1 forces pow2(k + 1) <= SCALE.
        assert(pow2(k + 1) <= m * pow2(k + 1)) by (nonlinear_arith)
            requires
                m >= 1 && pow2(k + 1) >= 0,
        ;
        if k + 1 >= 30 {
            if k + 1 > 30 {
                lemma_pow2_strictly_increases(30, k + 1);
            }
            assert(pow2(30) == 0x40000000) by {
                lemma2_to64();
            }
        }
    }
}

/// Powers of a series argument in `[0, SCALE]` shrink monotonically.
pub proof fn lemma_ln_pow_range(u: int, k: nat)
    requires
        0 <= u <= SCALE,
    ensures
        0 <= ln_pow(u, k) <= u,
    decreases k,
{
    if k > 1 {
        lemma_ln_pow_range(u, (k - 1) as nat);
        lemma_tdiv_scale_bound(ln_pow(u, (k - 1) as nat), u);
        assert(ln_pow(u, (k - 1) as nat) * u == u * ln_pow(u, (k - 1) as nat))
            by (nonlinear_arith);
        lemma_tdiv_scale_bound(u, ln_pow(u, (k - 1) as nat));
    }
}

/// -ln(p/SCALE), for `p` in `[1, SCALE]`. Zero exactly at `p == SCALE`.
pub fn neg_ln(p: i64) -> (r: i64)
    requires
        1 <= p <= SCALE,
    ensures
        r == neg_ln_s(p as int),
        0 <= r <= 25_000_000_000,
        p == SCALE ==> r == 0,
{
    proof {
        lemma_ln_scaled_range(p as int);
    }
    let (m, k) = ln_norm(p);
    let u: i64 = SCALE - m;
    let ghost ui = u as int;
    let t1: i64 = u;
    proof {
        assert(ln_pow(ui, 1) == ui);
        lemma_i64_product_fits(t1 as int, ui);
        lemma_tdiv_scale_bound(t1 as int, ui);
    }
    let t2: i64 = div_trunc((t1 as i128) * (u as i128), SCALE as i128) as i64;
    proof {
        assert(t2 == ln_pow(ui, 2));
        lemma_i64_product_fits(t2 as int, ui);
        lemma_tdiv_scale_bound(t2 as int, ui);
    }
    let t3: i64 = div_trunc((t2 as i128) * (u as i128), SCALE as i128) as i64;
    proof {
        assert(t3 == ln_pow(ui, 3));
        lemma_i64_product_fits(t3 as int, ui);
        lemma_tdiv_scale_bound(t3 as int, ui);
    }
    let t4: i64 = div_trunc((t3 as i128) * (u as i128), SCALE as i128) as i64;
    proof {
        assert(t4 == ln_pow(ui, 4));
        lemma_i64_product_fits(t4 as int, ui);
        lemma_tdiv_scale_bound(t4 as int, ui);
    }
    let t5: i64 = div_trunc((t4 as i128) * (u as i128), SCALE as i128) as i64;
    proof {
        assert(t5 == ln_pow(ui, 5));
        lemma_i64_product_fits(t5 as int, ui);
        lemma_tdiv_scale_bound(t5 as int, ui);
    }
    let t6: i64 = div_trunc((t5 as i128) * (u as i128), SCALE as i128) as i64;
    proof {
        assert(t6 == ln_pow(ui, 6));
        lemma_tdiv_bounds(t2 as int, 2);
        lemma_tdiv_bounds(t3 as int, 3);
        lemma_tdiv_bounds(t4 as int, 4);
        lemma_tdiv_bounds(t5 as int, 5);
        lemma_tdiv_bounds(t6 as int, 6);
    }
    let series: i64 = t1 + div_trunc(t2 as i128, 2) as i64 + div_trunc(t3 as i128, 3) as i64
        + div_trunc(t4 as i128, 4) as i64 + div_trunc(t5 as i128, 5) as i64
        + div_trunc(t6 as i128, 6) as i64;
    assert(series == ln_series(ui));
    k * LN_TWO + series
}

/// Doubles `m` into `(HALF_SCALE, SCALE]`, returning the scaled value and
/// the number of doublings.
fn ln_norm(m: i64) -> (res: (i64, i64))
    requires
        1 <= m <= SCALE,
    ensures
        res.0 == ln_scaled(m as int),
        res.1 == ln_shift(m as int),
        HALF_SCALE < res.0 <= SCALE,
        0 <= res.1 <= 29,
    decreases SCALE - m,
{
    proof {
        lemma_ln_scaled_range(m as int);
    }
    if m > HALF_SCALE {
        (m, 0)
    } else {
        let (m2, k) = ln_norm(2 * m);
        (m2, k + 1)
    }
}

/// The mathematical view of a vector of fixed-point values.
pub open spec fn to_ints(s: Seq<i64>) -> Seq<int> {
    s.map_values(|v: i64| v as int)
}

pub open spec fn zero_seq(n: nat) -> Seq<int> {
    Seq::new(n, |i: int| 0int)
}

/// An element-for-element copy of a fixed-point vector.
pub fn copy_ints(v: &Vec<i64>) -> (r: Vec<i64>)
    ensures
        r@ == v@,
{
    let mut r: Vec<i64> = Vec::new();
    let mut i: usize = 0;
    while i < v.len()
        invariant
            i <= v.len(),
            r@ == v@.take(i as int),
        decreases v.len() - i,
    {
        r.push(v[i]);
        proof {
            assert(r@ =~= v@.take(i + 1));
        }
        i = i + 1;
    }
    proof {
        assert(v@.take(v@.len() as int) =~= v@);
    }
    r
}

/// A vector of `n` zeroes.
pub fn zero_vec(n: usize) -> (r: Vec<i64>)
    ensures
        r@.len() == n,
        to_ints(r@) == zero_seq(n as nat),
{
    let mut r: Vec<i64> = Vec::new();
    let mut i: usize = 0;
    while i < n
        invariant
            i <= n,
            r@.len() == i,
            forall|k: int| 0 <= k < i ==> r@[k] == 0i64,
        decreases n - i,
    {
        r.push(0);
        i = i + 1;
    }
    proof {
        assert(to_ints(r@) =~= zero_seq(n as nat));
    }
    r
}

} // verus!
