//! Rounding in double precision, on whole numbers.
//!
//! A double is a whole number of up to 53 bits times a power of two. In units that are
//! small enough every number of a calculation is whole, and rounding it to the nearest
//! double drops the bits beyond the first 53.

use vstd::arithmetic::div_mod::{
    lemma_div_is_ordered, lemma_fundamental_div_mod, lemma_fundamental_div_mod_converse,
};
use vstd::arithmetic::power2::{
    lemma2_to64, lemma2_to64_rest, lemma_pow2_adds, lemma_pow2_pos, lemma_pow2_strictly_increases,
    lemma_pow2_unfold, pow2,
};
use vstd::bits::lemma_u64_shl_is_mul;
use vstd::prelude::*;

verus! {

/// The integer nearest to `numer / denom`, with a tie going up.
pub open spec fn nearest(numer: int, denom: int) -> int {
    (2 * numer + denom) / (2 * denom)
}

/// How many low bits of `p` lie beyond the 53 a double has room for.
pub open spec fn excess_bits(p: nat) -> nat
    decreases p,
{
    if p < 0x20_0000_0000_0000 {
        0
    } else {
        1 + excess_bits(p / 2)
    }
}

/// The integer nearest to `numer / denom`, with a tie going to the even one.
pub open spec fn nearest_even(numer: int, denom: int) -> int {
    let quotient = numer / denom;
    let rest = numer % denom;
    if 2 * rest < denom || (2 * rest == denom && quotient % 2 == 0) {
        quotient
    } else {
        quotient + 1
    }
}

/// The double nearest to the whole number `p`.
pub open spec fn as_double(p: nat) -> int {
    let step = pow2(excess_bits(p)) as int;
    nearest_even(p as int, step) * step
}

/// The double nearest to `numer / denom`, for a quotient that is zero or has at least the
/// 53 bits of a double before the point.
pub open spec fn quotient_as_double(numer: nat, denom: nat) -> int {
    let step = pow2(excess_bits((numer as int / denom as int) as nat)) as int;
    nearest_even(numer as int, denom * step) * step
}

/// A step of a double that is larger than one is no larger than the number itself.
pub proof fn lemma_as_double_bound(p: nat)
    ensures
        pow2(excess_bits(p)) <= p || excess_bits(p) == 0,
        0 <= as_double(p) <= 2 * p,
    decreases p,
{
    lemma2_to64();
    let step = pow2(excess_bits(p)) as int;
    if p >= 0x20_0000_0000_0000 {
        lemma_as_double_bound(p / 2);
        lemma_pow2_unfold(excess_bits(p));
    }
    lemma_pow2_pos(excess_bits(p));
    let q = p as int / step;
    let r = p as int % step;
    lemma_fundamental_div_mod(p as int, step);
    let n = nearest_even(p as int, step);
    assert(0 <= n * step <= 2 * p) by (nonlinear_arith)
        requires
            p == step * q + r,
            0 <= r < step,
            0 <= q,
            n == q || (n == q + 1 && r > 0),
            step <= p || step == 1,
    ;
}

/// A number of up to 53 bits times a power of two fits the steps of a double.
pub proof fn lemma_excess_of_shifted(a: nat, j: nat)
    requires
        a < 0x20_0000_0000_0000,
    ensures
        (a * pow2(j)) as int % pow2(excess_bits(a * pow2(j))) as int == 0,
    decreases j,
{
    let p = a * pow2(j);
    lemma2_to64();
    if j == 0 {
        assert(p == a) by (nonlinear_arith)
            requires
                p == a * pow2(j),
                pow2(j) == 1,
        ;
    } else if p >= 0x20_0000_0000_0000 {
        let h = (j - 1) as nat;
        lemma_pow2_unfold(j);
        assert(p == 2 * (a * pow2(h))) by (nonlinear_arith)
            requires
                p == a * pow2(j),
                pow2(j) == 2 * pow2(h),
        ;
        lemma_excess_of_shifted(a, h);
        let half = a * pow2(h);
        assert(p / 2 == half);
        let e = excess_bits(half);
        lemma_pow2_unfold(e + 1);
        lemma_pow2_pos(e);
        let step = pow2(e) as int;
        lemma_fundamental_div_mod(half as int, step);
        let q = half as int / step;
        assert(p as int % (2 * step) == 0) by {
            assert(p as int == q * (2 * step)) by (nonlinear_arith)
                requires
                    p == 2 * half,
                    half == step * q,
            ;
            vstd::arithmetic::div_mod::lemma_mod_multiples_basic(q, 2 * step);
        }
    }
}

proof fn lemma_excess_range(p: nat)
    ensures
        p < 0x20_0000_0000_0000 * pow2(excess_bits(p)),
        excess_bits(p) > 0 ==> 0x10_0000_0000_0000 * pow2(excess_bits(p)) <= p,
    decreases p,
{
    lemma2_to64();
    if p >= 0x20_0000_0000_0000 {
        lemma_excess_range(p / 2);
        lemma_pow2_unfold(excess_bits(p));
    }
}

proof fn lemma_excess_is_monotone(p: nat, q: nat)
    requires
        p <= q,
    ensures
        excess_bits(p) <= excess_bits(q),
        excess_bits(p) < excess_bits(q) ==> 2 * pow2(excess_bits(p)) <= pow2(excess_bits(q)),
{
    let d = excess_bits(p);
    let e = excess_bits(q);
    lemma_excess_range(p);
    lemma_excess_range(q);
    if e < d {
        lemma_pow2_unfold(d);
        if e + 1 < d {
            lemma_pow2_strictly_increases(e, (d - 1) as nat);
        }
    } else if d < e {
        lemma_pow2_unfold(e);
        if d + 1 < e {
            lemma_pow2_strictly_increases(d, (e - 1) as nat);
        }
    }
}

/// The steps of a double are no larger than `2^k` for numbers below `2^(53 + k)`.
pub proof fn lemma_step_bound(p: nat, k: nat)
    requires
        p < 0x20_0000_0000_0000 * pow2(k),
    ensures
        excess_bits(p) <= k,
        pow2(excess_bits(p)) <= pow2(k),
{
    let e = excess_bits(p);
    lemma_excess_range(p);
    lemma_pow2_pos(k);
    if e > k {
        lemma_pow2_unfold(e);
        if e > k + 1 {
            lemma_pow2_strictly_increases(k, (e - 1) as nat);
        }
    } else if e < k {
        lemma_pow2_strictly_increases(e, k);
    }
}

proof fn lemma_nearest_even_bound(numer: int, denom: int)
    requires
        0 < denom,
    ensures
        -denom <= 2 * (nearest_even(numer, denom) * denom - numer) <= denom,
{
    let q = numer / denom;
    let r = numer % denom;
    lemma_fundamental_div_mod(numer, denom);
    assert((q + 1) * denom == q * denom + denom) by (nonlinear_arith);
    assert(denom * q == q * denom) by (nonlinear_arith);
}

proof fn lemma_nearest_even_is_monotone(a: int, b: int, denom: int)
    requires
        0 < denom,
        a <= b,
    ensures
        nearest_even(a, denom) <= nearest_even(b, denom),
{
    lemma_fundamental_div_mod(a, denom);
    lemma_fundamental_div_mod(b, denom);
    lemma_div_is_ordered(a, b, denom);
}

proof fn lemma_whole_is_nearest(n: int, denom: int)
    requires
        0 < denom,
    ensures
        nearest_even(n * denom, denom) == n,
{
    lemma_fundamental_div_mod_converse(n * denom, denom, n, 0);
}

proof fn lemma_nearest_even_scaled(numer: int, denom: int, by: int)
    requires
        0 < denom,
        0 < by,
    ensures
        nearest_even(numer * by, denom * by) == nearest_even(numer, denom),
{
    let q = numer / denom;
    let r = numer % denom;
    lemma_fundamental_div_mod(numer, denom);
    assert(numer * by == q * (denom * by) + r * by && 0 <= r * by < denom * by) by (nonlinear_arith)
        requires
            numer == denom * q + r,
            0 <= r < denom,
            0 < by,
    ;
    lemma_fundamental_div_mod_converse(numer * by, denom * by, q, r * by);
    assert((2 * (r * by) < denom * by <==> 2 * r < denom) && (2 * (r * by) == denom * by <==> 2 * r
        == denom)) by (nonlinear_arith)
        requires
            0 < by,
    ;
}

/// Rounding to the nearest integer moves a quotient by at most one half.
pub proof fn lemma_nearest_bound(numer: int, denom: int)
    requires
        0 < denom,
    ensures
        -denom < 2 * (nearest(numer, denom) * denom - numer) <= denom,
{
    let n = nearest(numer, denom);
    lemma_fundamental_div_mod(2 * numer + denom, 2 * denom);
    assert(2 * denom * n == 2 * (n * denom)) by (nonlinear_arith);
}

/// Rounding to the nearest integer keeps the order of quotients.
pub proof fn lemma_nearest_is_monotone(a: int, b: int, denom: int)
    requires
        0 < denom,
        a <= b,
    ensures
        nearest(a, denom) <= nearest(b, denom),
{
    lemma_div_is_ordered(2 * a + denom, 2 * b + denom, 2 * denom);
}

/// The integer nearest to a quotient does not depend on the units of the two numbers.
pub proof fn lemma_nearest_scaled(numer: int, denom: int, by: int)
    requires
        0 < denom,
        0 < by,
    ensures
        nearest(numer * by, denom * by) == nearest(numer, denom),
{
    let n = nearest(numer, denom);
    let r = (2 * numer + denom) % (2 * denom);
    lemma_fundamental_div_mod(2 * numer + denom, 2 * denom);
    assert(2 * (numer * by) + denom * by == n * (2 * (denom * by)) + r * by && 0 <= r * by < 2 * (
    denom * by)) by (nonlinear_arith)
        requires
            2 * numer + denom == 2 * denom * n + r,
            0 <= r < 2 * denom,
            0 < by,
    ;
    lemma_fundamental_div_mod_converse(
        2 * (numer * by) + denom * by,
        2 * (denom * by),
        n,
        r * by,
    );
}

/// A whole number that the steps of a double fit is a double itself.
pub proof fn lemma_as_double_exact(p: nat)
    requires
        p as int % pow2(excess_bits(p)) as int == 0,
    ensures
        as_double(p) == p,
{
    let step = pow2(excess_bits(p)) as int;
    lemma_pow2_pos(excess_bits(p));
    lemma_fundamental_div_mod(p as int, step);
    assert(step * (p as int / step) == (p as int / step) * step) by (nonlinear_arith);
}

/// A whole number of up to 53 bits is a double itself.
pub proof fn lemma_small_is_exact(p: nat)
    requires
        p <= 0x20_0000_0000_0000,
    ensures
        as_double(p) == p,
{
    lemma2_to64();
    if p == 0x20_0000_0000_0000 {
        assert(excess_bits(0x10_0000_0000_0000) == 0);
        assert(excess_bits(p) == 1);
    } else {
        assert(excess_bits(p) == 0);
    }
    lemma_as_double_exact(p);
}

/// Rounding to a double moves a whole number by at most half a step, and by at most
/// one part in `2^53` of it.
pub proof fn lemma_as_double_error(p: nat)
    ensures
        -pow2(excess_bits(p)) <= 2 * (as_double(p) - p) <= pow2(excess_bits(p)),
        -p <= 0x20_0000_0000_0000 * (as_double(p) - p) <= p,
{
    let e = excess_bits(p);
    lemma_pow2_pos(e);
    lemma_nearest_even_bound(p as int, pow2(e) as int);
    lemma_excess_range(p);
    if e == 0 {
        lemma2_to64();
        lemma_as_double_exact(p);
    }
}

/// Rounding to a double keeps the order of whole numbers.
pub proof fn lemma_as_double_is_monotone(p: nat, q: nat)
    requires
        p <= q,
    ensures
        as_double(p) <= as_double(q),
{
    let a = excess_bits(p);
    let b = excess_bits(q);
    lemma_excess_range(p);
    lemma_excess_range(q);
    lemma_excess_is_monotone(p, q);
    lemma_pow2_pos(a);
    lemma_pow2_pos(b);
    let lower = pow2(a) as int;
    let upper = pow2(b) as int;
    let x = nearest_even(p as int, lower);
    let y = nearest_even(q as int, upper);
    if a == b {
        lemma_nearest_even_is_monotone(p as int, q as int, lower);
        assert(x * lower <= y * upper) by (nonlinear_arith)
            requires
                x <= y,
                lower == upper,
                0 < lower,
        ;
    } else {
        lemma_nearest_even_is_monotone(p as int, 0x20_0000_0000_0000 * lower, lower);
        lemma_nearest_even_is_monotone(0x10_0000_0000_0000 * upper, q as int, upper);
        lemma_whole_is_nearest(0x20_0000_0000_0000, lower);
        lemma_whole_is_nearest(0x10_0000_0000_0000, upper);
        assert(x * lower <= y * upper) by (nonlinear_arith)
            requires
                x <= 0x20_0000_0000_0000,
                0x10_0000_0000_0000 <= y,
                0 < lower,
                2 * lower <= upper,
        ;
    }
}

/// Rounding to a double does not depend on the units, as long as the larger ones are
/// powers of two of the smaller ones.
pub proof fn lemma_as_double_scaled(p: nat, j: nat)
    ensures
        as_double(p * pow2(j)) == as_double(p) * pow2(j),
    decreases j,
{
    lemma2_to64();
    if j == 0 {
        assert(p * pow2(j) == p && as_double(p) * pow2(j) == as_double(p)) by (nonlinear_arith)
            requires
                pow2(j) == 1,
        ;
    } else {
        let h = (j - 1) as nat;
        let half = p * pow2(h);
        lemma_as_double_scaled(p, h);
        lemma_pow2_unfold(j);
        assert(p * pow2(j) == 2 * half && as_double(p) * pow2(j) == 2 * (as_double(p) * pow2(h)))
            by (nonlinear_arith)
            requires
                half == p * pow2(h),
                pow2(j) == 2 * pow2(h),
        ;
        lemma_as_double_doubled(half);
    }
}

proof fn lemma_as_double_doubled(p: nat)
    ensures
        as_double(2 * p) == 2 * as_double(p),
{
    lemma2_to64();
    if 2 * p < 0x20_0000_0000_0000 {
        lemma_small_is_exact(p);
        lemma_small_is_exact(2 * p);
    } else {
        let e = excess_bits(p);
        assert(excess_bits(2 * p) == e + 1) by {
            assert((2 * p) / 2 == p);
        }
        lemma_pow2_unfold(e + 1);
        lemma_pow2_pos(e);
        let step = pow2(e) as int;
        let n = nearest_even(p as int, step);
        lemma_nearest_even_scaled(p as int, step, 2);
        assert(nearest_even((2 * p) as int, 2 * step) == n);
        assert(n * (2 * step) == 2 * (n * step)) by (nonlinear_arith);
    }
}

/// The steps of a double are the power of two that leaves 53 bits of the number.
pub proof fn lemma_excess_is(p: nat, e: nat)
    requires
        0x10_0000_0000_0000 * pow2(e) <= p < 0x20_0000_0000_0000 * pow2(e),
    ensures
        excess_bits(p) == e,
{
    let f = excess_bits(p);
    lemma_excess_range(p);
    if f < e {
        lemma_pow2_unfold(e);
        if f + 1 < e {
            lemma_pow2_strictly_increases(f, (e - 1) as nat);
        }
    } else if e < f {
        lemma_pow2_unfold(f);
        if e + 1 < f {
            lemma_pow2_strictly_increases(e, (f - 1) as nat);
        }
    }
}

/// What rounding leaves of a number has at most 53 bits, and all of them unless the
/// number has fewer.
proof fn lemma_quotient_range(numer: nat, denom: nat)
    requires
        0 < denom,
    ensures
        ({
            let e = excess_bits((numer as int / denom as int) as nat);
            let n = nearest_even(numer as int, denom * pow2(e) as int);
            &&& 0 < denom * pow2(e)
            &&& 0 <= n <= 0x20_0000_0000_0000
            &&& e > 0 ==> 0x10_0000_0000_0000 <= n
        }),
{
    let q = (numer as int / denom as int) as nat;
    let e = excess_bits(q);
    let step = pow2(e) as int;
    let unit = denom * step;
    lemma_excess_range(q);
    lemma_pow2_pos(e);
    lemma_fundamental_div_mod(numer as int, denom as int);
    let r = numer as int % denom as int;
    assert(0 < unit) by (nonlinear_arith)
        requires
            unit == denom * step,
            0 < denom,
            0 < step,
    ;
    assert(numer <= 0x20_0000_0000_0000 * unit) by (nonlinear_arith)
        requires
            numer == denom * q + r,
            r < denom,
            q + 1 <= 0x20_0000_0000_0000 * step,
            unit == denom * step,
    ;
    lemma_nearest_even_is_monotone(numer as int, 0x20_0000_0000_0000 * unit, unit);
    lemma_whole_is_nearest(0x20_0000_0000_0000, unit);
    lemma_nearest_even_is_monotone(0, numer as int, unit);
    lemma_whole_is_nearest(0, unit);
    assert(0 * unit == 0);
    if e > 0 {
        assert(0x10_0000_0000_0000 * unit <= numer) by (nonlinear_arith)
            requires
                numer == denom * q + r,
                0 <= r,
                0x10_0000_0000_0000 * step <= q,
                unit == denom * step,
        ;
        lemma_nearest_even_is_monotone(0x10_0000_0000_0000 * unit, numer as int, unit);
        lemma_whole_is_nearest(0x10_0000_0000_0000, unit);
    }
}

/// A quotient that was rounded to a double is one.
pub proof fn lemma_quotient_is_a_double(numer: nat, denom: nat)
    requires
        0 < denom,
    ensures
        0 <= quotient_as_double(numer, denom),
        as_double(quotient_as_double(numer, denom) as nat) == quotient_as_double(numer, denom),
{
    let e = excess_bits((numer as int / denom as int) as nat);
    let n = nearest_even(numer as int, denom * pow2(e) as int);
    lemma_quotient_range(numer, denom);
    lemma_small_is_exact(n as nat);
    lemma_as_double_scaled(n as nat, e);
    assert(0 <= n * pow2(e)) by (nonlinear_arith)
        requires
            0 <= n,
    ;
}

/// Rounding a quotient to a double keeps the order of the dividends.
pub proof fn lemma_quotient_is_monotone(a: nat, b: nat, denom: nat)
    requires
        0 < denom,
        a <= b,
    ensures
        quotient_as_double(a, denom) <= quotient_as_double(b, denom),
{
    let p = (a as int / denom as int) as nat;
    let q = (b as int / denom as int) as nat;
    lemma_div_is_ordered(a as int, b as int, denom as int);
    lemma_excess_is_monotone(p, q);
    let d = excess_bits(p);
    let e = excess_bits(q);
    let x = nearest_even(a as int, denom * pow2(d) as int);
    let y = nearest_even(b as int, denom * pow2(e) as int);
    lemma_quotient_range(a, denom);
    lemma_quotient_range(b, denom);
    lemma_pow2_pos(d);
    if d == e {
        lemma_nearest_even_is_monotone(a as int, b as int, denom * pow2(d) as int);
        assert(x * pow2(d) <= y * pow2(e)) by (nonlinear_arith)
            requires
                x <= y,
                d == e,
        ;
    } else {
        assert(x * pow2(d) <= y * pow2(e)) by (nonlinear_arith)
            requires
                0 <= x <= 0x20_0000_0000_0000,
                0x10_0000_0000_0000 <= y,
                2 * pow2(d) <= pow2(e),
        ;
    }
}

/// Rounding a quotient to a double moves it by at most one part in `2^53` of it, where
/// it has the 53 bits of a double before the point.
pub proof fn lemma_quotient_error(numer: nat, denom: nat)
    requires
        0 < denom,
        numer == 0 || 0x10_0000_0000_0000 * denom <= numer,
    ensures
        -numer <= 0x20_0000_0000_0000 * (quotient_as_double(numer, denom) * denom - numer)
            <= numer,
{
    let q = (numer as int / denom as int) as nat;
    let e = excess_bits(q);
    let step = pow2(e) as int;
    let unit = denom * step;
    let n = nearest_even(numer as int, unit);
    lemma_quotient_range(numer, denom);
    lemma_nearest_even_bound(numer as int, unit);
    lemma_fundamental_div_mod(numer as int, denom as int);
    let r = numer as int % denom as int;
    lemma2_to64();
    assert(n * step * denom == n * unit) by (nonlinear_arith)
        requires
            unit == denom * step,
    ;
    if numer == 0 {
        lemma_whole_is_nearest(0, unit);
        assert(0 * unit == 0 && 0 * step * denom == 0);
    } else {
        lemma_excess_range(q);
        if e == 0 {
            assert(unit == denom) by (nonlinear_arith)
                requires
                    unit == denom * step,
                    step == 1,
            ;
        } else {
            assert(0x10_0000_0000_0000 * unit <= numer) by (nonlinear_arith)
                requires
                    numer == denom * q + r,
                    0 <= r,
                    0x10_0000_0000_0000 * step <= q,
                    unit == denom * step,
            ;
        }
    }
}

/// What is added to a large double disappears where it is less than half of its steps.
pub proof fn lemma_small_term_is_lost(p: nat, k: nat, term: nat)
    requires
        0x20_0000_0000_0000 <= p,
        term < pow2(k),
    ensures
        as_double((as_double(p) * pow2(k) + term) as nat) == as_double(p) * pow2(k),
{
    let a = excess_bits(p);
    let n = nearest_even(p as int, pow2(a) as int);
    lemma2_to64();
    lemma_excess_range(p);
    assert(0 < a);
    lemma_pow2_pos(a);
    let step = pow2(a) as int;
    lemma_nearest_even_is_monotone(p as int, 0x20_0000_0000_0000 * step, step);
    lemma_nearest_even_is_monotone(0x10_0000_0000_0000 * step, p as int, step);
    lemma_whole_is_nearest(0x20_0000_0000_0000, step);
    lemma_whole_is_nearest(0x10_0000_0000_0000, step);
    // The largest significand is carried into the next bit.

    let (m, e) = if n == 0x20_0000_0000_0000 {
        (0x10_0000_0000_0000int, a + 1)
    } else {
        (n, a)
    };
    lemma_pow2_unfold(a + 1);
    let unit = pow2(e + k) as int;
    lemma_pow2_adds(e, k);
    assert(as_double(p) * pow2(k) == m * unit) by (nonlinear_arith)
        requires
            as_double(p) == n * step,
            n * step == m * pow2(e),
            unit == pow2(e) * pow2(k),
    ;
    lemma_pow2_unfold(e);
    lemma_pow2_pos((e - 1) as nat);
    assert(2 * pow2(k) <= unit) by (nonlinear_arith)
        requires
            unit == pow2(e) * pow2(k),
            2 <= pow2(e),
            0 <= pow2(k),
    ;
    let sum = (m * unit + term) as nat;
    assert(0x10_0000_0000_0000 * unit <= sum < 0x20_0000_0000_0000 * unit) by (nonlinear_arith)
        requires
            0x10_0000_0000_0000 <= m < 0x20_0000_0000_0000,
            0 <= term < unit,
            sum == m * unit + term,
    ;
    lemma_excess_is(sum, e + k);
    lemma_fundamental_div_mod_converse(sum as int, unit, m, term as int);
}

/// Rounding gives a number of up to 53 bits times a power of two, and no other number of
/// that kind, `m * 2^e`, is nearer.
pub proof fn lemma_no_double_is_nearer(p: nat, m: int, e: nat)
    requires
        0 <= m < 0x20_0000_0000_0000,
    ensures
        ({
            let off = if as_double(p) > p {
                as_double(p) - p
            } else {
                p - as_double(p)
            };
            let other = m * pow2(e);
            let other_off = if other > p {
                other - p
            } else {
                p - other
            };
            off <= other_off
        }),
        exists|n: int, k: nat|
            0 <= n <= 0x20_0000_0000_0000 && as_double(p) == #[trigger] (n * pow2(k)),
{
    let k = excess_bits(p);
    let step = pow2(k) as int;
    let n = nearest_even(p as int, step);
    lemma_pow2_pos(k);
    lemma_pow2_pos(e);
    lemma_excess_range(p);
    lemma_nearest_even_is_monotone(0, p as int, step);
    lemma_nearest_even_is_monotone(p as int, 0x20_0000_0000_0000 * step, step);
    lemma_whole_is_nearest(0, step);
    lemma_whole_is_nearest(0x20_0000_0000_0000, step);
    assert(0 * step == 0);
    assert(as_double(p) == n * pow2(k));
    let other = m * pow2(e);
    if k <= e {
        lemma_pow2_adds(k, (e - k) as nat);
        let y = m * pow2((e - k) as nat);
        assert(other == y * step) by (nonlinear_arith)
            requires
                other == m * pow2(e),
                pow2(e) == step * pow2((e - k) as nat),
                y == m * pow2((e - k) as nat),
        ;
        lemma_no_multiple_is_nearer(p as int, step, y);
    } else {
        lemma_pow2_unfold(k);
        if e + 1 < k {
            lemma_pow2_strictly_increases(e, (k - 1) as nat);
        }
        assert(other <= 0x10_0000_0000_0000 * step) by (nonlinear_arith)
            requires
                other == m * pow2(e),
                m < 0x20_0000_0000_0000,
                2 * pow2(e) <= step,
        ;
        lemma_no_multiple_is_nearer(p as int, step, 0x10_0000_0000_0000);
    }
}

proof fn lemma_no_multiple_is_nearer(p: int, step: int, y: int)
    requires
        0 < step,
    ensures
        ({
            let x = nearest_even(p, step) * step;
            let off = if x > p {
                x - p
            } else {
                p - x
            };
            let other_off = if y * step > p {
                y * step - p
            } else {
                p - y * step
            };
            off <= other_off
        }),
{
    let n = nearest_even(p, step);
    lemma_nearest_even_bound(p, step);
    if y < n {
        assert(y * step + step <= n * step) by (nonlinear_arith)
            requires
                y + 1 <= n,
                0 < step,
        ;
    } else if y > n {
        assert(n * step + step <= y * step) by (nonlinear_arith)
            requires
                n + 1 <= y,
                0 < step,
        ;
    }
}

/// The integer nearest to a quotient is at most half away from it, and a tie goes to the
/// even one.
pub proof fn lemma_ties_go_to_the_even_number(numer: int, denom: int)
    requires
        0 < denom,
    ensures
        ({
            let off = 2 * (nearest_even(numer, denom) * denom - numer);
            &&& -denom <= off <= denom
            &&& off == denom || off == -denom ==> nearest_even(numer, denom) % 2 == 0
        }),
{
    let q = numer / denom;
    lemma_fundamental_div_mod(numer, denom);
    assert((q + 1) * denom == q * denom + denom) by (nonlinear_arith);
    assert(denom * q == q * denom) by (nonlinear_arith);
}

/// The integer nearest to a quotient is at most half away from it, and a tie goes up.
pub proof fn lemma_ties_go_up(numer: int, denom: int)
    requires
        0 < denom,
    ensures
        ({
            let off = 2 * (nearest(numer, denom) * denom - numer);
            -denom < off <= denom
        }),
{
    lemma_nearest_bound(numer, denom);
}

/// A quotient that is a double already is not rounded.
pub proof fn lemma_quotient_exact(whole: nat, denom: nat)
    requires
        0 < denom,
        as_double(whole) == whole,
    ensures
        quotient_as_double(whole * denom, denom) == whole,
{
    let e = excess_bits(whole);
    let step = pow2(e) as int;
    let n = nearest_even(whole as int, step);
    lemma_pow2_pos(e);
    lemma_fundamental_div_mod_converse((whole * denom) as int, denom as int, whole as int, 0);
    let unit = denom * step;
    assert(0 < unit) by (nonlinear_arith)
        requires
            unit == denom * step,
            0 < denom,
            0 < step,
    ;
    assert(whole * denom == n * unit) by (nonlinear_arith)
        requires
            whole == n * step,
            unit == denom * step,
    ;
    lemma_whole_is_nearest(n, unit);
}

/// No number of up to 53 bits times a power of two, `m * 2^e`, is nearer to a quotient than
/// the double it is rounded to, where the quotient has the 53 bits of a double before the
/// point.
pub proof fn lemma_no_double_is_nearer_to_a_quotient(numer: nat, denom: nat, m: int, e: nat)
    requires
        0 < denom,
        0x10_0000_0000_0000 * denom <= numer,
        0 <= m < 0x20_0000_0000_0000,
    ensures
        ({
            let scaled = quotient_as_double(numer, denom) * denom;
            let off = if scaled > numer {
                scaled - numer
            } else {
                numer - scaled
            };
            let other = m * pow2(e) * denom;
            let other_off = if other > numer {
                other - numer
            } else {
                numer - other
            };
            off <= other_off
        }),
{
    let q = (numer as int / denom as int) as nat;
    let k = excess_bits(q);
    let step = pow2(k) as int;
    let unit = denom * step;
    let n = nearest_even(numer as int, unit);
    lemma_quotient_range(numer, denom);
    lemma_pow2_pos(k);
    lemma_pow2_pos(e);
    lemma_excess_range(q);
    lemma_fundamental_div_mod(numer as int, denom as int);
    let r = numer as int % denom as int;
    assert(n * step * denom == n * unit) by (nonlinear_arith)
        requires
            unit == denom * step,
    ;
    let other = m * pow2(e) * denom;
    if k <= e {
        lemma_pow2_adds(k, (e - k) as nat);
        let y = m * pow2((e - k) as nat);
        assert(other == y * unit) by (nonlinear_arith)
            requires
                other == m * pow2(e) * denom,
                pow2(e) == step * pow2((e - k) as nat),
                y == m * pow2((e - k) as nat),
                unit == denom * step,
        ;
        lemma_no_multiple_is_nearer(numer as int, unit, y);
    } else {
        lemma_pow2_unfold(k);
        if e + 1 < k {
            lemma_pow2_strictly_increases(e, (k - 1) as nat);
        }
        assert(other <= 0x10_0000_0000_0000 * unit) by (nonlinear_arith)
            requires
                other == m * pow2(e) * denom,
                m < 0x20_0000_0000_0000,
                2 * pow2(e) <= step,
                unit == denom * step,
                0 < denom,
        ;
        assert(0x10_0000_0000_0000 * unit <= numer) by (nonlinear_arith)
            requires
                numer == denom * q + r,
                0 <= r,
                0x10_0000_0000_0000 * step <= q,
                unit == denom * step,
        ;
        lemma_no_multiple_is_nearer(numer as int, unit, 0x10_0000_0000_0000);
    }
}

/// `2^k` for an exponent that a 128-bit integer has room for.
pub fn power_of_two(k: u32) -> (d: u128)
    requires
        k <= 90,
    ensures
        d == pow2(k as nat),
{
    let low: u32 = k / 2;
    let high: u32 = k - low;
    proof {
        lemma2_to64();
        lemma2_to64_rest();
        if low < 45 {
            lemma_pow2_strictly_increases(low as nat, 45);
        }
        if high < 45 {
            lemma_pow2_strictly_increases(high as nat, 45);
        }
        lemma_u64_shl_is_mul(1, low as u64);
        lemma_u64_shl_is_mul(1, high as u64);
        lemma_pow2_adds(low as nat, high as nat);
        assert(pow2(low as nat) * pow2(high as nat) <= 0x2000_0000_0000 * 0x2000_0000_0000)
            by (nonlinear_arith)
            requires
                0 <= pow2(low as nat) <= 0x2000_0000_0000,
                0 <= pow2(high as nat) <= 0x2000_0000_0000,
        ;
    }
    let a: u64 = 1u64 << (low as u64);
    let b: u64 = 1u64 << (high as u64);
    (a as u128) * (b as u128)
}

/// The distance of the doubles around the whole number `p`.
pub fn step_of(p: u128) -> (step: u128)
    ensures
        step == pow2(excess_bits(p as nat)),
        step == 1 || step <= p,
        1 <= step,
{
    let mut rest: u128 = p;
    let mut step: u128 = 1;
    let ghost mut dropped: nat = 0;
    proof {
        lemma2_to64();
    }
    while rest >= 0x20_0000_0000_0000
        invariant
            excess_bits(p as nat) == dropped + excess_bits(rest as nat),
            step == pow2(dropped),
            step >= 1,
            step == 1 || step <= p,
            rest * step <= p,
        decreases rest,
    {
        proof {
            lemma_pow2_unfold(dropped + 1);
            dropped = dropped + 1;
            let half = rest / 2;
            assert(half * (2 * step) <= p && 2 * step <= p) by (nonlinear_arith)
                requires
                    rest * step <= p,
                    half == rest / 2,
                    rest >= 2,
            ;
        }
        rest = rest / 2;
        step = step * 2;
    }
    step
}

/// The integer nearest to `numer / denom`, with a tie going to the even one.
pub fn round_half_even(numer: u128, denom: u128) -> (rounded: u128)
    requires
        0 < denom,
        numer < 0x8000_0000_0000_0000_0000_0000_0000_0000,
    ensures
        rounded == nearest_even(numer as int, denom as int),
        rounded * denom <= 2 * numer || denom > numer,
{
    let quotient: u128 = numer / denom;
    let rest: u128 = numer % denom;
    proof {
        lemma_fundamental_div_mod(numer as int, denom as int);
        assert(quotient <= numer && (denom > numer || (quotient + 1) * denom <= 2 * numer)
            && quotient * denom <= 2 * numer) by (nonlinear_arith)
            requires
                numer == denom * quotient + rest,
                0 <= rest < denom,
        ;
    }
    let left: u128 = denom - rest;
    if rest < left || (rest == left && quotient % 2 == 0) {
        quotient
    } else {
        quotient + 1
    }
}

/// The double nearest to the whole number `p`.
pub fn round_to_double(p: u128) -> (rounded: u128)
    requires
        p < 0x8000_0000_0000_0000_0000_0000_0000_0000,
    ensures
        rounded == as_double(p as nat),
        rounded <= 2 * p,
{
    let step: u128 = step_of(p);
    proof {
        lemma_as_double_bound(p as nat);
    }
    round_half_even(p, step) * step
}

/// The double nearest to `numer / denom`, for a quotient that is zero or has at least the
/// 53 bits of a double before the point.
pub fn divide_to_double(numer: u128, denom: u128) -> (rounded: u128)
    requires
        0 < denom,
        numer < 0x8000_0000_0000_0000_0000_0000_0000_0000,
    ensures
        rounded == quotient_as_double(numer as nat, denom as nat),
{
    let quotient: u128 = numer / denom;
    let step: u128 = step_of(quotient);
    proof {
        lemma_fundamental_div_mod(numer as int, denom as int);
        let r = numer as int % denom as int;
        assert(0 < denom * step && (step == 1 || denom * step <= numer)) by (nonlinear_arith)
            requires
                numer == denom * quotient + r,
                0 <= r,
                0 < denom,
                1 <= step,
                step == 1 || step <= quotient,
        ;
        assert(denom * 1 == denom);
    }
    let unit: u128 = denom * step;
    let rounded: u128 = round_half_even(numer, unit);
    proof {
        lemma_nearest_even_bound(numer as int, unit as int);
        assert(rounded * step <= 2 * numer + 1) by (nonlinear_arith)
            requires
                2 * (rounded * unit - numer) <= unit,
                unit == denom * step,
                0 < denom,
                1 <= step,
                0 <= rounded,
                step == 1 || unit <= numer,
        ;
    }
    rounded * step
}

} // verus!
