//! What holds of binary64 arithmetic: rounding, sums and quotients keep the order of numbers.

use vstd::arithmetic::div_mod::*;
use vstd::arithmetic::mul::*;
use vstd::arithmetic::power2::*;
use vstd::prelude::*;

use crate::binary64::{Binary64, HIDDEN_BIT, INFINITE_MAGNITUDE};

verus! {

proof fn lemma_bits()
    ensures
        pow2(52) == HIDDEN_BIT,
        pow2(53) == 2 * HIDDEN_BIT,
        pow2(0) == 1,
{
    lemma2_to64();
    lemma2_to64_rest();
}

/// A scale fits its number: no smaller one does.
proof fn lemma_scale_fits(n: nat, d: nat)
    requires
        d > 0,
    ensures
        ({
            let k = crate::binary64::scale(n, d);
            &&& n < d * pow2(53 + k)
            &&& k > 0 ==> n >= d * pow2((52 + k) as nat)
        }),
    decreases n - d,
{
    lemma_bits();
    let k = crate::binary64::scale(n, d);
    if k > 0 {
        lemma_scale_fits(n, 2 * d);
        let below = crate::binary64::scale(n, 2 * d);
        assert(k == 1 + below);
        lemma_pow2_unfold(53 + k);
        assert(d * pow2(53 + k) == (2 * d) * pow2(53 + below)) by (nonlinear_arith)
            requires
                pow2(53 + k) == 2 * pow2((52 + k) as nat),
                53 + below == 52 + k,
        ;
        if below > 0 {
            lemma_pow2_unfold((52 + k) as nat);
            assert(d * pow2((52 + k) as nat) == (2 * d) * pow2((52 + below) as nat)) by (nonlinear_arith)
                requires
                    pow2((52 + k) as nat) == 2 * pow2((51 + k) as nat),
                    52 + below == 51 + k,
            ;
        }
    }
}

proof fn lemma_half_even_monotone(n: nat, m: nat, d: nat)
    requires
        n <= m,
        d > 0,
    ensures
        crate::binary64::half_even(n, d) <= crate::binary64::half_even(m, d),
        m / d <= crate::binary64::half_even(m, d) <= m / d + 1,
{
    lemma_div_is_ordered(n as int, m as int, d as int);
    lemma_fundamental_div_mod(n as int, d as int);
    lemma_fundamental_div_mod(m as int, d as int);
    if n / d == m / d {
        assert(n % d <= m % d);
    }
}

/// Rounding keeps the order of numbers.
pub proof fn law_rounding_is_monotone(n: nat, m: nat, d: nat)
    requires
        n <= m,
        d > 0,
    ensures
        crate::binary64::nearest(n, d) <= crate::binary64::nearest(m, d),
{
    lemma_bits();
    let i = crate::binary64::scale(n, d);
    let j = crate::binary64::scale(m, d);
    lemma_scale_fits(n, d);
    lemma_scale_fits(m, d);
    lemma_pow2_pos(i);
    lemma_pow2_pos(j);
    lemma_mul_strictly_positive(d as int, pow2(i) as int);
    lemma_mul_strictly_positive(d as int, pow2(j) as int);
    let low_unit = d * pow2(i);
    let high_unit = d * pow2(j);
    let low = crate::binary64::half_even(n, low_unit);
    let high = crate::binary64::half_even(m, high_unit);
    if i == j {
        lemma_half_even_monotone(n, m, low_unit);
        assert(i * HIDDEN_BIT as nat + low <= j * HIDDEN_BIT as nat + high);
    } else {
        if j < i {
            // A number of a smaller scale lies below.
            if j + 1 < i {
                lemma_pow2_strictly_increases(53 + j, (52 + i) as nat);
            }
            assert(d * pow2(53 + j) <= d * pow2((52 + i) as nat)) by (nonlinear_arith)
                requires
                    pow2(53 + j) <= pow2((52 + i) as nat),
            ;
            assert(false);
        }
        lemma_half_even_monotone(n, n, low_unit);
        lemma_half_even_monotone(m, m, high_unit);
        lemma_pow2_adds(53, i);
        lemma_pow2_adds(52, j);
        assert(n / low_unit < 2 * HIDDEN_BIT as nat) by {
            let limit = (2 * HIDDEN_BIT) as int;
            assert(d * pow2(53 + i) == limit * low_unit) by (nonlinear_arith)
                requires
                    pow2(53 + i) == limit * pow2(i),
                    low_unit == d * pow2(i),
            ;
            lemma_div_by_multiple_is_strongly_ordered(
                n as int,
                limit * low_unit as int,
                limit,
                low_unit as int,
            );
            lemma_div_multiples_vanish(limit, low_unit as int);
        }
        assert(m / high_unit >= HIDDEN_BIT as nat) by {
            let limit = HIDDEN_BIT as int;
            assert(d * pow2((52 + j) as nat) == limit * high_unit) by (nonlinear_arith)
                requires
                    pow2((52 + j) as nat) == limit * pow2(j),
                    high_unit == d * pow2(j),
            ;
            lemma_div_is_ordered(limit * high_unit as int, m as int, high_unit as int);
            lemma_div_multiples_vanish(limit, high_unit as int);
        }
        assert(i * HIDDEN_BIT as nat + low <= (i + 2) * HIDDEN_BIT as nat);
        assert((j + 1) * HIDDEN_BIT as nat <= j * HIDDEN_BIT as nat + high);
        assert((i + 2) * HIDDEN_BIT as nat <= (j + 1) * HIDDEN_BIT as nat);
    }
}

/// Whole units below the first that a significand cannot hold are numbers themselves.
proof fn lemma_small_units(n: nat)
    requires
        n < 2 * HIDDEN_BIT,
    ensures
        crate::binary64::nearest(n, 1) == n,
{
    lemma_bits();
    assert(crate::binary64::scale(n, 1) == 0);
    lemma_fundamental_div_mod_converse(n as int, 1, n as int, 0);
    assert(1 * pow2(0) == 1);
}

/// The values of numbers are ordered as the numbers are.
proof fn lemma_value_order(a: Binary64, b: Binary64)
    requires
        a.finite(),
        b.finite(),
    ensures
        a.rank() <= b.rank() <==> a.value() <= b.value(),
        a.value() == 0 <==> a.zero(),
{
    lemma_magnitude_order(a.magnitude(), b.magnitude());
    lemma_magnitude_order(0, a.magnitude());
    lemma_magnitude_order(0, b.magnitude());
    assert(crate::binary64::units(0) == 0);
}

proof fn lemma_magnitude_order(a: nat, b: nat)
    ensures
        a < b ==> crate::binary64::units(a) < crate::binary64::units(b),
        b < a ==> crate::binary64::units(b) < crate::binary64::units(a),
{
    if a < b {
        crate::binary64::lemma_units_increase(a, b);
    }
    if b < a {
        crate::binary64::lemma_units_increase(b, a);
    }
}

/// The number that a whole number of units is rounded to.
pub open spec fn rounded(total: int) -> int {
    if total < 0 {
        -(crate::binary64::nearest((-total) as nat, 1) as int)
    } else {
        crate::binary64::nearest(total as nat, 1) as int
    }
}

proof fn lemma_rounded_order(x: int, y: int)
    requires
        x <= y,
    ensures
        rounded(x) <= rounded(y),
{
    lemma_small_units(0);
    if y < 0 {
        law_rounding_is_monotone((-y) as nat, (-x) as nat, 1);
    } else if x >= 0 {
        law_rounding_is_monotone(x as nat, y as nat, 1);
    }
}

/// The rank of a sum of finite numbers.
pub proof fn lemma_finite_sum(a: Binary64, b: Binary64)
    requires
        a.finite(),
        b.finite(),
    ensures
        !a.sum(b).nan(),
        a.sum(b).rank() == rounded(a.value() + b.value()),
        -INFINITE_MAGNITUDE <= rounded(a.value() + b.value()) <= INFINITE_MAGNITUDE,
{
    reveal(Binary64::sum);
    lemma_small_units(0);
}

/// The order of the terms of a sum does not matter.
pub proof fn law_sums_commute(a: Binary64, b: Binary64)
    ensures
        a.sum(b) == b.sum(a),
{
    reveal(Binary64::sum);
    if a.infinite() && b.infinite() && a.negative() == b.negative() {
        assert(a.bits == b.bits);
    }
}

/// Sums keep the order of numbers: with a larger term a sum is not smaller, if it is a number.
pub proof fn law_sums_are_monotone(a: Binary64, b: Binary64, c: Binary64)
    requires
        a.at_most(b),
        !a.sum(c).nan(),
        !b.sum(c).nan(),
    ensures
        a.sum(c).at_most(b.sum(c)),
{
    reveal(Binary64::sum);
    if a.finite() && b.finite() && c.finite() {
        lemma_finite_sum(a, c);
        lemma_finite_sum(b, c);
        lemma_value_order(a, b);
        lemma_rounded_order(a.value() + c.value(), b.value() + c.value());
    } else if a.finite() && c.finite() {
        lemma_finite_sum(a, c);
    } else if b.finite() && c.finite() {
        lemma_finite_sum(b, c);
    }
}

/// The difference of finite numbers tells how they are ordered: it is never lost in rounding.
pub proof fn law_differences_tell_the_order(a: Binary64, b: Binary64)
    requires
        a.finite(),
        b.finite(),
    ensures
        a.difference(b).less(Binary64 { bits: 0 }) <==> a.less(b),
        a.difference(b).zero() <==> a.rank() == b.rank(),
{
    let negated = b.negated();
    assert(negated.finite() && negated.value() == -b.value());
    lemma_finite_sum(a, negated);
    lemma_value_order(a, b);
    lemma_value_order(b, a);
    let total = a.value() - b.value();
    lemma_small_units(0);
    lemma_small_units(1);
    if total < 0 {
        lemma_rounded_order(total, -1);
    } else if total > 0 {
        lemma_rounded_order(1, total);
    }
}

/// Quotients by a positive number keep the order of numbers.
pub proof fn law_quotients_are_monotone(a: Binary64, b: Binary64, c: Binary64)
    requires
        a.at_most(b),
        c.finite(),
        !c.negative(),
        !c.zero(),
    ensures
        a.quotient(c).at_most(b.quotient(c)),
{
    reveal(Binary64::quotient);
    lemma_magnitude_order(0, c.magnitude());
    assert(crate::binary64::units(0) == 0);
    let d = crate::binary64::units(c.magnitude());
    let x = crate::binary64::units(a.magnitude());
    let y = crate::binary64::units(b.magnitude());
    if a.finite() && b.finite() {
        lemma_magnitude_order(a.magnitude(), b.magnitude());
        let unit = pow2(1074);
        if x <= y {
            lemma_mul_inequality(x as int, y as int, unit as int);
            law_rounding_is_monotone(x * unit, y * unit, d);
        }
        if y <= x {
            lemma_mul_inequality(y as int, x as int, unit as int);
            law_rounding_is_monotone(y * unit, x * unit, d);
        }
        if a.negative() != b.negative() && a.zero() {
            lemma_quotient_of_zero(d);
        }
    }
}

/// Numbers keep their order when they are rounded.
pub proof fn law_numbers_keep_their_order(n: nat, m: nat)
    requires
        n <= m,
    ensures
        Binary64::nearest_to(n).at_most(Binary64::nearest_to(m)),
        !Binary64::nearest_to(n).negative(),
{
    reveal(Binary64::nearest_to);
    let unit = pow2(1074);
    lemma_mul_inequality(n as int, m as int, unit as int);
    law_rounding_is_monotone(n * unit, m * unit, 1);
    crate::binary64::lemma_magnitude_is_number(n * unit, 1);
    crate::binary64::lemma_magnitude_is_number(m * unit, 1);
}

proof fn lemma_quotient_of_zero(d: nat)
    requires
        d > 0,
    ensures
        crate::binary64::nearest(0 * pow2(1074), d) == 0,
{
    crate::binary64::lemma_nearest_zero(d);
    assert(0 * pow2(1074) == 0);
}

}
