//! Facts about double-precision arithmetic: its order, and the sums that need no rounding.
use crate::double::Double;
use crate::float::{lemma_units_positive, lemma_zero_units, WIDE, WIDE_INFINITY};
use crate::rounding::{
    encode, lemma_encode_exact, lemma_encode_monotone_same, lemma_encode_scaled, lemma_encode_units,
    lemma_nearest_exact, lemma_units_of_parts, lemma_units_order, units,
};
use vstd::arithmetic::div_mod::{lemma_div_is_ordered, lemma_fundamental_div_mod_converse};
use vstd::arithmetic::power2::{
    lemma2_to64, lemma2_to64_rest, lemma_pow2_adds, lemma_pow2_pos, pow2,
};
use vstd::prelude::*;

verus! {

/// `|v|`.
pub open spec fn magnitude_of(v: int) -> nat {
    if v < 0 {
        (-v) as nat
    } else {
        v as nat
    }
}

/// The rank of the number nearest to `v / d` units.
pub open spec fn rank_of(v: int, d: nat) -> int {
    let b = encode(magnitude_of(v), d, 53);
    let m = if b < WIDE_INFINITY {
        b as int
    } else {
        WIDE_INFINITY as int
    };
    if v < 0 {
        -m
    } else {
        m
    }
}

/// The finite number `x` is `n * 2^e` units.
pub open spec fn is_scaled(x: Double, n: int, e: nat) -> bool {
    x.is_finite() && x.value() == n * pow2(e)
}

/// The finite number `x` is the integer `n`.
pub open spec fn is_whole(x: Double, n: int) -> bool {
    is_scaled(x, n, 1074)
}

pub proof fn lemma_encode_zero(d: nat)
    requires
        d > 0,
    ensures
        encode(0, d, 53) == 0,
{
    lemma_pow2_pos(53);
    assert(0 < d * pow2(53)) by (nonlinear_arith)
        requires
            d > 0,
            pow2(53) > 0,
    ;
    assert(0 * d == 0);
    lemma_nearest_exact(0, d);
}

/// Rounding keeps the order.
pub proof fn lemma_rank_monotone(v1: int, v2: int, d: nat)
    requires
        d > 0,
        v1 <= v2,
    ensures
        rank_of(v1, d) <= rank_of(v2, d),
{
    if v1 < 0 && v2 < 0 {
        lemma_encode_monotone_same(magnitude_of(v2), magnitude_of(v1), d, 53);
    } else if v1 >= 0 {
        lemma_encode_monotone_same(magnitude_of(v1), magnitude_of(v2), d, 53);
    }
}

pub proof fn lemma_rank_scaled(v: int, d: nat, c: nat)
    requires
        d > 0,
        c > 0,
    ensures
        rank_of(v * c, d * c) == rank_of(v, d),
{
    assert(magnitude_of(v * c) == magnitude_of(v) * c && (v * c < 0 <==> v < 0))
        by (nonlinear_arith)
        requires
            c > 0,
    ;
    lemma_encode_scaled(magnitude_of(v), d, c, 53);
}

/// A finite number has the rank of its value.
pub proof fn lemma_rank_of_value(x: Double)
    requires
        x.is_finite(),
    ensures
        rank_of(x.value(), 1) == x.rank(),
        !x.is_nan(),
{
    lemma_encode_units(x.binary().magnitude as nat, 53);
    if x.binary().magnitude == 0 {
        lemma_zero_units(WIDE);
    } else {
        lemma_units_positive(x.binary().magnitude, WIDE);
    }
}

/// The order of ranks is the order of values.
pub proof fn lemma_order_of_values(x: Double, y: Double)
    requires
        x.is_finite(),
        y.is_finite(),
    ensures
        x.rank() < y.rank() <==> x.value() < y.value(),
        x.lt(y) <==> x.value() < y.value(),
        x.le(y) <==> x.value() <= y.value(),
{
    reveal(Double::spec_lt);
    reveal(Double::spec_le);
    let a = x.binary().magnitude as nat;
    let b = y.binary().magnitude as nat;
    lemma_units_order(a, b, 53);
    lemma_units_order(b, a, 53);
    lemma_units_order(0, a, 53);
    lemma_units_order(0, b, 53);
    lemma_zero_units(WIDE);
}

/// The rank of a sum is that of the exact sum.
pub proof fn lemma_rank_of_sum(x: Double, y: Double)
    requires
        x.is_finite(),
        y.is_finite(),
    ensures
        !x.add(y).is_nan(),
        x.add(y).rank() == rank_of(x.value() + y.value(), 1),
{
    reveal(Double::spec_add);
    lemma_encode_zero(1);
}

/// The rank of a product is that of the exact product.
pub proof fn lemma_rank_of_product(x: Double, y: Double)
    requires
        x.is_finite(),
        y.is_finite(),
    ensures
        !x.mul(y).is_nan(),
        x.mul(y).rank() == rank_of(x.value() * y.value(), pow2(1074)),
{
    reveal(Double::spec_mul);
    lemma_pow2_pos(1074);
    lemma_encode_zero(pow2(1074));
    let a = x.binary().units(WIDE);
    let b = y.binary().units(WIDE);
    lemma_signs(a as int, b as int);
}

proof fn lemma_signs(a: int, b: int)
    requires
        a >= 0,
        b >= 0,
    ensures
        (-a) * b == -(a * b),
        a * (-b) == -(a * b),
        (-a) * (-b) == a * b,
        a * b >= 0,
{
    assert((-a) * b == -(a * b) && a * (-b) == -(a * b) && (-a) * (-b) == a * b)
        by (nonlinear_arith);
    assert(a * b >= 0) by (nonlinear_arith)
        requires
            a >= 0,
            b >= 0,
    ;
}

/// The rank of a quotient is that of the exact quotient.
pub proof fn lemma_rank_of_quotient(x: Double, y: Double)
    requires
        x.is_finite(),
        y.is_finite(),
        y.value() > 0,
    ensures
        !x.div(y).is_nan(),
        x.div(y).rank() == rank_of(x.value() * pow2(1074), y.value() as nat),
{
    reveal(Double::spec_div);
    lemma_zero_units(WIDE);
    let a = x.binary().units(WIDE);
    let w = pow2(1074);
    lemma_signs(a as int, w as int);
    lemma_encode_zero(y.value() as nat);
    if y.binary().negative {
        assert(y.value() <= 0);
    }
    assert(y.binary().magnitude != 0);
}

/// The other sign.
pub proof fn lemma_negated(x: Double)
    ensures
        x.neg().is_nan() == x.is_nan(),
        x.neg().is_finite() == x.is_finite(),
        x.neg().value() == -x.value(),
        x.neg().rank() == -x.rank(),
{
    reveal(Double::spec_neg);
}

/// Without the sign.
pub proof fn lemma_absolute(x: Double)
    ensures
        x.abs().is_nan() == x.is_nan(),
        x.abs().is_finite() == x.is_finite(),
        x.abs().value() == magnitude_of(x.value()),
        x.abs().rank() == magnitude_of(x.rank()),
{
    reveal(Double::spec_abs);
}

/// A number that is not `nan` is known by its rank, up to the sign of zero.
pub proof fn lemma_value_of_rank(x: Double)
    requires
        !x.is_nan(),
    ensures
        x.is_finite() <==> -WIDE_INFINITY < x.rank() < WIDE_INFINITY,
        x.is_finite() && x.rank() >= 0 ==> x.value() == units(x.rank() as nat, 53),
        x.is_finite() && x.rank() < 0 ==> x.value() == -(units((-x.rank()) as nat, 53) as int),
{
    lemma_zero_units(WIDE);
}

/// A number whose rank is that of `n * 2^e`, with at most 53 binary digits in `n`, is just that.
pub proof fn lemma_scaled_rank(x: Double, n: int, e: nat)
    requires
        !x.is_nan(),
        x.rank() == rank_of(n * pow2(e), 1),
        -0x20_0000_0000_0000 < n < 0x20_0000_0000_0000,
        e <= 2000,
    ensures
        is_scaled(x, n, e),
{
    let m = magnitude_of(n);
    lemma2_to64_rest();
    lemma_pow2_pos(e);
    lemma_signs(m as int, pow2(e) as int);
    assert(magnitude_of(n * pow2(e)) == m * pow2(e));
    lemma_encode_exact(m, e, 53);
    assert(e * pow2(52) <= 2000 * pow2(52)) by (nonlinear_arith)
        requires
            e <= 2000,
    ;
    lemma_value_of_rank(x);
    lemma_zero_units(WIDE);
    if encode(m * pow2(e), 1, 53) == 0 {
        assert(m * pow2(e) == 0);
    }
}

/// A sum with at most 53 binary digits is exact.
pub proof fn lemma_exact_sum(x: Double, y: Double, n: int, e: nat)
    requires
        x.is_finite(),
        y.is_finite(),
        x.value() + y.value() == n * pow2(e),
        -0x20_0000_0000_0000 < n < 0x20_0000_0000_0000,
        e <= 2000,
    ensures
        is_scaled(x.add(y), n, e),
{
    lemma_rank_of_sum(x, y);
    lemma_scaled_rank(x.add(y), n, e);
}

/// A difference with at most 53 binary digits is exact.
pub proof fn lemma_exact_difference(x: Double, y: Double, n: int, e: nat)
    requires
        x.is_finite(),
        y.is_finite(),
        x.value() - y.value() == n * pow2(e),
        -0x20_0000_0000_0000 < n < 0x20_0000_0000_0000,
        e <= 2000,
    ensures
        is_scaled(x.sub(y), n, e),
{
    lemma_negated(y);
    lemma_exact_sum(x, y.neg(), n, e);
}

/// Every `i32` is exact.
pub proof fn lemma_exact_i32(n: i32)
    ensures
        is_whole(Double::from_i32(n), n as int),
{
    reveal(Double::spec_from_i32);
    lemma_pow2_pos(1074);
    lemma_signs(magnitude_of(n as int) as int, pow2(1074) as int);
    lemma_encode_zero(1);
    lemma_scaled_rank(Double::from_i32(n), n as int, 1074);
}

/// The sum of two integers.
pub proof fn lemma_whole_sum(x: Double, y: Double, a: int, b: int)
    requires
        is_whole(x, a),
        is_whole(y, b),
        -0x20_0000_0000_0000 < a + b < 0x20_0000_0000_0000,
    ensures
        is_whole(x.add(y), a + b),
{
    assert((a + b) * pow2(1074) == a * pow2(1074) + b * pow2(1074)) by (nonlinear_arith);
    lemma_exact_sum(x, y, a + b, 1074);
}

/// The difference of two integers.
pub proof fn lemma_whole_difference(x: Double, y: Double, a: int, b: int)
    requires
        is_whole(x, a),
        is_whole(y, b),
        -0x20_0000_0000_0000 < a - b < 0x20_0000_0000_0000,
    ensures
        is_whole(x.sub(y), a - b),
{
    assert((a - b) * pow2(1074) == a * pow2(1074) - b * pow2(1074)) by (nonlinear_arith);
    lemma_exact_difference(x, y, a - b, 1074);
}

/// The value of a bit pattern with `k` doublings and the significand `m`.
pub proof fn lemma_pattern_value(x: Double, m: nat, k: nat)
    requires
        x.bits == k * 0x10_0000_0000_0000 + m,
        m <= 0x20_0000_0000_0000,
        k == 0 || m >= 0x10_0000_0000_0000,
        x.bits < WIDE_INFINITY,
    ensures
        is_scaled(x, m as int, k),
{
    lemma2_to64_rest();
    lemma_units_of_parts(m, k, 53);
}

/// The value of a power of two.
pub proof fn lemma_power_value(x: Double, e: nat)
    requires
        e >= 52,
        x.bits == (e - 51) * 0x10_0000_0000_0000,
        x.bits < WIDE_INFINITY,
    ensures
        x.is_finite(),
        x.value() == pow2(e),
{
    let k = (e - 52) as nat;
    lemma_pattern_value(x, 0x10_0000_0000_0000, k);
    lemma2_to64_rest();
    lemma_pow2_adds(52, k);
}

/// Zero, with either sign.
pub open spec fn is_zero(x: Double) -> bool {
    x.is_finite() && x.value() == 0
}

/// Nothing comes of nothing.
pub proof fn lemma_zero_arithmetic(z: Double, x: Double)
    requires
        is_zero(z),
        x.is_finite(),
    ensures
        is_zero(x.mul(z)),
        is_zero(z.mul(x)),
        x.add(z).is_finite() && x.add(z).value() == x.value(),
        z.add(x).is_finite() && z.add(x).value() == x.value(),
        x.sub(z).is_finite() && x.sub(z).value() == x.value(),
        is_zero(x.sub(x)),
        is_zero(z.abs()),
        is_zero(z.neg()),
{
    lemma_negated(z);
    lemma_negated(x);
    lemma_absolute(z);
    assert(x.value() * 0 == 0 && 0 * x.value() == 0);
    lemma_pow2_pos(1074);
    lemma_encode_zero(pow2(1074));
    lemma_encode_zero(1);
    lemma_rank_of_product(x, z);
    lemma_rank_of_product(z, x);
    lemma_rank_of_sum(x, z);
    lemma_rank_of_sum(z, x);
    lemma_rank_of_sum(x, z.neg());
    lemma_rank_of_sum(x, x.neg());
    lemma_rank_of_value(x);
    lemma_value_of_rank(x);
    lemma_value_of_rank(x.mul(z));
    lemma_value_of_rank(z.mul(x));
    lemma_value_of_rank(x.add(z));
    lemma_value_of_rank(z.add(x));
    lemma_value_of_rank(x.sub(z));
    lemma_value_of_rank(x.sub(x));
    lemma_zero_units(WIDE);
}

/// A sum of two numbers that are not negative is at least either of them, and finite unless the
/// exact sum is beyond all finite numbers.
pub proof fn lemma_sum_of_nonnegative(x: Double, y: Double)
    requires
        x.is_finite(),
        y.is_finite(),
        x.value() >= 0,
        y.value() >= 0,
    ensures
        x.add(y).rank() >= x.rank(),
        x.add(y).rank() >= y.rank(),
        x.value() + y.value() <= pow2(2000) ==> x.add(y).is_finite() && x.add(y).value()
            >= x.value() && x.add(y).value() >= y.value(),
{
    let s = x.add(y);
    lemma_rank_of_sum(x, y);
    lemma_rank_of_value(x);
    lemma_rank_of_value(y);
    lemma_rank_monotone(x.value(), x.value() + y.value(), 1);
    lemma_rank_monotone(y.value(), x.value() + y.value(), 1);
    if x.value() + y.value() <= pow2(2000) {
        lemma2_to64();
        lemma2_to64_rest();
        assert(1 * pow2(2000) == pow2(2000));
        lemma_encode_exact(1, 2000, 53);
        lemma_rank_monotone(x.value() + y.value(), pow2(2000) as int, 1);
        lemma_encode_zero(1);
        lemma_rank_monotone(0, x.value() + y.value(), 1);
        lemma_value_of_rank(s);
        lemma_order_of_values(s, x);
        lemma_order_of_values(s, y);
    }
}

/// A sum is finite only if both numbers are.
pub proof fn lemma_finite_sum(x: Double, y: Double)
    requires
        x.add(y).is_finite(),
    ensures
        x.is_finite(),
        y.is_finite(),
{
    reveal(Double::spec_add);
}

/// A product is finite only if both numbers are.
pub proof fn lemma_finite_product(x: Double, y: Double)
    requires
        x.mul(y).is_finite(),
    ensures
        x.is_finite(),
        y.is_finite(),
{
    reveal(Double::spec_mul);
}

/// The order of the factors does not matter.
pub proof fn lemma_product_is_commutative(x: Double, y: Double)
    ensures
        x.mul(y) == y.mul(x),
{
    reveal(Double::spec_mul);
    let a = x.binary().units(WIDE);
    let b = y.binary().units(WIDE);
    assert(a * b == b * a) by (nonlinear_arith);
}

/// The sign of a rank is that of the value.
proof fn lemma_sign_of_rank(x: Double)
    requires
        x.is_finite(),
    ensures
        x.rank() <= 0 <==> x.value() <= 0,
        x.rank() >= 0 <==> x.value() >= 0,
{
    lemma_rank_of_value(x);
    lemma_zero_units(WIDE);
    let zero = Double { bits: 0 };
    lemma_order_of_values(zero, x);
    lemma_order_of_values(x, zero);
}

/// A product with a number that is not negative keeps the sign of the other.
pub proof fn lemma_signs_of_product(x: Double, y: Double)
    requires
        x.is_finite(),
        y.is_finite(),
        y.value() >= 0,
        x.mul(y).is_finite(),
    ensures
        x.value() <= 0 ==> x.mul(y).value() <= 0,
        x.value() >= 0 ==> x.mul(y).value() >= 0,
{
    let d = pow2(1074);
    lemma_pow2_pos(1074);
    lemma_encode_zero(d);
    lemma_rank_of_product(x, y);
    lemma_sign_of_rank(x.mul(y));
    if x.value() <= 0 {
        assert(x.value() * y.value() <= 0) by (nonlinear_arith)
            requires
                x.value() <= 0,
                y.value() >= 0,
        ;
        lemma_rank_monotone(x.value() * y.value(), 0, d);
    }
    if x.value() >= 0 {
        assert(x.value() * y.value() >= 0) by (nonlinear_arith)
            requires
                x.value() >= 0,
                y.value() >= 0,
        ;
        lemma_rank_monotone(0, x.value() * y.value(), d);
    }
}

/// A sum has the sign of the exact sum.
pub proof fn lemma_signs_of_sum(x: Double, y: Double)
    requires
        x.is_finite(),
        y.is_finite(),
        x.add(y).is_finite(),
    ensures
        x.value() + y.value() <= 0 ==> x.add(y).value() <= 0,
        x.value() + y.value() >= 0 ==> x.add(y).value() >= 0,
{
    lemma_encode_zero(1);
    lemma_rank_of_sum(x, y);
    lemma_sign_of_rank(x.add(y));
    if x.value() + y.value() <= 0 {
        lemma_rank_monotone(x.value() + y.value(), 0, 1);
    }
    if x.value() + y.value() >= 0 {
        lemma_rank_monotone(0, x.value() + y.value(), 1);
    }
}

/// Rounding to an integer keeps the order.
pub proof fn lemma_rounding_to_i32_monotone(x: Double, y: Double)
    requires
        x.le(y),
    ensures
        x.floor_i32() <= y.floor_i32(),
        x.ceil_i32() <= y.ceil_i32(),
{
    reveal(Double::spec_le);
    reveal(Double::spec_floor_i32);
    reveal(Double::spec_ceil_i32);
    if x.is_finite() && y.is_finite() {
        lemma_order_of_values(y, x);
        lemma_pow2_pos(1074);
        lemma_div_is_ordered(x.value(), y.value(), pow2(1074) as int);
        lemma_div_is_ordered(-y.value(), -x.value(), pow2(1074) as int);
    }
}

/// An integer is rounded to itself.
pub proof fn lemma_whole_rounding(x: Double, n: int)
    requires
        is_whole(x, n),
        i32::MIN <= n <= i32::MAX,
    ensures
        x.floor_i32() == n,
        x.ceil_i32() == n,
{
    reveal(Double::spec_floor_i32);
    reveal(Double::spec_ceil_i32);
    let w = pow2(1074) as int;
    lemma_pow2_pos(1074);
    lemma_fundamental_div_mod_converse(x.value(), w, n, 0);
    assert(-(n * w) == (-n) * w) by (nonlinear_arith);
    lemma_fundamental_div_mod_converse(-x.value(), w, -n, 0);
}

} // verus!
