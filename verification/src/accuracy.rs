//! How large the results of double-precision arithmetic are, and how far from the exact ones.
use crate::double::Double;
use crate::exact::{
    lemma_encode_zero, lemma_negated, lemma_rank_monotone, lemma_rank_of_product,
    lemma_rank_of_quotient, lemma_rank_of_sum, lemma_rank_scaled, lemma_value_of_rank, magnitude_of,
    rank_of,
};
use crate::float::{lemma_zero_units, WIDE};
use crate::rounding::{
    encode, lemma_encode_error, lemma_encode_exact, lemma_encode_is_nearest, lemma_units_order,
    units,
};
use vstd::arithmetic::power2::{
    lemma2_to64, lemma2_to64_rest, lemma_pow2_adds, lemma_pow2_pos, lemma_pow2_strictly_increases,
    lemma_pow2_unfold, pow2,
};
use vstd::prelude::*;

verus! {

/// A finite number of at most `2^e`, with either sign.
pub open spec fn is_within(x: Double, e: int) -> bool {
    x.is_finite() && magnitude_of(x.value()) <= pow2((1074 + e) as nat)
}

/// `2^a` is at most `2^b`.
pub proof fn lemma_pow2_order(a: nat, b: nat)
    requires
        a <= b,
    ensures
        pow2(a) <= pow2(b),
{
    if a < b {
        lemma_pow2_strictly_increases(a, b);
    }
}

/// A larger bound.
pub proof fn lemma_within(x: Double, a: int, b: int)
    requires
        is_within(x, a),
        -1074 <= a <= b,
    ensures
        is_within(x, b),
{
    lemma_pow2_order((1074 + a) as nat, (1074 + b) as nat);
}

/// What is at most a power of two before rounding is so after it.
pub proof fn lemma_rounded_within(r: Double, v: int, d: nat, e: nat)
    requires
        !r.is_nan(),
        d > 0,
        r.rank() == rank_of(v, d),
        magnitude_of(v) <= pow2(e) * d,
        e <= 2000,
    ensures
        r.is_finite(),
        magnitude_of(r.value()) <= pow2(e),
{
    let m = magnitude_of(v);
    lemma2_to64();
    lemma2_to64_rest();
    lemma_pow2_pos(e);
    assert(1 * pow2(e) == pow2(e));
    lemma_encode_exact(1, e, 53);
    let most = encode(pow2(e), 1, 53);
    assert(pow2(e) * d >= 0 && 1 * d == d);
    lemma_rank_monotone(m as int, (pow2(e) * d) as int, d);
    lemma_rank_scaled(pow2(e) as int, 1, d);
    assert(e * pow2(52) <= 2000 * pow2(52)) by (nonlinear_arith)
        requires
            e <= 2000,
    ;
    lemma_value_of_rank(r);
    lemma_units_order(magnitude_of(r.rank()), most, 53);
    lemma_units_order(most, magnitude_of(r.rank()), 53);
    lemma_zero_units(WIDE);
}

pub proof fn lemma_sum_within(x: Double, y: Double, e: int)
    requires
        is_within(x, e),
        is_within(y, e),
        -1074 <= e <= 900,
    ensures
        is_within(x.add(y), e + 1),
        is_within(x.sub(y), e + 1),
{
    lemma_negated(y);
    lemma_rank_of_sum(x, y);
    lemma_rank_of_sum(x, y.neg());
    lemma_pow2_unfold((1075 + e) as nat);
    let m = pow2((1075 + e) as nat);
    assert(m * 1 == m);
    lemma_rounded_within(x.add(y), x.value() + y.value(), 1, (1075 + e) as nat);
    lemma_rounded_within(x.sub(y), x.value() - y.value(), 1, (1075 + e) as nat);
}

/// The difference of two numbers that are near each other.
pub proof fn lemma_difference_within(x: Double, y: Double, e: int)
    requires
        x.is_finite(),
        y.is_finite(),
        -1074 <= e <= 900,
        magnitude_of(x.value() - y.value()) <= pow2((1074 + e) as nat),
    ensures
        is_within(x.sub(y), e),
{
    lemma_negated(y);
    lemma_rank_of_sum(x, y.neg());
    let m = pow2((1074 + e) as nat);
    assert(m * 1 == m);
    lemma_rounded_within(x.sub(y), x.value() - y.value(), 1, (1074 + e) as nat);
}

pub proof fn lemma_product_within(x: Double, y: Double, a: int, b: int)
    requires
        is_within(x, a),
        is_within(y, b),
        -1074 <= a,
        -1074 <= b,
        -1074 <= a + b <= 900,
    ensures
        is_within(x.mul(y), a + b),
{
    let (ea, eb) = ((1074 + a) as nat, (1074 + b) as nat);
    let w = pow2(1074);
    lemma_pow2_pos(1074);
    lemma_rank_of_product(x, y);
    lemma_pow2_adds(ea, eb);
    lemma_pow2_adds((1074 + a + b) as nat, 1074);
    let (m, n) = (magnitude_of(x.value()), magnitude_of(y.value()));
    assert(magnitude_of(x.value() * y.value()) == m * n) by {
        let (u, v) = (x.value(), y.value());
        assert((-u) * v == -(u * v) && u * (-v) == -(u * v) && (-u) * (-v) == u * v)
            by (nonlinear_arith);
        assert(m * n >= 0) by (nonlinear_arith);
    }
    assert(m * n <= pow2(ea) * pow2(eb)) by (nonlinear_arith)
        requires
            m <= pow2(ea),
            n <= pow2(eb),
    ;
    lemma_rounded_within(x.mul(y), x.value() * y.value(), w, (1074 + a + b) as nat);
}

pub proof fn lemma_quotient_within(x: Double, y: Double, a: int, b: int)
    requires
        is_within(x, a),
        y.is_finite(),
        -1074 <= a,
        -1074 <= b,
        -1074 <= a - b <= 900,
        y.value() >= pow2((1074 + b) as nat),
    ensures
        is_within(x.div(y), a - b),
{
    let (ea, eb, e) = ((1074 + a) as nat, (1074 + b) as nat, (1074 + a - b) as nat);
    let w = pow2(1074);
    let (m, v) = (magnitude_of(x.value()), y.value() as nat);
    lemma_pow2_pos(1074);
    lemma_pow2_pos(eb);
    lemma_pow2_pos(e);
    lemma_rank_of_quotient(x, y);
    lemma_pow2_adds(ea, 1074);
    lemma_pow2_adds(e, eb);
    assert((-x.value()) * w == -(x.value() * w) && m * w >= 0) by (nonlinear_arith);
    assert(m * w <= pow2(ea) * w) by (nonlinear_arith)
        requires
            m <= pow2(ea),
    ;
    assert(pow2(e) * pow2(eb) <= pow2(e) * v) by (nonlinear_arith)
        requires
            pow2(eb) <= v,
    ;
    lemma_rounded_within(x.div(y), x.value() * w, v, e);
}

/// No number is nearer to `v / d` than the one it is rounded to.
pub proof fn lemma_rounded_is_nearest(r: Double, v: int, d: nat, y: Double)
    requires
        r.is_finite(),
        y.is_finite(),
        d > 0,
        r.rank() == rank_of(v, d),
    ensures
        magnitude_of(r.value() * d - v) <= magnitude_of(y.value() * d - v),
{
    let n = magnitude_of(v);
    lemma_zero_units(WIDE);
    lemma_value_of_rank(r);
    lemma_encode_is_nearest(n, d, 53, 0);
    lemma_encode_is_nearest(n, d, 53, y.binary().magnitude as nat);
    let (a, b) = (units(encode(n, d, 53), 53), y.binary().units(WIDE));
    assert((-a) * d == -(a * d) && (-b) * d == -(b * d) && 0 * d == 0 && b * d >= 0 && a * d >= 0)
        by (nonlinear_arith);
    lemma_encode_zero(d);
}

/// A number is rounded by at most half of its last digit.
pub proof fn lemma_rounded_error(r: Double, v: int, d: nat)
    requires
        r.is_finite(),
        d > 0,
        r.rank() == rank_of(v, d),
    ensures
        magnitude_of(r.value() * d - v) * pow2(53) <= magnitude_of(v) + d * pow2(52),
        d == 1 ==> magnitude_of(r.value() - v) * pow2(53) <= magnitude_of(v),
{
    let n = magnitude_of(v);
    lemma_zero_units(WIDE);
    lemma_value_of_rank(r);
    lemma_encode_error(n, d, 53);
    let a = units(encode(n, d, 53), 53);
    assert((-a) * d == -(a * d) && a * d >= 0) by (nonlinear_arith);
    lemma_encode_zero(d);
    assert(r.value() * 1 == r.value());
}

/// The error of a sum or a difference of at most `2^e`.
pub proof fn lemma_rounded_near(r: Double, v: int, e: nat)
    requires
        r.is_finite(),
        r.rank() == rank_of(v, 1),
        53 <= e,
        magnitude_of(v) <= pow2(e),
    ensures
        magnitude_of(r.value() - v) <= pow2((e - 53) as nat),
{
    lemma_rounded_error(r, v, 1);
    lemma2_to64_rest();
    lemma_pow2_adds((e - 53) as nat, 53);
    let (x, y) = (magnitude_of(r.value() - v), pow2((e - 53) as nat));
    assert(x <= y) by (nonlinear_arith)
        requires
            x * 0x20_0000_0000_0000 <= y * 0x20_0000_0000_0000,
    ;
}

/// The exact value of a finite number.
pub open spec fn exact(x: Double) -> real {
    x.value() as real / pow2(1074) as real
}

pub open spec fn absolute(x: real) -> real {
    if x < 0real {
        -x
    } else {
        x
    }
}

pub proof fn lemma_real_product(a: int, b: int)
    ensures
        (a * b) as real == a as real * b as real,
{
    assert((a * b) as real == a as real * b as real) by (nonlinear_arith);
}

/// `2^e`.
pub open spec fn two(e: int) -> real {
    pow2((1074 + e) as nat) as real / pow2(1074) as real
}

pub proof fn lemma_two(e: int)
    requires
        -1074 < e,
    ensures
        two(e) > 0real,
        two(e) == 2real * two(e - 1),
        two(0) == 1real,
{
    lemma_pow2_pos((1074 + e) as nat);
    lemma_pow2_pos(1074);
    lemma_pow2_unfold((1074 + e) as nat);
    let (a, b, w) = (
        pow2((1074 + e) as nat) as real,
        pow2((1074 + e - 1) as nat) as real,
        pow2(1074) as real,
    );
    assert(a == 2real * b);
    assert(a / w == 2real * (b / w) && a / w > 0real && w / w == 1real) by (nonlinear_arith)
        requires
            a == 2real * b,
            a > 0real,
            w > 0real,
    ;
}

pub proof fn lemma_two_order(a: int, b: int)
    requires
        -1074 <= a <= b,
    ensures
        0real < two(a) <= two(b),
{
    lemma_pow2_pos((1074 + a) as nat);
    lemma_pow2_pos(1074);
    lemma_pow2_order((1074 + a) as nat, (1074 + b) as nat);
    let (x, y, w) = (
        pow2((1074 + a) as nat) as real,
        pow2((1074 + b) as nat) as real,
        pow2(1074) as real,
    );
    assert(0real < x / w <= y / w) by (nonlinear_arith)
        requires
            0real < x <= y,
            w > 0real,
    ;
}

pub proof fn lemma_two_adds(a: int, b: int)
    requires
        -1074 <= a,
        -1074 <= b,
        -1074 <= a + b,
    ensures
        two(a) * two(b) == two(a + b),
{
    let (na, nb, nc) = ((1074 + a) as nat, (1074 + b) as nat, (1074 + a + b) as nat);
    lemma_pow2_pos(1074);
    lemma_pow2_adds(na, nb);
    lemma_pow2_adds(nc, 1074);
    lemma_real_product(pow2(na) as int, pow2(nb) as int);
    lemma_real_product(pow2(nc) as int, pow2(1074) as int);
    let (x, y, z, w) = (pow2(na) as real, pow2(nb) as real, pow2(nc) as real, pow2(1074) as real);
    assert((x / w) * (y / w) == z / w) by (nonlinear_arith)
        requires
            x * y == z * w,
            w > 0real,
    ;
}

/// Bounds on the exact value.
pub proof fn lemma_exact_within(x: Double, e: int)
    requires
        -1074 <= e,
        is_within(x, e),
    ensures
        absolute(exact(x)) <= two(e),
{
    lemma_fraction_of_units(x.value(), pow2((1074 + e) as nat) as int);
}

/// Bounds from the exact value.
pub proof fn lemma_within_exact(x: Double, e: int)
    requires
        -1074 <= e,
        x.is_finite(),
        absolute(exact(x)) <= two(e),
    ensures
        is_within(x, e),
{
    lemma_pow2_pos(1074);
    let m = pow2((1074 + e) as nat);
    let (v, y, w) = (x.value() as real, m as real, pow2(1074) as real);
    assert(-y <= v <= y) by (nonlinear_arith)
        requires
            -(y / w) <= v / w <= y / w,
            w > 0real,
    ;
}

/// A lower bound from the exact value.
pub proof fn lemma_at_least_exact(x: Double, e: int)
    requires
        -1074 <= e,
        exact(x) >= two(e),
    ensures
        x.value() >= pow2((1074 + e) as nat),
{
    lemma_pow2_pos(1074);
    let m = pow2((1074 + e) as nat);
    let (v, y, w) = (x.value() as real, m as real, pow2(1074) as real);
    assert(v >= y) by (nonlinear_arith)
        requires
            v / w >= y / w,
            w > 0real,
    ;
}

proof fn lemma_fraction_of_units(v: int, m: int)
    requires
        magnitude_of(v) <= m,
    ensures
        absolute(v as real / pow2(1074) as real) <= m as real / pow2(1074) as real,
{
    lemma_pow2_pos(1074);
    let (x, y, w) = (v as real, m as real, pow2(1074) as real);
    assert(-y <= x <= y);
    assert(-(y / w) <= x / w <= y / w) by (nonlinear_arith)
        requires
            -y <= x <= y,
            w > 0real,
    ;
}

proof fn lemma_difference_of_fractions(a: int, b: int, c: int)
    ensures
        a as real / pow2(1074) as real - (b as real / pow2(1074) as real + c as real / pow2(
            1074,
        ) as real) == (a - (b + c)) as real / pow2(1074) as real,
{
    lemma_pow2_pos(1074);
    let (x, y, z, w) = (a as real, b as real, c as real, pow2(1074) as real);
    assert((a - (b + c)) as real == x - (y + z));
    assert(x / w - (y / w + z / w) == (x - (y + z)) / w) by (nonlinear_arith)
        requires
            w > 0real,
    ;
}

/// How far a sum and a difference are from the exact ones.
pub proof fn lemma_sum_error(x: Double, y: Double, e: int)
    requires
        is_within(x, e),
        is_within(y, e),
        -900 <= e <= 900,
    ensures
        is_within(x.add(y), e + 1),
        is_within(x.sub(y), e + 1),
        absolute(exact(x.add(y)) - (exact(x) + exact(y))) <= two(e - 52),
        absolute(exact(x.sub(y)) - (exact(x) - exact(y))) <= two(e - 52),
{
    let f = (1074 + e + 1) as nat;
    let (a, b, n) = (x.value(), y.value(), y.neg());
    lemma_negated(y);
    lemma_sum_within(x, y, e);
    lemma_rank_of_sum(x, y);
    lemma_rank_of_sum(x, n);
    lemma_pow2_unfold(f);
    lemma_rounded_near(x.add(y), a + b, f);
    lemma_rounded_near(x.sub(y), a - b, f);
    let m = pow2((f - 53) as nat) as int;
    lemma_fraction_of_units(x.add(y).value() - (a + b), m);
    lemma_fraction_of_units(x.sub(y).value() - (a + -b), m);
    lemma_difference_of_fractions(x.add(y).value(), a, b);
    lemma_difference_of_fractions(x.sub(y).value(), a, -b);
    lemma_negated_fraction(b);
}

proof fn lemma_negated_fraction(b: int)
    ensures
        (-b) as real / pow2(1074) as real == -(b as real / pow2(1074) as real),
{
    lemma_pow2_pos(1074);
    let (x, w) = (b as real, pow2(1074) as real);
    assert((-b) as real == -x);
    assert((-x) / w == -(x / w)) by (nonlinear_arith)
        requires
            w > 0real,
    ;
}

/// How far a difference is from the exact one, if that is at most `2^e`.
pub proof fn lemma_difference_error(x: Double, y: Double, e: int)
    requires
        x.is_finite(),
        y.is_finite(),
        magnitude_of(x.value() - y.value()) <= pow2((1074 + e) as nat),
        -900 <= e <= 900,
    ensures
        is_within(x.sub(y), e),
        absolute(exact(x) - exact(y)) <= two(e),
        absolute(exact(x.sub(y)) - (exact(x) - exact(y))) <= two(e - 53),
{
    let f = (1074 + e) as nat;
    let (a, b) = (x.value(), y.value());
    lemma_negated(y);
    lemma_difference_within(x, y, e);
    lemma_rank_of_sum(x, y.neg());
    lemma_rounded_near(x.sub(y), a - b, f);
    lemma_fraction_of_units(x.sub(y).value() - (a + -b), pow2((f - 53) as nat) as int);
    lemma_difference_of_fractions(x.sub(y).value(), a, -b);
    lemma_negated_fraction(b);
    lemma_fraction_of_units(a - b, pow2(f) as int);
    lemma_difference_of_fractions(a - b, a, -b);
    lemma_pow2_pos(1074);
    let w = pow2(1074) as real;
    assert(0real / w == 0real) by (nonlinear_arith)
        requires
            w > 0real,
    ;
}

/// How far a product is from the exact one.
pub proof fn lemma_product_error(x: Double, y: Double, a: int, b: int)
    requires
        is_within(x, a),
        is_within(y, b),
        -1074 <= a,
        -1074 <= b,
        -900 <= a + b <= 900,
    ensures
        is_within(x.mul(y), a + b),
        absolute(exact(x.mul(y)) - exact(x) * exact(y)) <= two(a + b - 52),
{
    let w = pow2(1074);
    let r = x.mul(y);
    let (u, v) = (x.value(), y.value());
    let (na, nb, nc) = ((1074 + a) as nat, (1074 + b) as nat, (1074 + a + b) as nat);
    lemma_pow2_pos(1074);
    lemma_product_within(x, y, a, b);
    lemma_rank_of_product(x, y);
    lemma_rounded_error(r, u * v, w);
    lemma2_to64_rest();
    let err = magnitude_of(r.value() * w - u * v);
    let (m, n) = (magnitude_of(u), magnitude_of(v));
    assert(magnitude_of(u * v) == m * n) by {
        assert((-u) * v == -(u * v) && u * (-v) == -(u * v) && (-u) * (-v) == u * v)
            by (nonlinear_arith);
        assert(m * n >= 0) by (nonlinear_arith);
    }
    assert(m * n <= pow2(na) * pow2(nb)) by (nonlinear_arith)
        requires
            m <= pow2(na),
            n <= pow2(nb),
    ;
    lemma_pow2_adds(na, nb);
    lemma_pow2_adds(nc, 1074);
    let p = pow2((nc - 53) as nat);
    lemma_pow2_adds((nc - 53) as nat, 53);
    lemma_pow2_pos((nc - 53) as nat);
    lemma_pow2_unfold((nc - 52) as nat);
    let big: int = 0x20_0000_0000_0000;
    // The error is at most twice `p`, in units.
    assert(pow2(nc) == p * big);
    assert(err <= (2 * p) * w) by (nonlinear_arith)
        requires
            err * big <= (p * big) * w + w * 0x10_0000_0000_0000,
            p >= 1,
            w >= 1,
            big == 0x20_0000_0000_0000,
    ;
    lemma_product_of_fractions(r.value(), u, v, (2 * p) as int);
}

proof fn lemma_product_of_fractions(r: int, u: int, v: int, p: int)
    requires
        magnitude_of(r * pow2(1074) - u * v) <= p * pow2(1074),
    ensures
        absolute(
            r as real / pow2(1074) as real - (u as real / pow2(1074) as real) * (v as real / pow2(
                1074,
            ) as real),
        ) <= p as real / pow2(1074) as real,
{
    let w = pow2(1074);
    lemma_pow2_pos(1074);
    lemma_real_product(r, w as int);
    lemma_real_product(u, v);
    lemma_real_product(p, w as int);
    let (x, a, b, q, z) = (r as real, u as real, v as real, p as real, w as real);
    assert(-(q * z) <= x * z - a * b <= q * z);
    assert(x / z - (a / z) * (b / z) <= q / z) by (nonlinear_arith)
        requires
            x * z - a * b <= q * z,
            z > 0real,
    ;
    assert(-(q / z) <= x / z - (a / z) * (b / z)) by (nonlinear_arith)
        requires
            -(q * z) <= x * z - a * b,
            z > 0real,
    ;
}

/// An error grows with the factor.
pub proof fn lemma_scaled_error(a: real, b: real, y: real, delta: real, bound: real)
    requires
        absolute(a - b) <= delta,
        absolute(y) <= bound,
    ensures
        absolute(a * y - b * y) <= delta * bound,
{
    let d = a - b;
    assert(a * y - b * y == d * y) by (nonlinear_arith)
        requires
            d == a - b,
    ;
    assert(-(delta * bound) <= d * y <= delta * bound) by (nonlinear_arith)
        requires
            -delta <= d <= delta,
            -bound <= y <= bound,
            delta >= 0real,
            bound >= 0real,
    ;
}

/// A sum with a small number stays near the other one.
pub proof fn lemma_sum_is_near(x: Double, y: Double)
    requires
        x.is_finite(),
        y.is_finite(),
        x.add(y).is_finite(),
    ensures
        magnitude_of(x.add(y).value() - x.value()) <= 2 * magnitude_of(y.value()),
{
    lemma_rank_of_sum(x, y);
    lemma_rounded_is_nearest(x.add(y), x.value() + y.value(), 1, x);
    assert(x.add(y).value() * 1 == x.add(y).value() && x.value() * 1 == x.value());
}

/// Products distribute over sums.
pub proof fn lemma_distributes(a: real, b: real, c: real)
    ensures
        (a + b) * c == a * c + b * c,
        (a - b) * c == a * c - b * c,
        c * (a + b) == c * a + c * b,
{
    assert((a + b) * c == a * c + b * c) by (nonlinear_arith);
    assert((a - b) * c == a * c - b * c) by (nonlinear_arith);
    assert(c * (a + b) == c * a + c * b) by (nonlinear_arith);
}

/// The order of factors does not matter.
pub proof fn lemma_regroups(a: real, b: real, c: real)
    ensures
        a * b == b * a,
        (a * b) * c == a * (b * c),
        (a * b) * c == (a * c) * b,
{
    assert(a * b == b * a) by (nonlinear_arith);
    assert((a * b) * c == a * (b * c)) by (nonlinear_arith);
    assert((a * b) * c == (a * c) * b) by (nonlinear_arith);
}

/// A factor that is not negative keeps the sign.
pub proof fn lemma_keeps_sign(a: real, b: real)
    requires
        b >= 0real,
    ensures
        a >= 0real ==> a * b >= 0real,
        a <= 0real ==> a * b <= 0real,
{
    if a >= 0real {
        assert(a * b >= 0real) by (nonlinear_arith)
            requires
                a >= 0real,
                b >= 0real,
        ;
    }
    if a <= 0real {
        assert(a * b <= 0real) by (nonlinear_arith)
            requires
                a <= 0real,
                b >= 0real,
        ;
    }
}

/// Errors add up.
pub proof fn lemma_errors_add(a: real, b: real, c: real, first: real, second: real)
    requires
        absolute(a - b) <= first,
        absolute(b - c) <= second,
    ensures
        absolute(a - c) <= first + second,
{
}

/// A product is at most the product of the bounds.
pub proof fn lemma_bounded(a: real, b: real, m: real, n: real)
    requires
        absolute(a) <= m,
        absolute(b) <= n,
    ensures
        absolute(a * b) <= m * n,
{
    lemma_scaled_error(a, 0real, b, m, n);
    assert(0real * b == 0real);
}

/// A factor that is not negative keeps the order.
pub proof fn lemma_ordered(a: real, b: real, c: real)
    requires
        a <= b,
        c >= 0real,
    ensures
        c * a <= c * b,
{
    assert(c * a <= c * b) by (nonlinear_arith)
        requires
            a <= b,
            c >= 0real,
    ;
}

} // verus!
