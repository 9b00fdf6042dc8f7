//! Error bounds that add up along a computation.
//!
//! Each result of the arithmetic is off by at most `2^-53` of its size and, for products and
//! quotients, by at most the least positive number besides. Errors are counted in `2^-53`, so that
//! the bounds are multiples of sizes, and of `grain`, which is what the least positive number then
//! counts.
use crate::accuracy::{
    absolute, exact, lemma_distributes, lemma_errors_add, lemma_real_product, lemma_regroups,
    lemma_rounded_error, lemma_scaled_error, two,
};
use crate::double::Double;
use crate::exact::{
    lemma_negated, lemma_rank_of_product, lemma_rank_of_quotient, lemma_rank_of_sum, magnitude_of,
};
use vstd::arithmetic::power2::{
    lemma2_to64, lemma2_to64_rest, lemma_pow2_adds, lemma_pow2_pos, lemma_pow2_strictly_increases,
    pow2,
};
use vstd::prelude::*;

verus! {

/// The error `x`, counted in `2^-53`.
pub open spec fn counted(x: real) -> real {
    9007199254740992real * absolute(x)
}

/// What the least positive number counts.
pub open spec fn grain() -> real {
    9007199254740992real * (1real / pow2(1074) as real)
}

pub proof fn lemma_grain()
    ensures
        0real < 1000000000000000real * grain() < 1real,
{
    lemma_pow2_pos(1074);
    lemma2_to64();
    lemma2_to64_rest();
    lemma_pow2_adds(64, 64);
    lemma_pow2_strictly_increases(128, 1074);
    let w = pow2(1074) as real;
    assert(0real < 1real / w && 9007199254740992000000000000000real * (1real / w) < 1real)
        by (nonlinear_arith)
        requires
            w > 9007199254740992000000000000000real,
    ;
}

proof fn lemma_magnitude(v: int)
    ensures
        magnitude_of(v) as real == absolute(v as real),
{
}

/// From units to the exact value, for a sum.
proof fn lemma_sum_of_units(r: int, u: int, v: int)
    requires
        magnitude_of(r - (u + v)) * 0x20_0000_0000_0000 <= magnitude_of(u + v),
    ensures
        ({
            let w = pow2(1074) as real;
            counted(r as real / w - (u as real / w + v as real / w)) <= absolute(
                u as real / w + v as real / w,
            )
        }),
{
    let w = pow2(1074) as real;
    lemma_pow2_pos(1074);
    let (a, b, c) = (r as real, u as real, v as real);
    let s = b + c;
    assert((u + v) as real == s && (r - (u + v)) as real == a - s);
    lemma_magnitude(r - (u + v));
    lemma_magnitude(u + v);
    assert(b / w + c / w == s / w) by (nonlinear_arith)
        requires
            s == b + c,
            w > 0real,
    ;
    let d = a - s;
    assert(a / w - s / w == d / w) by (nonlinear_arith)
        requires
            d == a - s,
            w > 0real,
    ;
    lemma_quotient_of_absolute(d, w);
    lemma_quotient_of_absolute(s, w);
    let (x, y) = (absolute(d), absolute(s));
    assert(9007199254740992real * x <= y);
    assert(9007199254740992real * (x / w) <= y / w) by (nonlinear_arith)
        requires
            9007199254740992real * x <= y,
            w > 0real,
    ;
}

proof fn lemma_quotient_of_absolute(x: real, w: real)
    requires
        w > 0real,
    ensures
        absolute(x / w) == absolute(x) / w,
{
    if x < 0real {
        assert(x / w < 0real && (-x) / w == -(x / w)) by (nonlinear_arith)
            requires
                x < 0real,
                w > 0real,
        ;
    } else {
        assert(x / w >= 0real) by (nonlinear_arith)
            requires
                x >= 0real,
                w > 0real,
        ;
    }
}

/// The error of a sum.
pub proof fn lemma_sum_relative(x: Double, y: Double)
    requires
        x.is_finite(),
        y.is_finite(),
    ensures
        x.add(y).is_finite() ==> counted(exact(x.add(y)) - (exact(x) + exact(y))) <= absolute(
            exact(x) + exact(y),
        ),
{
    if x.add(y).is_finite() {
        lemma_rank_of_sum(x, y);
        lemma_rounded_error(x.add(y), x.value() + y.value(), 1);
        lemma2_to64_rest();
        lemma_sum_of_units(x.add(y).value(), x.value(), y.value());
    }
}

/// The exact value of the number with the other sign.
pub proof fn lemma_exact_negated(x: Double)
    ensures
        exact(x.neg()) == -exact(x),
{
    lemma_negated(x);
    lemma_pow2_pos(1074);
    let (v, w) = (x.value() as real, pow2(1074) as real);
    assert((-v) / w == -(v / w)) by (nonlinear_arith)
        requires
            w > 0real,
    ;
}

/// The error of a difference.
pub proof fn lemma_difference_relative(x: Double, y: Double)
    requires
        x.is_finite(),
        y.is_finite(),
    ensures
        x.sub(y).is_finite() ==> counted(exact(x.sub(y)) - (exact(x) - exact(y))) <= absolute(
            exact(x) - exact(y),
        ),
{
    lemma_negated(y);
    lemma_exact_negated(y);
    lemma_sum_relative(x, y.neg());
}

/// From units to the exact value, for a product or a quotient: `r` stands for `a / b`.
proof fn lemma_ratio_of_units(r: int, a: int, b: int)
    requires
        b > 0,
        magnitude_of(r * b - a) * 0x20_0000_0000_0000 <= magnitude_of(a) + b
            * 0x10_0000_0000_0000,
    ensures
        ({
            let w = pow2(1074) as real;
            let q = (a as real / b as real) / w;
            counted(r as real / w - q) <= absolute(q) + grain()
        }),
{
    let w = pow2(1074) as real;
    lemma_pow2_pos(1074);
    let (x, y, z) = (r as real, a as real, b as real);
    lemma_real_product(r, b);
    lemma_magnitude(r * b - a);
    lemma_magnitude(a);
    let d = x * z - y;
    assert((r * b - a) as real == d);
    let t = y / z;
    assert(x - t == d / z) by (nonlinear_arith)
        requires
            d == x * z - y,
            t == y / z,
            z > 0real,
    ;
    lemma_quotient_of_absolute(d, z);
    lemma_quotient_of_absolute(y, z);
    let (m, n) = (absolute(d), absolute(y));
    assert(9007199254740992real * m <= n + 9007199254740992real * z);
    assert(9007199254740992real * (m / z) <= n / z + 9007199254740992real) by (nonlinear_arith)
        requires
            9007199254740992real * m <= n + 9007199254740992real * z,
            z > 0real,
    ;
    // Now in units.
    let e = x - t;
    assert(x / w - t / w == e / w) by (nonlinear_arith)
        requires
            e == x - t,
            w > 0real,
    ;
    lemma_quotient_of_absolute(e, w);
    lemma_quotient_of_absolute(t, w);
    let (f, g) = (absolute(e), absolute(t));
    assert(9007199254740992real * (f / w) <= g / w + 9007199254740992real * (1real / w))
        by (nonlinear_arith)
        requires
            9007199254740992real * f <= g + 9007199254740992real,
            w > 0real,
    ;
}

/// The error of a product.
pub proof fn lemma_product_relative(x: Double, y: Double)
    requires
        x.is_finite(),
        y.is_finite(),
    ensures
        x.mul(y).is_finite() ==> counted(exact(x.mul(y)) - exact(x) * exact(y)) <= absolute(
            exact(x) * exact(y),
        ) + grain(),
{
    if x.mul(y).is_finite() {
        let w = pow2(1074);
        let (u, v) = (x.value(), y.value());
        lemma_pow2_pos(1074);
        lemma_rank_of_product(x, y);
        lemma_rounded_error(x.mul(y), u * v, w);
        lemma2_to64_rest();
        lemma_ratio_of_units(x.mul(y).value(), u * v, w as int);
        lemma_real_product(u, v);
        let (a, b, z) = (u as real, v as real, w as real);
        assert(((a * b) / z) / z == (a / z) * (b / z)) by (nonlinear_arith)
            requires
                z > 0real,
        ;
    }
}

/// The error of a quotient.
pub proof fn lemma_quotient_relative(x: Double, y: Double)
    requires
        x.is_finite(),
        y.is_finite(),
        y.value() > 0,
    ensures
        x.div(y).is_finite() ==> counted(exact(x.div(y)) - exact(x) / exact(y)) <= absolute(
            exact(x) / exact(y),
        ) + grain(),
{
    if x.div(y).is_finite() {
        let w = pow2(1074);
        let (u, v) = (x.value(), y.value());
        lemma_pow2_pos(1074);
        lemma_rank_of_quotient(x, y);
        lemma_rounded_error(x.div(y), u * w, v as nat);
        lemma2_to64_rest();
        lemma_ratio_of_units(x.div(y).value(), u * w, v);
        lemma_real_product(u, w as int);
        let (a, b, z) = (u as real, v as real, w as real);
        assert(((a * z) / b) / z == (a / z) / (b / z)) by (nonlinear_arith)
            requires
                z > 0real,
                b > 0real,
        ;
    }
}

/// The number `x` stands for `y`, which is at most `m`: its error counts at most `k` times `m`, and
/// `n` grains.
pub open spec fn is_near(x: Double, y: real, k: real, m: real, n: real) -> bool {
    &&& x.is_finite()
    &&& absolute(y) <= m
    &&& 0real <= n
    &&& 0real <= k <= 1000real
    &&& counted(exact(x) - y) <= k * m + grain() * n
}

/// A number stands for itself.
pub proof fn lemma_near_itself(x: Double)
    requires
        x.is_finite(),
    ensures
        is_near(x, exact(x), 0real, absolute(exact(x)), 0real),
{
}

proof fn lemma_larger_product(a: real, b: real, c: real)
    requires
        a <= b,
        c >= 0real,
    ensures
        c * a <= c * b,
        a * c <= b * c,
{
    assert(c * a <= c * b) by (nonlinear_arith)
        requires
            a <= b,
            c >= 0real,
    ;
    assert(a * c <= b * c) by (nonlinear_arith)
        requires
            a <= b,
            c >= 0real,
    ;
}

/// Larger bounds.
pub proof fn lemma_near(x: Double, y: real, k: real, m: real, n: real, k1: real, m1: real, n1: real)
    requires
        is_near(x, y, k, m, n),
        k <= k1 <= 1000real,
        m <= m1,
        n <= n1,
    ensures
        is_near(x, y, k1, m1, n1),
{
    lemma_grain();
    lemma_larger_product(n, n1, grain());
    lemma_larger_product(k, k1, m);
    lemma_larger_product(m, m1, k1);
}

/// The difference of two numbers that stand for themselves.
pub proof fn lemma_near_difference(x: Double, y: Double)
    requires
        x.is_finite(),
        y.is_finite(),
        x.sub(y).is_finite(),
    ensures
        is_near(
            x.sub(y),
            exact(x) - exact(y),
            1real,
            absolute(exact(x) - exact(y)),
            0real,
        ),
{
    lemma_difference_relative(x, y);
}

/// The errors of a sum.
proof fn lemma_near_total(
    r: real,
    x: real,
    y: real,
    a: real,
    b: real,
    k: real,
    m1: real,
    m2: real,
    n1: real,
    n2: real,
)
    requires
        0real <= k <= 1000real,
        0real <= m1,
        0real <= m2,
        0real <= n1,
        0real <= n2,
        absolute(a) <= m1,
        absolute(b) <= m2,
        counted(x - a) <= k * m1 + grain() * n1,
        counted(y - b) <= k * m2 + grain() * n2,
        counted(r - (x + y)) <= absolute(x + y),
    ensures
        counted(r - (a + b)) <= (k + 2real) * (m1 + m2) + grain() * (2real * (n1 + n2)),
{
    let u = grain();
    lemma_grain();
    let m = m1 + m2;
    lemma_distributes(m1, m2, k);
    lemma_distributes(n1, n2, u);
    lemma_distributes(k, 2real, m);
    let err = k * m + u * (n1 + n2);
    lemma_larger_product(k, 1000real, m);
    lemma_larger_product(0real, n1 + n2, u);
    assert(counted((x + y) - (a + b)) <= err);
    assert(absolute(x + y) <= m + absolute((x + y) - (a + b)));
    assert(absolute((x + y) - (a + b)) <= m + u * (n1 + n2));
    assert(u * (2real * (n1 + n2)) == 2real * (u * (n1 + n2))) by {
        lemma_regroups(u, 2real, n1 + n2);
        lemma_regroups(2real, u, n1 + n2);
    }
}

/// A sum.
pub proof fn lemma_near_sum(
    x: Double,
    y: Double,
    a: real,
    b: real,
    k: real,
    m1: real,
    m2: real,
    n1: real,
    n2: real,
)
    requires
        is_near(x, a, k, m1, n1),
        is_near(y, b, k, m2, n2),
        x.add(y).is_finite(),
        k <= 998real,
    ensures
        is_near(x.add(y), a + b, k + 2real, m1 + m2, 2real * (n1 + n2)),
{
    lemma_sum_relative(x, y);
    lemma_near_total(exact(x.add(y)), exact(x), exact(y), a, b, k, m1, m2, n1, n2);
}

/// The other sign.
pub proof fn lemma_near_negated(x: Double, a: real, k: real, m: real, n: real)
    requires
        is_near(x, a, k, m, n),
    ensures
        is_near(x.neg(), -a, k, m, n),
{
    lemma_negated(x);
    lemma_exact_negated(x);
}

/// A difference.
pub proof fn lemma_near_subtraction(
    x: Double,
    y: Double,
    a: real,
    b: real,
    k: real,
    m1: real,
    m2: real,
    n1: real,
    n2: real,
)
    requires
        is_near(x, a, k, m1, n1),
        is_near(y, b, k, m2, n2),
        x.sub(y).is_finite(),
        k <= 998real,
    ensures
        is_near(x.sub(y), a - b, k + 2real, m1 + m2, 2real * (n1 + n2)),
{
    lemma_near_negated(y, b, k, m2, n2);
    lemma_near_sum(x, y.neg(), a, -b, k, m1, m2, n1, n2);
}

/// The errors of a product.
proof fn lemma_near_multiple(
    r: real,
    x: real,
    y: real,
    a: real,
    k: real,
    m: real,
    n: real,
    b: real,
)
    requires
        0real <= k <= 1000real,
        0real <= m,
        0real <= n,
        absolute(y) <= b,
        absolute(a) <= m,
        counted(x - a) <= k * m + grain() * n,
        counted(r - x * y) <= absolute(x * y) + grain(),
    ensures
        absolute(a * y) <= m * b,
        counted(r - a * y) <= (k + 2real) * (m * b) + grain() * (2real * (n * b) + 1real),
{
    let u = grain();
    lemma_grain();
    let alpha = k * m + u * n;
    let big = 9007199254740992real;
    lemma_scaled_error(big * x, big * a, y, alpha, b);
    lemma_regroups(big, x, y);
    lemma_regroups(big, a, y);
    lemma_scaled_error(a, 0real, y, m, b);
    assert(0real * y == 0real);
    let (mb, nb) = (m * b, n * b);
    lemma_larger_product(0real, b, m);
    lemma_larger_product(0real, b, n);
    assert(alpha * b == k * mb + u * nb) by {
        lemma_distributes(k * m, u * n, b);
        lemma_regroups(k, m, b);
        lemma_regroups(u, n, b);
    }
    lemma_larger_product(k, 1000real, mb);
    lemma_larger_product(0real, nb, u);
    assert(counted(x * y - a * y) <= k * mb + u * nb);
    assert(absolute(x * y - a * y) <= mb + u * nb);
    assert(absolute(x * y) <= 2real * mb + u * nb);
    lemma_distributes(k, 2real, mb);
    lemma_distributes(2real * nb, 1real, u);
    lemma_regroups(u, 2real, nb);
    lemma_regroups(2real, u, nb);
    assert(u * (2real * nb) == 2real * (u * nb));
}

/// A product with a number that stands for itself and is at most `b`.
pub proof fn lemma_near_product(x: Double, y: Double, a: real, k: real, m: real, n: real, b: real)
    requires
        is_near(x, a, k, m, n),
        y.is_finite(),
        absolute(exact(y)) <= b,
        x.mul(y).is_finite(),
        k <= 998real,
    ensures
        is_near(x.mul(y), a * exact(y), k + 2real, m * b, 2real * (n * b) + 1real),
{
    lemma_product_relative(x, y);
    lemma_near_multiple(exact(x.mul(y)), exact(x), exact(y), a, k, m, n, b);
    lemma_larger_product(0real, b, n);
}

/// The errors of a product of two numbers that both have some.
proof fn lemma_near_product_of_errors(x: real, y: real, a: real, b: real, k: real, m: real, p: real)
    requires
        0real <= k <= 400real,
        0real <= m,
        0real <= p,
        absolute(a) <= m,
        absolute(b) <= p,
        counted(x - a) <= k * m,
        counted(y - b) <= k * p,
    ensures
        absolute(a * b) <= m * p,
        absolute(x * y) <= 2real * (m * p),
        counted(x * y - a * b) <= (2real * k + 1real) * (m * p),
{
    let big = 9007199254740992real;
    let mp = m * p;
    lemma_larger_product(k, 400real, m);
    lemma_larger_product(k, 400real, p);
    lemma_larger_product(0real, p, m);
    lemma_larger_product(0real, m, k);
    let most = p + p / 1000real;
    assert(absolute(y) <= most);
    lemma_scaled_error(big * x, big * a, y, k * m, most);
    lemma_regroups(big, x, y);
    lemma_regroups(big, a, y);
    assert((k * m) * most <= k * mp + mp) by {
        lemma_distributes(p, p / 1000real, k * m);
        lemma_regroups(k, m, p);
        lemma_larger_product(k, 400real, mp);
        let n = k * m;
        assert(n * (p / 1000real) == (n * p) / 1000real) by (nonlinear_arith);
    }
    lemma_scaled_error(big * y, big * b, a, k * p, m);
    lemma_regroups(big, y, a);
    lemma_regroups(big, b, a);
    lemma_regroups(y, a, 1real);
    lemma_regroups(b, a, 1real);
    lemma_regroups(k, p, m);
    lemma_regroups(p, m, 1real);
    assert(counted(a * y - a * b) <= k * mp);
    assert(counted(x * y - a * y) <= k * mp + mp);
    lemma_errors_add(big * (x * y), big * (a * y), big * (a * b), k * mp + mp, k * mp);
    lemma_distributes(2real * k, 1real, mp);
    lemma_regroups(2real, k, mp);
    lemma_scaled_error(a, 0real, b, m, p);
    assert(0real * b == 0real);
    lemma_larger_product(k, 400real, mp);
}

/// A product of two numbers that both have errors, but no grains.
pub proof fn lemma_near_both(x: Double, y: Double, a: real, b: real, k: real, m: real, p: real)
    requires
        is_near(x, a, k, m, 0real),
        is_near(y, b, k, p, 0real),
        x.mul(y).is_finite(),
        k <= 400real,
    ensures
        is_near(x.mul(y), a * b, 2real * k + 3real, m * p, 1real),
{
    lemma_grain();
    assert(grain() * 0real == 0real);
    lemma_near_product_of_errors(exact(x), exact(y), a, b, k, m, p);
    lemma_product_relative(x, y);
    lemma_distributes(2real * k + 1real, 2real, m * p);
    lemma_regroups(grain(), 1real, 1real);
}

/// Grains that are small against the size count as part of it.
pub proof fn lemma_near_without_grains(x: Double, a: real, k: real, m: real, n: real)
    requires
        is_near(x, a, k, m, n),
        k <= 999real,
        n <= 1000real,
        1000000000000real * m >= 1real,
    ensures
        is_near(x, a, k + 1real, m, 0real),
{
    lemma_grain();
    lemma_larger_product(n, 1000real, grain());
    lemma_distributes(k, 1real, m);
    assert(grain() * 0real == 0real);
}

} // verus!
