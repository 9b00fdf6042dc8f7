//! How near the colors of a gradient are to the exact ones.
use crate::accuracy::{
    absolute, exact, is_within, lemma_at_least_exact, lemma_bounded, lemma_distributes,
    lemma_exact_within, lemma_keeps_sign, lemma_ordered, lemma_pow2_order, lemma_product_within,
    lemma_quotient_within, lemma_real_product, lemma_regroups, lemma_scaled_error, lemma_sum_within,
    lemma_two, lemma_two_order, lemma_within, lemma_within_exact, two,
};
use crate::approx::{
    counted, grain, is_near, lemma_grain, lemma_near, lemma_near_both, lemma_near_difference,
    lemma_near_sum, lemma_near_without_grains, lemma_quotient_relative, lemma_sum_relative,
};
use crate::color::mix;
use crate::coverage::{is_colored, lemma_order_of_exact, point_within};
use crate::double::Double;
use crate::exact::{lemma_order_of_values, lemma_power_value, magnitude_of};
use crate::float::{lemma_zero_units, NARROW, NARROW_INFINITY, WIDE};
use crate::frames::lemma_power_is_two;
use crate::geometry::{Point, EPS, ONE, ZERO};
use crate::motion::{lemma_scale, lemma_sign_of_exact};
use crate::raster::{lemma_eps_value, pixel, row_span, scan_line, Gradient};
use crate::rounding::{
    distance, encode, lemma_encode_error, lemma_encode_exact, lemma_encode_monotone_same,
    lemma_encode_scaled, lemma_nearest_exact, lemma_units_order, units,
};
use crate::sides::lemma_middle_of_row;
use crate::single::{lemma_one_units, single_one, Single};
use vstd::arithmetic::div_mod::lemma_fundamental_div_mod;
use vstd::arithmetic::power2::{
    lemma2_to64, lemma2_to64_rest, lemma_pow2_adds, lemma_pow2_pos, pow2,
};
use vstd::prelude::*;

verus! {

/// A finite single-precision number that is not negative, in units of `2^-149`.
pub open spec fn counts(x: Single, u: nat) -> bool {
    let b = x.binary();
    &&& b.magnitude < NARROW_INFINITY
    &&& b.units(NARROW) == u
    &&& b.negative ==> u == 0
}

/// A magnitude that is not too large is rounded to a finite number, which is off by at most half of
/// its last digit.
proof fn lemma_narrow(n: nat, d: nat)
    requires
        d > 0,
        n <= 1024 * pow2(149) * d,
    ensures
        encode(n, d, 24) < NARROW_INFINITY,
        distance(units(encode(n, d, 24), 24) * d, n) * 0x100_0000 <= n + d * 0x80_0000,
        d == 1 ==> distance(units(encode(n, d, 24), 24), n) * 0x100_0000 <= n,
{
    lemma2_to64();
    lemma_encode_error(n, d, 24);
    lemma_pow2_adds(10, 149);
    lemma_pow2_pos(159);
    assert(1 * pow2(159) == pow2(159));
    lemma_encode_exact(1, 159, 24);
    assert(pow2(159) * d == 1024 * pow2(149) * d);
    lemma_encode_monotone_same(n, pow2(159) * d, d, 24);
    lemma_encode_scaled(pow2(159), 1, d, 24);
    assert(1 * d == d);
    assert(units(encode(n, 1, 24), 24) * 1 == units(encode(n, 1, 24), 24));
}

/// A byte.
proof fn lemma_byte_counts(n: u8)
    ensures
        counts(Single::from_u8(n), n as nat * pow2(149)),
{
    reveal(Single::spec_from_u8);
    lemma2_to64();
    lemma_encode_exact(n as nat, 149, 24);
    let u = n as nat * pow2(149);
    assert(u <= 1024 * pow2(149) * 1) by (nonlinear_arith)
        requires
            u == n * pow2(149),
            n <= 255,
    ;
    lemma_narrow(u, 1);
}

/// A sum of numbers that are not negative.
proof fn lemma_sum_counts(x: Single, y: Single, u: nat, v: nat)
    requires
        counts(x, u),
        counts(y, v),
        u + v <= 1024 * pow2(149),
    ensures
        exists|s: nat|
            counts(x.add(y), s) && distance(s, u + v) * 0x100_0000 <= u + v,
{
    reveal(Single::spec_add);
    lemma_zero_units(NARROW);
    lemma_narrow(u + v, 1);
    let s = x.add(y).binary().units(NARROW);
    assert(x.binary().value(NARROW) == u && y.binary().value(NARROW) == v);
    assert(counts(x.add(y), s) && distance(s, u + v) * 0x100_0000 <= u + v);
}

/// One less a number of at most one.
proof fn lemma_rest_counts(t: Single, u: nat)
    requires
        counts(t, u),
        u <= pow2(149),
    ensures
        exists|s: nat|
            counts(single_one().sub(t), s) && distance(s, (pow2(149) - u) as nat) * 0x100_0000
                <= pow2(149) - u,
{
    reveal(Single::spec_add);
    reveal(Single::spec_neg);
    lemma_zero_units(NARROW);
    lemma_one_units();
    let n = (pow2(149) - u) as nat;
    lemma_narrow(n, 1);
    let r = single_one().sub(t);
    let s = r.binary().units(NARROW);
    assert(t.neg().binary().value(NARROW) == -(u as int));
    assert(single_one().binary().value(NARROW) == pow2(149));
    assert(counts(r, s) && distance(s, n) * 0x100_0000 <= n);
}

/// A product of a byte and a number of at most one.
proof fn lemma_product_counts(x: Single, y: Single, n: nat, v: nat)
    requires
        counts(x, n * pow2(149)),
        counts(y, v),
        n <= 255,
        v <= 2 * pow2(149),
    ensures
        exists|s: nat|
            counts(x.mul(y), s) && distance(s, n * v) * 0x100_0000 <= n * v + 0x80_0000,
{
    reveal(Single::spec_mul);
    let w = pow2(149);
    lemma_pow2_pos(149);
    lemma_zero_units(NARROW);
    let e = (n * w) * v;
    assert(e == (n * v) * w) by (nonlinear_arith)
        requires
            e == (n * w) * v,
    ;
    assert(n * v <= 1024 * w) by (nonlinear_arith)
        requires
            n <= 255,
            v <= 2 * w,
    ;
    assert((n * v) * w <= 1024 * w * w) by (nonlinear_arith)
        requires
            n * v <= 1024 * w,
    ;
    lemma_narrow(e, w);
    let s = x.mul(y).binary().units(NARROW);
    let m = encode(e, w, 24);
    assert(s == units(m, 24));
    let d = distance(s, n * v);
    assert(distance(s * w, (n * v) * w) == d * w) by {
        lemma_scaled_distance(s, n * v, w);
    }
    assert(d * 0x100_0000 <= n * v + 0x80_0000) by (nonlinear_arith)
        requires
            (d * w) * 0x100_0000 <= (n * v) * w + w * 0x80_0000,
            w > 0,
    ;
    if v == 0 {
        assert(n * 0 == 0 && 0 * w == 0);
        lemma_encode_zero_narrow(w);
    }
    if n * w == 0 {
        assert(n == 0) by (nonlinear_arith)
            requires
                n * w == 0,
                w > 0,
        ;
        assert(0 * v == 0 && 0 * w == 0);
        lemma_encode_zero_narrow(w);
    }
    assert(units(0, 24) == 0);
    assert(counts(x.mul(y), s));
}

proof fn lemma_encode_zero_narrow(d: nat)
    requires
        d > 0,
    ensures
        encode(0, d, 24) == 0,
{
    lemma_pow2_pos(24);
    assert(0 < d * pow2(24)) by (nonlinear_arith)
        requires
            d > 0,
            pow2(24) > 0,
    ;
    assert(0 * d == 0);
    lemma_nearest_exact(0, d);
}

proof fn lemma_scaled_distance(a: nat, b: nat, w: nat)
    ensures
        distance(a * w, b * w) == distance(a, b) * w,
{
    if a < b {
        assert(a * w <= b * w && (b - a) * w == b * w - a * w) by (nonlinear_arith)
            requires
                a < b,
        ;
    } else {
        assert(a * w >= b * w && (a - b) * w == a * w - b * w) by (nonlinear_arith)
            requires
                a >= b,
        ;
    }
}

/// A mixture at a fraction of the way that is between zero and one is within a little more than a
/// half of the exact one.
pub proof fn lemma_mix_error(a: u8, b: u8, t: Single, u: nat)
    requires
        counts(t, u),
        u <= pow2(149),
    ensures
        magnitude_of(mix(a, b, t) * pow2(149) - (a * (pow2(149) - u) + b * u)) * 0x4000 <= 0x2001
            * pow2(149),
{
    let w = pow2(149);
    lemma_pow2_pos(149);
    lemma_byte_counts(a);
    lemma_byte_counts(b);
    lemma_rest_counts(t, u);
    let rest = single_one().sub(t);
    let r = choose|s: nat|
        counts(rest, s) && distance(s, (w - u) as nat) * 0x100_0000 <= w - u;
    assert(r <= 2 * w);
    let (x, y) = (Single::from_u8(a), Single::from_u8(b));
    lemma_product_counts(x, rest, a as nat, r);
    lemma_product_counts(y, t, b as nat, u);
    let p = choose|s: nat|
        counts(x.mul(rest), s) && distance(s, a as nat * r) * 0x100_0000 <= a as nat * r
            + 0x80_0000;
    let q = choose|s: nat|
        counts(y.mul(t), s) && distance(s, b as nat * u) * 0x100_0000 <= b as nat * u + 0x80_0000;
    let (ar, au, bu) = (a * r, a * (w - u), b * u);
    lemma_mix_sizes(a, b, w, u, r);
    lemma2_to64();
    lemma2_to64_rest();
    lemma_pow2_adds(40, 109);
    lemma_pow2_pos(109);
    assert(w >= 0x100_0000_0000);
    lemma_sum_counts(x.mul(rest), y.mul(t), p, q);
    let z = x.mul(rest).add(y.mul(t));
    let s = choose|s: nat| counts(z, s) && distance(s, p + q) * 0x100_0000 <= p + q;
    lemma_mix_total(s, p, q, r, ar as nat, au as nat, bu as nat, w, u);
    lemma_round_error(z, s, w);
    assert(mix(a, b, t) == z.round_u8());
}

/// How large the parts of a mixture are.
proof fn lemma_mix_sizes(a: u8, b: u8, w: nat, u: nat, r: nat)
    requires
        u <= w,
    ensures
        0 <= a * r <= 255 * r,
        0 <= a * (w - u),
        0 <= b * u,
        a * (w - u) + b * u <= 255 * w,
        distance((a * r) as nat, (a * (w - u)) as nat) <= 255 * distance(r, (w - u) as nat),
{
    let (ar, au, bu) = (a * r, a * (w - u), b * u);
    assert(0 <= ar <= 255 * r && 0 <= au && 0 <= bu) by (nonlinear_arith)
        requires
            ar == a * r,
            au == a * (w - u),
            bu == b * u,
            0 <= u <= w,
            0 <= a <= 255,
            0 <= b <= 255,
            r >= 0,
    ;
    assert(au + bu <= 255 * w) by (nonlinear_arith)
        requires
            au == a * (w - u),
            bu == b * u,
            0 <= u <= w,
            0 <= a <= 255,
            0 <= b <= 255,
    ;
    let d = distance(r, (w - u) as nat);
    lemma_scaled_distance(r, (w - u) as nat, a as nat);
    assert(r * a == ar && ((w - u) as nat) * a == au) by (nonlinear_arith)
        requires
            ar == a * r,
            au == a * (w - u),
            0 <= u <= w,
    ;
    assert(d * a <= 255 * d) by (nonlinear_arith)
        requires
            a <= 255,
    ;
}

/// The errors of a mixture together.
proof fn lemma_mix_total(
    s: nat,
    p: nat,
    q: nat,
    r: nat,
    ar: nat,
    au: nat,
    bu: nat,
    w: nat,
    u: nat,
)
    requires
        u <= w,
        w >= 0x100_0000_0000,
        distance(r, (w - u) as nat) * 0x100_0000 <= w - u,
        ar <= 255 * r,
        au + bu <= 255 * w,
        distance(ar, au) <= 255 * distance(r, (w - u) as nat),
        distance(p, ar) * 0x100_0000 <= ar + 0x80_0000,
        distance(q, bu) * 0x100_0000 <= bu + 0x80_0000,
        distance(s, p + q) * 0x100_0000 <= p + q,
    ensures
        magnitude_of(s - (au + bu)) * 0x4000 <= w,
{
}

/// Rounding to a byte moves a number that is not much more than 255 by at most a half.
proof fn lemma_round_error(z: Single, s: nat, w: nat)
    requires
        counts(z, s),
        w == pow2(149),
        w > 0,
        s * 0x4000 <= 255 * w * 0x4000 + w,
    ensures
        2 * magnitude_of(z.round_u8() * w - s) <= w,
{
    reveal(Single::spec_round_u8);
    let (q, r) = (s / w, s % w);
    lemma_fundamental_div_mod(s as int, w as int);
    assert(w * q == q * w && (q + 1) * w == q * w + w) by (nonlinear_arith);
    if q >= 256 {
        assert(q * w >= 256 * w) by (nonlinear_arith)
            requires
                q >= 256,
        ;
    }
    if q == 255 {
        assert(q * w == 255 * w);
    }
    lemma_zero_units(NARROW);
    if z.binary().negative {
        assert(s == 0);
    }
    assert(0 * w == 0);
}

/// How far along the way of a gradient the middle of a pixel is, exactly.
pub open spec fn fraction(grad: Gradient, px: int, py: int) -> real {
    let (fx, fy) = (exact(grad.from.x), exact(grad.from.y));
    let (gx, gy) = (exact(grad.to.x) - fx, exact(grad.to.y) - fy);
    let across = px as real + 1real / 2real - fx;
    let down = py as real + 1real / 2real - fy;
    (across * gx + down * gy) / (gx * gx + gy * gy)
}

/// A fraction that lies beyond one of the ends stands for that end.
pub open spec fn clamped(t: real) -> real {
    if t < 0real {
        0real
    } else if t > 1real {
        1real
    } else {
        t
    }
}

/// A color channel that goes from `a` to `b`, at the fraction `t` of the way.
pub open spec fn between(a: u8, b: u8, t: real) -> real {
    a as real + (b as real - a as real) * t
}

/// A square is that of the magnitude.
pub proof fn lemma_square(x: real)
    ensures
        absolute(x) * absolute(x) == x * x,
        x * x >= 0real,
{
    assert((-x) * (-x) == x * x && x * x >= 0real) by (nonlinear_arith);
}

/// The sum of the sides is not much longer than the diagonal, in terms of its square.
proof fn lemma_sides(a: real, b: real, k: real)
    requires
        a >= 0real,
        b >= 0real,
        2147483648real * (a * a + b * b) >= 1real,
        k >= 0real,
        (k * k) * (a * a + b * b) >= 2real,
    ensures
        a + b <= k * (a * a + b * b),
        100000real * (a + b) >= 1real,
{
    let (s, l) = (a + b, a * a + b * b);
    assert(s * s <= 2real * l && s * s >= l) by (nonlinear_arith)
        requires
            s == a + b,
            l == a * a + b * b,
            a >= 0real,
            b >= 0real,
    ;
    let m = k * l;
    lemma_keeps_sign(k, l);
    if s > m {
        assert(s * s > m * m) by (nonlinear_arith)
            requires
                s > m,
                m >= 0real,
        ;
        let kk = k * k;
        assert(m * m == (kk * l) * l) by (nonlinear_arith)
            requires
                m == k * l,
                kk == k * k,
        ;
        lemma_ordered(2real, kk * l, l);
        lemma_regroups(l, 2real, 1real);
        lemma_regroups(l, kk * l, 1real);
    }
    if 100000real * s < 1real {
        assert(s * s < 1real / 10000000000real) by (nonlinear_arith)
            requires
                0real <= s,
                100000real * s < 1real,
        ;
    }
}

/// The way of a gradient, and the square of its length.
proof fn lemma_way(grad: Gradient, c: int)
    requires
        point_within(grad.from, c),
        point_within(grad.to, c),
        0 <= c <= 20,
        grad.varies(),
    ensures
        ({
            let (gx, gy) = (
                exact(grad.to.x) - exact(grad.from.x),
                exact(grad.to.y) - exact(grad.from.y),
            );
            let l = gx * gx + gy * gy;
            &&& is_within(grad.way().x, c + 1)
            &&& is_within(grad.way().y, c + 1)
            &&& is_near(grad.way().x, gx, 1real, absolute(gx), 0real)
            &&& is_near(grad.way().y, gy, 1real, absolute(gy), 0real)
            &&& is_near(grad.length2(), l, 8real, l, 0real)
            &&& 2147483648real * l >= 1real
            &&& l <= 8796093022208real
        }),
{
    let (a, b) = (grad.from, grad.to);
    let (gx, gy) = (exact(b.x) - exact(a.x), exact(b.y) - exact(a.y));
    let l = gx * gx + gy * gy;
    let way = grad.way();
    lemma_sum_within(b.x, a.x, c);
    lemma_sum_within(b.y, a.y, c);
    lemma_near_difference(b.x, a.x);
    lemma_near_difference(b.y, a.y);
    lemma_exact_within(a.x, c);
    lemma_exact_within(a.y, c);
    lemma_exact_within(b.x, c);
    lemma_exact_within(b.y, c);
    lemma_product_within(way.x, way.x, c + 1, c + 1);
    lemma_product_within(way.y, way.y, c + 1, c + 1);
    lemma_sum_within(way.x.mul(way.x), way.y.mul(way.y), 2 * c + 2);
    lemma_near_both(way.x, way.x, gx, gx, 1real, absolute(gx), absolute(gx));
    lemma_near_both(way.y, way.y, gy, gy, 1real, absolute(gy), absolute(gy));
    lemma_square(gx);
    lemma_square(gy);
    lemma_near_sum(
        way.x.mul(way.x),
        way.y.mul(way.y),
        gx * gx,
        gy * gy,
        5real,
        gx * gx,
        gy * gy,
        1real,
        1real,
    );
    // The square of the length is more than `EPS`.
    let eps = Double::from_bits(EPS);
    lemma_eps_value();
    lemma_order_of_exact(eps, grad.length2());
    lemma_power_of_eps();
    lemma_grain();
    lemma_near_without_grains(grad.length2(), l, 7real, l, 4real);
    lemma_two_order(c, 20);
    lemma_two(0);
    lemma_scale(0);
    lemma_scale(10);
    lemma_bounded(gx, gx, 2097152real, 2097152real);
    lemma_bounded(gy, gy, 2097152real, 2097152real);
}

/// Powers of two as numbers.
proof fn lemma_thirteen()
    ensures
        two(13) == 8192real,
        two(14) == 16384real,
        4294967296real * two(-32) == 1real,
        two(32) == 4294967296real,
{
    lemma_two(0);
    lemma_scale(0);
    lemma_scale(10);
    lemma_scale(20);
    lemma_scale(30);
    lemma_scale(-10);
    lemma_scale(-20);
    lemma_scale(-30);
    lemma_scale(-32);
}

/// `EPS` is more than `2^-30`.
pub proof fn lemma_power_of_eps()
    ensures
        1073741824real * exact(Double::from_bits(EPS)) > 1real,
{
    lemma_eps_value();
    lemma_two(0);
    lemma_scale(-10);
    lemma_scale(-20);
    lemma_scale(-30);
    lemma_pow2_pos(1074);
    let (a, b, w) = (
        Double::from_bits(EPS).value() as real,
        pow2(1044) as real,
        pow2(1074) as real,
    );
    assert(a / w > b / w) by (nonlinear_arith)
        requires
            a > b,
            w > 0real,
    ;
}

/// The inverse of the square of the length.
proof fn lemma_inverse(y: Double, l: real)
    requires
        is_near(y, l, 8real, l, 0real),
        2147483648real * l >= 1real,
        l <= 8796093022208real,
    ensures
        is_within(Double::from_bits(ONE).div(y), 32),
        is_near(Double::from_bits(ONE).div(y), 1real / l, 10real, 1real / l, 0real),
        (1real / l) * l == 1real,
        1real / l > 0real,
{
    let one = Double::from_bits(ONE);
    let q = one.div(y);
    let big = 9007199254740992real;
    lemma_grain();
    assert(grain() * 0real == 0real);
    lemma_thirteen();
    lemma_at_least_exact(y, -32);
    lemma_power_value(one, 1074);
    lemma_pow2_pos(1074);
    lemma_two(0);
    lemma_quotient_within(one, y, 0, -32);
    lemma_quotient_relative(one, y);
    let x = exact(y);
    let (i, j) = (1real / l, 1real / x);
    assert(i * l == 1real && i > 0real) by (nonlinear_arith)
        requires
            i == 1real / l,
            l > 0real,
    ;
    assert(j * x == 1real && j > 0real) by (nonlinear_arith)
        requires
            j == 1real / x,
            x > 0real,
    ;
    lemma_scaled_error(x, l, i, 8real * l / big, i);
    lemma_regroups(l, i, 1real);
    lemma_regroups(8real / big, l, i);
    let e = x * i - 1real;
    assert(absolute(e) <= 8real / big);
    lemma_bounded(j, e, j, 8real / big);
    lemma_distributes(x * i, 1real, j);
    lemma_regroups(x, i, j);
    lemma_regroups(x, j, i);
    lemma_regroups(e, j, 1real);
    assert((x * i) * j == i);
    assert(j == i - j * e);
    assert(1000real * j <= 1001real * i);
    assert(10000000000000real * i >= 1real) by {
        lemma_ordered(l, 8796093022208real, i);
    }
    assert(exact(one) == 1real);
    assert(counted(exact(q) - i) <= 10real * i);
}

/// The middle of a pixel.
proof fn lemma_middle(n: i32, c: int)
    requires
        0 <= n < pow2(c as nat),
        0 <= c <= 20,
    ensures
        is_within(scan_line(n), c),
        exact(scan_line(n)) == n as real + 1real / 2real,
{
    lemma_middle_of_row(n);
    lemma_power_is_two(c as nat);
    lemma_within_exact(scan_line(n), c);
}

/// Half of the sum of products that says how far along the way a pixel is.
proof fn lemma_side(p: Double, f: Double, g: Double, step: real, c: int)
    requires
        is_within(p, c),
        is_within(f, c),
        is_within(g, c + 1),
        0 <= c <= 20,
        is_near(g, step, 1real, absolute(step), 0real),
    ensures
        is_within(p.sub(f).mul(g), 2 * c + 2),
        is_near(
            p.sub(f).mul(g),
            (exact(p) - exact(f)) * step,
            5real,
            (2real * two(c)) * absolute(step),
            1real,
        ),
{
    let a = exact(p) - exact(f);
    let most = 2real * two(c);
    lemma_sum_within(p, f, c);
    lemma_exact_within(p, c);
    lemma_exact_within(f, c);
    lemma_near_difference(p, f);
    lemma_near(p.sub(f), a, 1real, absolute(a), 0real, 1real, most, 0real);
    lemma_product_within(p.sub(f), g, c + 1, c + 1);
    lemma_near_both(p.sub(f), g, a, step, 1real, most, absolute(step));
}

/// How far along the way the first pixel of a row is, and what is added for each further one.
proof fn lemma_start_error(grad: Gradient, x0: i32, py: i32, c: int, k: real)
    requires
        point_within(grad.from, c),
        point_within(grad.to, c),
        0 <= c <= 20,
        grad.varies(),
        0 <= x0 < pow2(c as nat),
        0 <= py < pow2(c as nat),
        k >= 1real,
        (k * k) * length_squared(grad) >= 2real,
    ensures
        ({
            let gx = exact(grad.to.x) - exact(grad.from.x);
            let l = length_squared(grad);
            let (t, dt) = (grad.start(x0, py), grad.way().x.mul(grad.inverse2()));
            let f = fraction(grad, x0 as int, py as int);
            let ck = two(c) * k;
            &&& is_within(t, 2 * c + 35)
            &&& is_within(dt, c + 33)
            &&& absolute(f) <= 2real * ck
            &&& counted(exact(t) - f) <= 48real * ck
            &&& counted(exact(dt) - gx * (1real / l)) <= 24real * k
        }),
{
    let (a, b) = (grad.from, grad.to);
    let (gx, gy) = (exact(b.x) - exact(a.x), exact(b.y) - exact(a.y));
    let l = gx * gx + gy * gy;
    let (px, qy) = (scan_line(x0), scan_line(py));
    let way = grad.way();
    let inv = grad.inverse2();
    let i = 1real / l;
    let (n, ck) = (two(c), two(c) * k);
    lemma_two(0);
    lemma_two_order(0, c);
    lemma_way(grad, c);
    lemma_inverse(grad.length2(), l);
    lemma_middle(x0, c);
    lemma_middle(py, c);
    lemma_side(px, a.x, way.x, gx, c);
    lemma_side(qy, a.y, way.y, gy, c);
    let (left, right) = (px.sub(a.x).mul(way.x), qy.sub(a.y).mul(way.y));
    let (u, v) = ((exact(px) - exact(a.x)) * gx, (exact(qy) - exact(a.y)) * gy);
    let most = 2real * n;
    let (mx, my) = (most * absolute(gx), most * absolute(gy));
    let s = absolute(gx) + absolute(gy);
    lemma_sum_within(left, right, 2 * c + 2);
    lemma_near_sum(left, right, u, v, 5real, mx, my, 1real, 1real);
    lemma_square(gx);
    lemma_square(gy);
    lemma_sides(absolute(gx), absolute(gy), k);
    let total = left.add(right);
    lemma_distributes(absolute(gx), absolute(gy), most);
    lemma_ordered(1real, n, s);
    lemma_regroups(s, n, 1real);
    lemma_regroups(2real, n, s);
    assert(mx + my == most * s && most * s >= 2real * s);
    lemma_near_without_grains(total, u + v, 7real, mx + my, 4real);
    lemma_near(total, u + v, 8real, mx + my, 0real, 10real, most * s, 0real);
    lemma_product_within(total, inv, 2 * c + 3, 32);
    lemma_near_both(total, inv, u + v, i, 10real, most * s, i);
    lemma_near(way.x, gx, 1real, absolute(gx), 0real, 10real, s, 0real);
    lemma_product_within(way.x, inv, c + 1, 32);
    lemma_near_both(way.x, inv, gx, i, 10real, s, i);
    assert(s * i <= k) by {
        lemma_ordered(s, k * l, i);
        lemma_regroups(i, s, 1real);
        lemma_regroups(k, l, i);
        lemma_regroups(i, k * l, 1real);
        lemma_regroups(i, l, 1real);
    }
    assert((most * s) * i <= 2real * ck) by {
        lemma_regroups(most, s, i);
        lemma_ordered(s * i, k, most);
        lemma_regroups(2real, n, k);
    }
    let m = (most * s) * i;
    lemma_near(total.mul(inv), (u + v) * i, 23real, m, 1real, 23real, 2real * ck, 1real);
    lemma_near(way.x.mul(inv), gx * i, 23real, s * i, 1real, 23real, k, 1real);
    lemma_grain();
    lemma_regroups(grain(), 1real, 1real);
    lemma_ordered(1real, k, n);
    lemma_over(u + v, l);
}

/// A quotient is a product with the inverse.
proof fn lemma_over(n: real, l: real)
    requires
        l > 0real,
    ensures
        n / l == n * (1real / l),
{
    assert(n / l == n * (1real / l)) by (nonlinear_arith)
        requires
            l > 0real,
    ;
}

/// How far along the way a pixel is, exactly: the next one is further by the same.
proof fn lemma_next_fraction(grad: Gradient, px: int, py: int)
    requires
        ({
            let gx = exact(grad.to.x) - exact(grad.from.x);
            let gy = exact(grad.to.y) - exact(grad.from.y);
            gx * gx + gy * gy > 0real
        }),
    ensures
        ({
            let gx = exact(grad.to.x) - exact(grad.from.x);
            let gy = exact(grad.to.y) - exact(grad.from.y);
            let l = gx * gx + gy * gy;
            fraction(grad, px + 1, py) == fraction(grad, px, py) + gx * (1real / l)
        }),
{
    let (fx, fy) = (exact(grad.from.x), exact(grad.from.y));
    let (gx, gy) = (exact(grad.to.x) - fx, exact(grad.to.y) - fy);
    let l = gx * gx + gy * gy;
    let across = px as real + 1real / 2real - fx;
    let down = py as real + 1real / 2real - fy;
    let n = across * gx + down * gy;
    lemma_distributes(across, 1real, gx);
    lemma_over(n, l);
    lemma_over(n + gx, l);
    lemma_distributes(n, gx, 1real / l);
}

/// How far along the way a pixel of a row is: the error adds up from one pixel to the next.
proof fn lemma_ramp_error(grad: Gradient, x0: i32, py: i32, n: nat, c: int, k: real)
    requires
        point_within(grad.from, c),
        point_within(grad.to, c),
        0 <= c <= 20,
        grad.varies(),
        0 <= x0,
        x0 + n < pow2(c as nat),
        0 <= py < pow2(c as nat),
        k >= 1real,
        (k * k) * length_squared(grad) >= 2real,
        1000real * (two(c) * (two(c) * k)) <= 9007199254740992real,
    ensures
        ({
            let t = grad.ramp(x0, py, n);
            let ck = two(c) * k;
            &&& t.is_finite()
            &&& counted(exact(t) - fraction(grad, x0 + n, py as int)) <= 48real * ck + n as real * (
            2real * ck + 25real * k)
        }),
    decreases n,
{
    let ck = two(c) * k;
    let step = 2real * ck + 25real * k;
    lemma_two(0);
    lemma_two_order(0, c);
    lemma_power_is_two(c as nat);
    lemma_pow2_order(c as nat, 20);
    lemma2_to64();
    lemma_start_error(grad, x0, py, c, k);
    if n > 0 {
        let m = (n - 1) as nat;
        lemma_ramp_error(grad, x0, py, m, c, k);
        lemma_start_error(grad, (x0 + m) as i32, py, c, k);
        lemma_start_error(grad, (x0 + n) as i32, py, c, k);
        lemma_way(grad, c);
        lemma_next_fraction(grad, x0 + m, py as int);
        let (t, dt) = (grad.ramp(x0, py, m), grad.way().x.mul(grad.inverse2()));
        let (f, g) = (fraction(grad, x0 + m, py as int), fraction(grad, x0 + n, py as int));
        let (p, q) = (m as real, n as real);
        assert(q == p + 1real && 0real <= p <= two(c));
        lemma_distributes(p, 1real, step);
        lemma_small_total(two(c), k, p);
        lemma_thirteen();
        assert(absolute(exact(t)) <= two(53)) by {
            lemma_scale(32);
            lemma_scale(42);
            lemma_scale(43);
        }
        lemma_within_exact(t, 53);
        lemma_within(dt, c + 33, 53);
        lemma_sum_within(t, dt, 53);
        lemma_sum_relative(t, dt);
        assert(absolute(exact(t) + exact(dt) - g) <= 1real);
    } else {
        assert(n as real == 0real);
        assert(0real * step == 0real);
    }
}

/// The errors of a row add up to less than one.
proof fn lemma_small_total(n: real, k: real, p: real)
    requires
        n >= 1real,
        k >= 1real,
        0real <= p <= n,
        1000real * (n * (n * k)) <= 9007199254740992real,
    ensures
        n * k >= k,
        n * (n * k) >= n * k,
        p * (2real * (n * k) + 25real * k) <= 2real * (n * (n * k)) + 25real * (n * k),
        48real * (n * k) + p * (2real * (n * k) + 25real * k) + 24real * k <= 100real * (n * (n
            * k)),
{
    let nk = n * k;
    let step = 2real * nk + 25real * k;
    lemma_ordered(1real, n, k);
    lemma_regroups(k, n, 1real);
    lemma_ordered(1real, n, nk);
    lemma_regroups(nk, n, 1real);
    lemma_ordered(p, n, step);
    lemma_regroups(step, p, 1real);
    lemma_regroups(step, n, 1real);
    lemma_distributes(2real * nk, 25real * k, n);
    lemma_regroups(n, 2real * nk, 1real);
    lemma_regroups(2real, nk, n);
    lemma_regroups(25real, k, n);
    lemma_regroups(n, 25real * k, 1real);
}

/// The fraction that the color is mixed at.
pub proof fn lemma_clamped(t: Double, f: real, delta: real)
    requires
        t.is_finite(),
        absolute(exact(t) - f) <= delta,
    ensures
        ({
            let c = t.clamp(Double::from_bits(ZERO), Double::from_bits(ONE));
            &&& c.is_finite()
            &&& 0 <= c.value() <= pow2(1074)
            &&& absolute(exact(c) - clamped(f)) <= delta
        }),
{
    let (zero, one) = (Double::from_bits(ZERO), Double::from_bits(ONE));
    let c = t.clamp(zero, one);
    lemma_power_value(one, 1074);
    lemma_pow2_pos(1074);
    lemma_two(0);
    lemma_zero_units(WIDE);
    assert(zero.value() == 0 && zero.is_finite());
    lemma_sign_of_exact(zero);
    assert(exact(one) == 1real);
    lemma_order_of_exact(t, zero);
    lemma_order_of_exact(one, t);
    lemma_order_of_values(t, zero);
    lemma_order_of_values(one, t);
}

/// A double-precision number between zero and one, in single precision.
pub proof fn lemma_fraction_counts(t: Double) -> (u: nat)
    requires
        t.is_finite(),
        0 <= t.value() <= pow2(1074),
    ensures
        counts(Single::from_double(t), u),
        u <= pow2(149),
        8388608real * absolute(u as real / pow2(149) as real - exact(t)) <= 1real,
{
    reveal(Single::spec_from_double);
    let (s, d, w) = (pow2(149), pow2(925), pow2(1074));
    lemma_pow2_pos(149);
    lemma_pow2_pos(925);
    lemma_pow2_adds(149, 925);
    lemma_zero_units(WIDE);
    let v = t.binary().units(WIDE);
    assert(t.value() == v || v == 0);
    assert(v <= 1024 * s * d) by (nonlinear_arith)
        requires
            v <= s * d,
    ;
    lemma_narrow(v, d);
    let u = Single::from_double(t).binary().units(NARROW);
    let m = encode(v, d, 24);
    assert(u == units(m, 24));
    // At most one.
    lemma2_to64();
    assert(1 * pow2(149) == pow2(149));
    lemma_encode_exact(1, 149, 24);
    lemma_encode_monotone_same(v, s * d, d, 24);
    lemma_encode_scaled(s, 1, d, 24);
    assert(1 * d == d);
    lemma_units_order(encode(s, 1, 24), m, 24);
    if v == 0 {
        lemma_encode_zero_narrow(d);
        lemma_zero_units(NARROW);
    }
    // The distance, in units.
    lemma2_to64_rest();
    lemma_pow2_adds(23, 126);
    lemma_pow2_pos(126);
    assert(d * 0x80_0000 <= w) by (nonlinear_arith)
        requires
            w == s * d,
            s >= 0x80_0000,
    ;
    let e = u * d - v;
    assert(magnitude_of(e) * 0x80_0000 <= w);
    lemma_real_product(u as int, d as int);
    lemma_real_product(s as int, d as int);
    let (a, b, x, y, z) = (u as real, v as real, s as real, d as real, w as real);
    assert(e as real == a * y - b);
    let r = a / x;
    assert(r == (a * y) / z) by (nonlinear_arith)
        requires
            r == a / x,
            z == x * y,
            x > 0real,
            y > 0real,
    ;
    let g = a * y;
    assert(-z <= 8388608real * (g - b) <= z);
    assert(-1real <= 8388608real * (g / z - b / z) <= 1real) by (nonlinear_arith)
        requires
            -z <= 8388608real * (g - b) <= z,
            z > 0real,
    ;
    u
}

/// A channel that is mixed at a fraction is little more than a half off.
pub proof fn lemma_channel_error(a: u8, b: u8, t: Single, u: nat)
    requires
        counts(t, u),
        u <= pow2(149),
    ensures
        16384real * absolute(
            mix(a, b, t) as real - between(a, b, u as real / pow2(149) as real),
        ) <= 8193real,
{
    let s = pow2(149);
    lemma_pow2_pos(149);
    lemma_mix_error(a, b, t, u);
    let m = mix(a, b, t);
    lemma_real_product(m as int, s as int);
    lemma_real_product(a as int, s - u);
    lemma_real_product(b as int, u as int);
    let (x, y, z) = (m as real, a as real, b as real);
    let (c, w) = (u as real, s as real);
    let e = m * s - (a * (s - u) + b * u);
    assert(e as real == x * w - (y * (w - c) + z * c));
    let r = c / w;
    assert(c == r * w) by (nonlinear_arith)
        requires
            r == c / w,
            w > 0real,
    ;
    let d = z - y;
    let q = x - (y + d * r);
    lemma_distributes(w, c, y);
    lemma_regroups(w - c, y, 1real);
    lemma_regroups(w, y, 1real);
    lemma_regroups(c, y, 1real);
    lemma_distributes(z, y, c);
    lemma_regroups(d, r, w);
    lemma_distributes(x, y + d * r, w);
    lemma_distributes(y, d * r, w);
    assert(q * w == x * w - (y * (w - c) + z * c));
    assert(-(8193real * w) <= 16384real * (q * w) <= 8193real * w);
    assert(-8193real <= 16384real * q <= 8193real) by (nonlinear_arith)
        requires
            -(8193real * w) <= 16384real * (q * w) <= 8193real * w,
            w > 0real,
    ;
}

/// Each channel of a colored pixel is near the exact mixture of the two colors at the fraction of
/// the way where the middle of the pixel is: off by little more than a half, and by what rounding
/// adds up to along a row of `2^c` pixels. `k` says how short the gradient may be.
pub proof fn lemma_gradient_error(
    pts: &[Point; 4],
    grad: &Gradient,
    w: i32,
    h: i32,
    px: int,
    py: i32,
    channel: int,
    c: int,
    k: real,
)
    requires
        point_within(grad.from, c),
        point_within(grad.to, c),
        0 <= c <= 20,
        grad.varies(),
        k >= 1real,
        (k * k) * length_squared(*grad) >= 2real,
        1000real * (two(c) * (two(c) * k)) <= 9007199254740992real,
        0 <= px < pow2(c as nat),
        0 <= py < pow2(c as nat),
        is_colored(pts, w, h, px, py),
        0 <= channel < 4,
    ensures
        absolute(
            pixel(pts, grad, w, h, px, py)[channel] as real - between(
                grad.c_start[channel],
                grad.c_end[channel],
                clamped(fraction(*grad, px, py as int)),
            ),
        ) <= gradient_slack(two(c), k),
{
    let (x0, x1) = row_span(pts, w, h, py)->0;
    let n = (px - x0) as nat;
    lemma_ramp_error(*grad, x0 as i32, py, n, c, k);
    let t = grad.ramp(x0 as i32, py, n);
    let f = fraction(*grad, px, py as int);
    let p = n as real;
    lemma_power_is_two(c as nat);
    lemma_two(0);
    lemma_two_order(0, c);
    assert(0real <= p <= two(c));
    lemma_small_total(two(c), k, p);
    let ck = two(c) * k;
    let delta = (2real * (two(c) * ck) + 73real * ck) / 9007199254740992real;
    lemma_clamped(t, f, delta);
    let z = t.clamp(Double::from_bits(ZERO), Double::from_bits(ONE));
    let u = lemma_fraction_counts(z);
    let s = Single::from_double(z);
    let (a, b) = (grad.c_start[channel], grad.c_end[channel]);
    lemma_channel_error(a, b, s, u);
    assert(pixel(pts, grad, w, h, px, py)[channel] == mix(a, b, s));
    let r = u as real / pow2(149) as real;
    let d = b as real - a as real;
    let e = delta + 1real / 8388608real;
    lemma_scaled_error(r, clamped(f), d, e, 255real);
    lemma_regroups(d, r, 1real);
    lemma_regroups(d, clamped(f), 1real);
}

/// How far a channel may be from the exact one, in a row of `n` pixels, with a gradient whose
/// length squared times the square of `k` is two or more.
pub open spec fn gradient_slack(n: real, k: real) -> real {
    501real / 1000real + 255real * ((2real * (n * (n * k)) + 73real * (n * k))
        / 9007199254740992real)
}

/// The square of the length of a gradient, exactly.
pub open spec fn length_squared(grad: Gradient) -> real {
    let gx = exact(grad.to.x) - exact(grad.from.x);
    let gy = exact(grad.to.y) - exact(grad.from.y);
    gx * gx + gy * gy
}

/// Each channel of a colored pixel is within one of the exact mixture of the two colors at the
/// fraction of the way where the middle of the pixel is, as long as neither the gradient nor the
/// picture reaches further than 8192 pixels.
pub proof fn lemma_gradient_is_linear(
    pts: &[Point; 4],
    grad: &Gradient,
    w: i32,
    h: i32,
    px: int,
    py: i32,
    channel: int,
)
    requires
        point_within(grad.from, 13),
        point_within(grad.to, 13),
        grad.varies(),
        w <= 8192,
        0 <= px,
        0 <= py < 8192,
        is_colored(pts, w, h, px, py),
        0 <= channel < 4,
    ensures
        absolute(
            pixel(pts, grad, w, h, px, py)[channel] as real - between(
                grad.c_start[channel],
                grad.c_end[channel],
                clamped(fraction(*grad, px, py as int)),
            ),
        ) <= 1real,
{
    lemma2_to64();
    lemma_thirteen();
    lemma_way(*grad, 13);
    lemma_gradient_error(pts, grad, w, h, px, py, channel, 13, 65536real);
}

} // verus!
