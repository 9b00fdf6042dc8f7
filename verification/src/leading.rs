//! Where a caret goes, and which of its corners lead, in exact values.
use crate::accuracy::{
    absolute, exact, is_within, lemma_bounded, lemma_distributes, lemma_exact_within,
    lemma_keeps_sign, lemma_ordered, lemma_product_within, lemma_real_product, lemma_regroups,
    lemma_scaled_error, lemma_sum_within, lemma_two, lemma_two_order, lemma_within, two,
};
use crate::approx::{
    counted, grain, lemma_difference_relative, lemma_grain, lemma_product_relative,
    lemma_quotient_relative, lemma_sum_relative,
};
use crate::coverage::lemma_order_of_exact;
use crate::double::Double;
use crate::exact::{lemma_pattern_value, magnitude_of};
use crate::frames::{lemma_exact_absolute, lemma_whole_exact};
use crate::geometry::{
    corner_frequencies, corners_center, corners_within, direction_of, frequency,
    lemma_corners_are_whole, lemma_direction_within, lemma_fraction, lemma_frequency_constants,
    lemma_frequency_error, lemma_max_projection, lemma_mean, max_projection, movement, projection,
    rect_corners, rect_i32_to_f64, Point, Rect, EPS, POSITION_EPSILON, QUARTER, SPRING_OMEGA, ZERO,
};
use crate::motion::{lemma_scale, lemma_sign_of_exact};
use crate::raster::lemma_eps_value;
use crate::settling::lemma_near_limit;
use vstd::arithmetic::power2::{lemma_pow2_pos, pow2};
use vstd::prelude::*;

verus! {

/// The mean of the corners across, exactly.
pub open spec fn mean_x(c: &[Point; 4]) -> real {
    (exact(c[0].x) + exact(c[1].x) + exact(c[2].x) + exact(c[3].x)) / 4real
}

/// The mean of the corners down, exactly.
pub open spec fn mean_y(c: &[Point; 4]) -> real {
    (exact(c[0].y) + exact(c[1].y) + exact(c[2].y) + exact(c[3].y)) / 4real
}

/// How far the corner `i` of the target lies before its centre, seen along the way from the centre
/// of the current corners to it, times the length of that way.
pub open spec fn lead(current: &[Point; 4], target: &[Point; 4], i: int) -> real {
    (exact(target[i].x) - mean_x(target)) * (mean_x(target) - mean_x(current)) + (exact(target[i].y)
        - mean_y(target)) * (mean_y(target) - mean_y(current))
}

pub open spec fn larger(a: real, b: real) -> real {
    if a < b {
        b
    } else {
        a
    }
}

/// The largest lead of a corner, either way, and at least a billionth of a pixel times the length.
pub open spec fn largest_lead(current: &[Point; 4], target: &[Point; 4], length: real) -> real {
    larger(
        larger(
            larger(
                larger(absolute(lead(current, target, 0)), absolute(lead(current, target, 1))),
                absolute(lead(current, target, 2)),
            ),
            absolute(lead(current, target, 3)),
        ),
        exact(Double::from_bits(EPS)) * length,
    )
}

/// The mean of four numbers, up to rounding.
proof fn lemma_mean_error(a: Double, b: Double, c: Double, d: Double, e: int)
    requires
        is_within(a, e),
        is_within(b, e),
        is_within(c, e),
        is_within(d, e),
        0 <= e <= 100,
    ensures
        ({
            let m = Double::from_bits(ZERO).add(a).add(b).add(c).add(d).mul(
                Double::from_bits(QUARTER),
            );
            let mean = (exact(a) + exact(b) + exact(c) + exact(d)) / 4real;
            &&& is_within(m, e + 1)
            &&& absolute(mean) <= two(e)
            &&& counted(exact(m) - mean) <= 8real * two(e)
        }),
{
    let m = Double::from_bits(ZERO).add(a).add(b).add(c).add(d).mul(Double::from_bits(QUARTER));
    lemma_mean(a, b, c, d, e);
    lemma_exact_within(a, e);
    lemma_exact_within(b, e);
    lemma_exact_within(c, e);
    lemma_exact_within(d, e);
    lemma_pow2_pos(1074);
    let w = pow2(1074) as real;
    let (v, p, q, r, s) = (
        m.value() as real,
        a.value() as real,
        b.value() as real,
        c.value() as real,
        d.value() as real,
    );
    let y = pow2((1074 + e - 48) as nat) as real;
    let z = p + q + r + s;
    assert((4 * m.value() - (a.value() + b.value() + c.value() + d.value())) as real == 4real * v
        - z);
    assert(-y <= 4real * v - z <= y);
    assert(p / w + q / w + r / w + s / w == z / w) by (nonlinear_arith)
        requires
            z == p + q + r + s,
            w > 0real,
    ;
    assert(-(y / w) <= 4real * (v / w) - z / w <= y / w) by (nonlinear_arith)
        requires
            -y <= 4real * v - z <= y,
            w > 0real,
    ;
    assert(y / w == two(e - 48));
    lemma_scale(e - 48);
    lemma_scale(e - 38);
    lemma_scale(e - 28);
    lemma_scale(e - 18);
    lemma_scale(e - 8);
}

/// The centre of four corners is their mean, up to rounding.
pub proof fn lemma_center_error(c: &[Point; 4], b: int)
    requires
        corners_within(c, b),
        0 <= b <= 100,
    ensures
        corners_center(c).x.is_finite() && counted(exact(corners_center(c).x) - mean_x(c)) <= 8real
            * two(b),
        corners_center(c).y.is_finite() && counted(exact(corners_center(c).y) - mean_y(c)) <= 8real
            * two(b),
{
    lemma_mean_error(c[0].x, c[1].x, c[2].x, c[3].x, b);
    lemma_mean_error(c[0].y, c[1].y, c[2].y, c[3].y, b);
}

/// The way of a caret points from the mean of its current corners to that of the target, up to
/// rounding: with numbers of at most `2^b` it is off by at most `2^(b - 48)`.
pub proof fn lemma_movement_error(current: &[Point; 4], target: &[Point; 4], b: int)
    requires
        corners_within(current, b),
        corners_within(target, b),
        0 <= b <= 100,
    ensures
        ({
            let way = movement(current, target);
            &&& is_within(way.x, b + 2) && is_within(way.y, b + 2)
            &&& counted(exact(way.x) - (mean_x(target) - mean_x(current))) <= 19real * two(b)
            &&& counted(exact(way.y) - (mean_y(target) - mean_y(current))) <= 19real * two(b)
            &&& absolute(mean_x(target) - mean_x(current)) <= 2real * two(b)
            &&& absolute(mean_y(target) - mean_y(current)) <= 2real * two(b)
        }),
{
    let (c, g) = (current, target);
    lemma_mean_error(c[0].x, c[1].x, c[2].x, c[3].x, b);
    lemma_mean_error(c[0].y, c[1].y, c[2].y, c[3].y, b);
    lemma_mean_error(g[0].x, g[1].x, g[2].x, g[3].x, b);
    lemma_mean_error(g[0].y, g[1].y, g[2].y, g[3].y, b);
    let (to, from) = (corners_center(g), corners_center(c));
    lemma_part_of_way(to.x, from.x, mean_x(g), mean_x(c), b);
    lemma_part_of_way(to.y, from.y, mean_y(g), mean_y(c), b);
}

/// The part of a way that lies in one direction.
proof fn lemma_part_of_way(to: Double, from: Double, there: real, here: real, b: int)
    requires
        is_within(to, b + 1),
        is_within(from, b + 1),
        absolute(there) <= two(b),
        absolute(here) <= two(b),
        counted(exact(to) - there) <= 8real * two(b),
        counted(exact(from) - here) <= 8real * two(b),
        0 <= b <= 100,
    ensures
        is_within(to.sub(from), b + 2),
        counted(exact(to.sub(from)) - (there - here)) <= 19real * two(b),
        absolute(there - here) <= 2real * two(b),
{
    lemma_sum_within(to, from, b + 1);
    lemma_difference_relative(to, from);
    lemma_two_order(0, b);
}

/// A part of the way, divided by its length and multiplied by it again.
proof fn lemma_direction_error(way: Double, g: real, distance: Double, b: int)
    requires
        is_within(way, b + 2),
        counted(exact(way) - g) <= 19real * two(b),
        absolute(g) <= 2real * two(b),
        distance.is_finite(),
        50real * exact(distance) > 1real - 1real / 1000000real,
        exact(distance) <= 8real * two(b),
        !distance.lt(Double::from_bits(POSITION_EPSILON)),
        0 <= b <= 100,
    ensures
        is_within(way.div(distance), b + 8),
        counted(exact(way.div(distance)) * exact(distance) - g) <= 23real * two(b),
{
    let big = 9007199254740992real;
    let (x, q) = (exact(way), exact(distance));
    let u = exact(way.div(distance));
    lemma_grain();
    lemma_two(0);
    lemma_two_order(0, b);
    lemma_direction_within(way, distance, b + 2);
    lemma_sign_of_exact(distance);
    lemma_quotient_relative(way, distance);
    let r = x / q;
    assert(r * q == x && absolute(r) * q == absolute(x)) by (nonlinear_arith)
        requires
            r == x / q,
            q > 0real,
    ;
    lemma_scaled_error(big * u, big * r, q, absolute(r) + grain(), q);
    lemma_regroups(big, u, q);
    lemma_regroups(big, r, q);
    lemma_distributes(absolute(r), grain(), q);
    lemma_ordered(q, 8real * two(b), grain());
    lemma_ordered(1000real * grain(), 1real, two(b));
    lemma_regroups(grain(), 8real * two(b), 1real);
    lemma_regroups(8real, two(b), grain());
    lemma_regroups(two(b), 1000real, grain());
    lemma_regroups(1000real, two(b), grain());
    assert(grain() * q <= two(b));
    assert(counted(u * q - x) <= absolute(x) + two(b));
    assert(absolute(x) <= 3real * two(b));
}

/// How far a corner is from the centre, in one direction.
proof fn lemma_offset_error(corner: Double, center: Double, mean: real, b: int)
    requires
        is_within(corner, b),
        is_within(center, b + 1),
        counted(exact(center) - mean) <= 8real * two(b),
        absolute(mean) <= two(b),
        0 <= b <= 100,
    ensures
        is_within(corner.sub(center), b + 2),
        counted(exact(corner.sub(center)) - (exact(corner) - mean)) <= 12real * two(b),
        absolute(exact(corner) - mean) <= 2real * two(b),
{
    lemma_exact_within(corner, b);
    lemma_within(corner, b, b + 1);
    lemma_sum_within(corner, center, b + 1);
    lemma_difference_relative(corner, center);
    lemma_two_order(0, b);
}

/// The part of a projection that lies in one direction.
proof fn lemma_part_of_projection(x: Double, y: Double, a: real, g: real, q: real, b: int)
    requires
        is_within(x, b + 2),
        is_within(y, b + 8),
        counted(exact(x) - a) <= 12real * two(b),
        absolute(a) <= 2real * two(b),
        counted(exact(y) * q - g) <= 23real * two(b),
        absolute(g) <= 2real * two(b),
        0real < q <= 8real * two(b),
        0 <= b <= 100,
    ensures
        is_within(x.mul(y), 2 * b + 10),
        counted(exact(x.mul(y)) * q - a * g) <= 90real * (two(b) * two(b)),
        absolute(a * g) <= 4real * (two(b) * two(b)),
{
    let big = 9007199254740992real;
    let n = two(b);
    let nn = n * n;
    let (c, d) = (exact(x), exact(y));
    let z = d * q;
    let m = exact(x.mul(y));
    lemma_grain();
    lemma_two(0);
    lemma_two_order(0, b);
    lemma_product_within(x, y, b + 2, b + 8);
    lemma_product_relative(x, y);
    lemma_ordered(1real, n, n);
    assert(absolute(c) <= 3real * n && absolute(z) <= 3real * n);
    // The exact product of the rounded numbers.
    lemma_scaled_error(big * c, big * a, z, 12real * n, 3real * n);
    lemma_regroups(big, c, z);
    lemma_regroups(big, a, z);
    lemma_regroups(12real, n, 3real * n);
    lemma_regroups(n, 3real, n);
    lemma_regroups(3real, n, n);
    assert((12real * n) * (3real * n) == 36real * nn);
    assert(counted(c * z - a * z) <= 36real * nn);
    lemma_scaled_error(big * z, big * g, a, 23real * n, 2real * n);
    lemma_regroups(big, z, a);
    lemma_regroups(big, g, a);
    lemma_regroups(z, a, 1real);
    lemma_regroups(g, a, 1real);
    lemma_regroups(23real, n, 2real * n);
    lemma_regroups(n, 2real, n);
    lemma_regroups(2real, n, n);
    assert((23real * n) * (2real * n) == 46real * nn);
    assert(counted(a * z - a * g) <= 46real * nn);
    // The rounding of the product.
    lemma_bounded(a, g, 2real * n, 2real * n);
    assert((2real * n) * (2real * n) == 4real * nn) by {
        lemma_regroups(2real, n, 2real * n);
    }
    lemma_bounded(c, z, absolute(c), absolute(z));
    assert(absolute(c * z) <= 5real * nn);
    let e = c * d;
    lemma_scaled_error(big * m, big * e, q, absolute(e) + grain(), q);
    lemma_regroups(big, m, q);
    lemma_regroups(big, e, q);
    lemma_distributes(absolute(e), grain(), q);
    lemma_regroups(c, d, q);
    assert(absolute(e) * q == absolute(e * q)) by {
        lemma_keeps_sign(e, q);
        lemma_distributes(0real, e, q);
    }
    lemma_ordered(q, 8real * n, grain());
    lemma_ordered(1000real * grain(), 1real, n);
    lemma_regroups(grain(), 8real * n, 1real);
    lemma_regroups(8real, n, grain());
    lemma_regroups(n, 1000real, grain());
    lemma_regroups(1000real, n, grain());
    assert(grain() * q <= nn);
    assert(counted(m * q - c * z) <= 6real * nn);
}

/// The projection of a corner, times the length of the way.
proof fn lemma_projection_error(
    current: &[Point; 4],
    target: &[Point; 4],
    distance: Double,
    i: int,
    b: int,
)
    requires
        corners_within(current, b),
        corners_within(target, b),
        0 <= b <= 100,
        0 <= i < 4,
        distance.is_finite(),
        50real * exact(distance) > 1real - 1real / 1000000real,
        exact(distance) <= 8real * two(b),
        !distance.lt(Double::from_bits(POSITION_EPSILON)),
    ensures
        ({
            let p = projection(
                target[i],
                corners_center(target),
                direction_of(movement(current, target), distance),
            );
            &&& p.is_finite()
            &&& counted(exact(p) * exact(distance) - lead(current, target, i)) <= 190real * (two(b)
                * two(b))
        }),
{
    let big = 9007199254740992real;
    let (n, q) = (two(b), exact(distance));
    let nn = n * n;
    let way = movement(current, target);
    let center = corners_center(target);
    let u = direction_of(way, distance);
    let (gx, gy) = (mean_x(target) - mean_x(current), mean_y(target) - mean_y(current));
    let g = target;
    let c = g[i];
    lemma_movement_error(current, target, b);
    lemma_direction_error(way.x, gx, distance, b);
    lemma_direction_error(way.y, gy, distance, b);
    lemma_mean_error(g[0].x, g[1].x, g[2].x, g[3].x, b);
    lemma_mean_error(g[0].y, g[1].y, g[2].y, g[3].y, b);
    lemma_offset_error(c.x, center.x, mean_x(target), b);
    lemma_offset_error(c.y, center.y, mean_y(target), b);
    let (x, y) = (c.x.sub(center.x), c.y.sub(center.y));
    let (ax, ay) = (exact(c.x) - mean_x(target), exact(c.y) - mean_y(target));
    lemma_part_of_projection(x, u.x, ax, gx, q, b);
    lemma_part_of_projection(y, u.y, ay, gy, q, b);
    let (l, r) = (x.mul(u.x), y.mul(u.y));
    lemma_sum_within(l, r, 2 * b + 10);
    lemma_sum_relative(l, r);
    let p = exact(l.add(r));
    let s = exact(l) + exact(r);
    lemma_scaled_error(big * p, big * s, q, absolute(s), q);
    lemma_regroups(big, p, q);
    lemma_regroups(big, s, q);
    lemma_distributes(exact(l), exact(r), q);
    assert(absolute(s) * q == absolute(s * q)) by {
        lemma_keeps_sign(s, q);
        lemma_distributes(0real, s, q);
    }
    lemma_two_order(0, b);
    lemma_ordered(0real, n, n);
    assert(absolute(s * q) <= 9real * nn);
}

/// The larger number.
proof fn lemma_exact_max(a: Double, b: Double)
    requires
        a.is_finite(),
        b.is_finite(),
    ensures
        a.max(b).is_finite(),
        exact(a.max(b)) == larger(exact(a), exact(b)),
{
    lemma_order_of_exact(a, b);
}

/// What is nearly the same stays so when the larger of two numbers is taken.
proof fn lemma_larger_error(a: real, b: real, c: real, d: real, e: real)
    requires
        counted(a - c) <= e,
        counted(b - d) <= e,
    ensures
        counted(larger(a, b) - larger(c, d)) <= e,
{
}

/// Scaling keeps the order.
proof fn lemma_larger_scaled(a: real, b: real, q: real)
    requires
        q > 0real,
    ensures
        larger(a, b) * q == larger(a * q, b * q),
{
    lemma_ordered(a, a, q);
    if a < b {
        lemma_ordered(a, b, q);
    } else {
        lemma_ordered(b, a, q);
    }
    lemma_regroups(a, q, 1real);
    lemma_regroups(b, q, 1real);
}

/// The magnitude of a projection, times the length of the way.
proof fn lemma_magnitude_error(p: Double, s: real, q: real, e: real)
    requires
        p.is_finite(),
        q > 0real,
        counted(exact(p) * q - s) <= e,
    ensures
        p.abs().is_finite(),
        counted(exact(p.abs()) * q - absolute(s)) <= e,
        exact(p.abs()) >= 0real,
{
    lemma_exact_absolute(p);
    lemma_keeps_sign(exact(p), q);
    lemma_distributes(0real, exact(p), q);
}

/// The largest projection, times the length of the way.
proof fn lemma_largest_error(
    current: &[Point; 4],
    target: &[Point; 4],
    distance: Double,
    b: int,
)
    requires
        corners_within(current, b),
        corners_within(target, b),
        0 <= b <= 100,
        distance.is_finite(),
        50real * exact(distance) > 1real - 1real / 1000000real,
        exact(distance) <= 8real * two(b),
        !distance.lt(Double::from_bits(POSITION_EPSILON)),
    ensures
        ({
            let m = max_projection(target, direction_of(movement(current, target), distance));
            let q = exact(distance);
            &&& m.is_finite()
            &&& counted(exact(m) * q - largest_lead(current, target, q)) <= 190real * (two(b)
                * two(b))
        }),
{
    let q = exact(distance);
    let e = 190real * (two(b) * two(b));
    let center = corners_center(target);
    let u = direction_of(movement(current, target), distance);
    let (p0, p1, p2, p3) = (
        projection(target[0], center, u),
        projection(target[1], center, u),
        projection(target[2], center, u),
        projection(target[3], center, u),
    );
    let (zero, eps) = (Double::from_bits(ZERO), Double::from_bits(EPS));
    lemma_projection_error(current, target, distance, 0, b);
    lemma_projection_error(current, target, distance, 1, b);
    lemma_projection_error(current, target, distance, 2, b);
    lemma_projection_error(current, target, distance, 3, b);
    lemma_magnitude_error(p0, lead(current, target, 0), q, e);
    lemma_magnitude_error(p1, lead(current, target, 1), q, e);
    lemma_magnitude_error(p2, lead(current, target, 2), q, e);
    lemma_magnitude_error(p3, lead(current, target, 3), q, e);
    lemma_pattern_value(zero, 0, 0);
    assert(0 * pow2(0) == 0 && 0 * pow2(1074) == 0);
    lemma_whole_exact(zero, 0);
    lemma_eps_value();
    let m0 = zero.max(p0.abs());
    let m1 = m0.max(p1.abs());
    let m2 = m1.max(p2.abs());
    let m3 = m2.max(p3.abs());
    lemma_exact_max(zero, p0.abs());
    lemma_exact_max(m0, p1.abs());
    lemma_exact_max(m1, p2.abs());
    lemma_exact_max(m2, p3.abs());
    lemma_exact_max(m3, eps);
    assert(exact(m0) == exact(p0.abs()));
    lemma_larger_scaled(exact(m0), exact(p1.abs()), q);
    lemma_larger_scaled(exact(m1), exact(p2.abs()), q);
    lemma_larger_scaled(exact(m2), exact(p3.abs()), q);
    lemma_larger_scaled(exact(m3), exact(eps), q);
    let (s0, s1, s2, s3) = (
        absolute(lead(current, target, 0)),
        absolute(lead(current, target, 1)),
        absolute(lead(current, target, 2)),
        absolute(lead(current, target, 3)),
    );
    lemma_larger_error(exact(m0) * q, exact(p1.abs()) * q, s0, s1, e);
    let t1 = larger(s0, s1);
    lemma_larger_error(exact(m1) * q, exact(p2.abs()) * q, t1, s2, e);
    let t2 = larger(t1, s2);
    lemma_larger_error(exact(m2) * q, exact(p3.abs()) * q, t2, s3, e);
    let t3 = larger(t2, s3);
    lemma_two_order(0, b);
    lemma_ordered(0real, two(b), two(b));
    lemma_larger_error(exact(m3) * q, exact(eps) * q, t3, exact(eps) * q, e);
}

/// The arithmetic of a frequency.
proof fn lemma_frequency_arithmetic(
    o: real,
    r: real,
    p: real,
    m: real,
    q: real,
    s: real,
    most: real,
    nn: real,
)
    requires
        nn >= 1real,
        q > 0real,
        m >= 0real,
        absolute(r) <= 1real,
        counted(r * m - p) <= 2real * m,
        counted(p * q - s) <= 190real * nn,
        counted(m * q - most) <= 190real * nn,
        counted(o - (26real + 6real * r)) <= 40real,
        most >= 0real,
    ensures
        counted((o - 26real) * most - 6real * s) <= 3000real * nn + 60real * most,
{
    let big = 9007199254740992real;
    // How far the fraction is from the exact one.
    lemma_scaled_error(big * (r * m), big * p, q, 2real * m, q);
    lemma_regroups(big, r * m, q);
    lemma_regroups(big, p, q);
    lemma_regroups(2real, m, q);
    lemma_regroups(r, m, q);
    assert(counted(r * (m * q) - p * q) <= 2real * (m * q));
    lemma_scaled_error(big * (m * q), big * most, r, 190real * nn, 1real);
    lemma_regroups(big, m * q, r);
    lemma_regroups(big, most, r);
    lemma_regroups(m * q, r, 1real);
    lemma_regroups(most, r, 1real);
    assert(counted(r * (m * q) - r * most) <= 190real * nn);
    assert(counted(r * most - s) <= 381real * nn + 3real * most);
    // And the frequency.
    let f = o - 26real;
    let six = 6real * r;
    lemma_scaled_error(big * f, big * six, most, 40real, most);
    lemma_regroups(big, f, most);
    lemma_regroups(big, six, most);
    lemma_regroups(6real, r, most);
    assert(counted(f * most - 6real * (r * most)) <= 40real * most);
}

/// Which corners lead, in exact values: the frequency of each corner is 26, and 6 times its lead as
/// a part of the largest one more, up to rounding. So a corner that lies before the centre of the
/// caret, seen along its way, is faster than 26, and one that lies behind is slower.
pub proof fn lemma_frequencies_follow_the_lead(
    current: &[Point; 4],
    target: &[Point; 4],
    distance: Double,
    i: int,
    b: int,
)
    requires
        corners_within(current, b),
        corners_within(target, b),
        0 <= b <= 100,
        0 <= i < 4,
        distance.is_finite(),
        exact(distance) >= exact(Double::from_bits(POSITION_EPSILON)),
        exact(distance) <= 8real * two(b),
    ensures
        ({
            let o = corner_frequencies(current, target, distance)[i];
            let most = largest_lead(current, target, exact(distance));
            &&& o.is_finite()
            &&& counted((exact(o) - 26real) * most - 6real * lead(current, target, i)) <= 3000real
                * (two(b) * two(b)) + 60real * most
        }),
{
    let q = exact(distance);
    let near = Double::from_bits(POSITION_EPSILON);
    lemma_near_limit();
    lemma_order_of_exact(distance, near);
    lemma_projection_error(current, target, distance, i, b);
    lemma_largest_error(current, target, distance, b);
    let u = direction_of(movement(current, target), distance);
    let p = projection(target[i], corners_center(target), u);
    let m = max_projection(target, u);
    assert forall|k: int| 0 <= k < 4 implies (#[trigger] projection(
        target[k],
        corners_center(target),
        u,
    )).is_finite() by {
        lemma_projection_error(current, target, distance, k, b);
    }
    lemma_max_projection(target, u);
    lemma_fraction(p, m);
    let ratio = p.div(m);
    lemma_fraction_exact(p, m);
    lemma_exact_within(ratio, 0);
    lemma_two(0);
    lemma_two_order(0, b);
    lemma_ordered(1real, two(b), two(b));
    lemma_frequency_exact(ratio);
    lemma_sign_of_exact(m);
    let most = largest_lead(current, target, q);
    assert(most >= 0real);
    assert(i == 0 || i == 1 || i == 2 || i == 3);
    let o = corner_frequencies(current, target, distance)[i];
    assert(o == frequency(ratio));
    lemma_frequency_arithmetic(
        exact(o),
        exact(ratio),
        exact(p),
        exact(m),
        q,
        lead(current, target, i),
        most,
        two(b) * two(b),
    );
}

/// A quotient of at most one, in exact values.
proof fn lemma_fraction_exact(p: Double, m: Double)
    requires
        p.is_finite(),
        m.is_finite(),
        m.value() > 0,
        magnitude_of(p.value()) <= m.value(),
    ensures
        counted(exact(p.div(m)) * exact(m) - exact(p)) <= 2real * exact(m),
{
    let w = pow2(1074);
    lemma_pow2_pos(1074);
    lemma_fraction(p, m);
    let r = p.div(m).value();
    lemma_real_product(r, m.value());
    lemma_real_product(p.value(), w as int);
    lemma_real_product(m.value(), w as int);
    let (a, c, d, z) = (r as real, p.value() as real, m.value() as real, w as real);
    let e = a * d - c * z;
    assert((r * m.value() - p.value() * w) as real == e);
    assert(-(2real * (d * z)) <= 9007199254740992real * e <= 2real * (d * z));
    assert((a / z) * (d / z) - c / z == e / (z * z)) by (nonlinear_arith)
        requires
            e == a * d - c * z,
            z > 0real,
    ;
    assert(-(2real * (d / z)) <= 9007199254740992real * (e / (z * z)) <= 2real * (d / z))
        by (nonlinear_arith)
        requires
            -(2real * (d * z)) <= 9007199254740992real * e <= 2real * (d * z),
            z > 0real,
    ;
}

/// The frequency for a fraction, in exact values.
proof fn lemma_frequency_exact(a: Double)
    requires
        is_within(a, 0),
    ensures
        frequency(a).is_finite(),
        counted(exact(frequency(a)) - (26real + 6real * exact(a))) <= 40real,
{
    let w = pow2(1074);
    lemma_pow2_pos(1074);
    lemma_frequency_error(a);
    let (f, v) = (frequency(a).value(), a.value());
    let big: int = 9007199254740992;
    assert(-(40 * w) <= big * (f - (26 * w + 6 * v)) <= 40 * w);
    let (x, y, z) = (f as real, v as real, w as real);
    assert(-(40real * z) <= 9007199254740992real * (x - (26real * z + 6real * y)) <= 40real * z);
    assert(-40real <= 9007199254740992real * (x / z - (26real + 6real * (y / z))) <= 40real)
        by (nonlinear_arith)
        requires
            -(40real * z) <= 9007199254740992real * (x - (26real * z + 6real * y)) <= 40real * z,
            z > 0real,
    ;
}

/// Without a way to go, every corner has the frequency 26.
pub proof fn lemma_no_way_no_lead(
    current: &[Point; 4],
    target: &[Point; 4],
    distance: Double,
    i: int,
)
    requires
        distance.is_finite(),
        exact(distance) < exact(Double::from_bits(POSITION_EPSILON)),
        0 <= i < 4,
    ensures
        corner_frequencies(current, target, distance)[i].is_finite(),
        exact(corner_frequencies(current, target, distance)[i]) == 26real,
{
    lemma_near_limit();
    lemma_order_of_exact(distance, Double::from_bits(POSITION_EPSILON));
    lemma_frequency_constants();
    lemma_whole_exact(Double::from_bits(SPRING_OMEGA), 26);
    assert(i == 0 || i == 1 || i == 2 || i == 3);
}

/// The lead of the corners of a rectangle of whole pixels that goes from one place to another: half
/// of its sides, each with the sign of its corner, times the way in their direction.
pub proof fn lemma_lead_of_rectangle(from: Rect, to: Rect)
    requires
        from.w == to.w,
        from.h == to.h,
    ensures
        ({
            let c = rect_corners(rect_i32_to_f64(from));
            let g = rect_corners(rect_i32_to_f64(to));
            let a = (to.w * (to.x - from.x)) as real / 2real;
            let b = (to.h * (to.y - from.y)) as real / 2real;
            &&& lead(&c, &g, 0) == -a - b
            &&& lead(&c, &g, 1) == a - b
            &&& lead(&c, &g, 2) == a + b
            &&& lead(&c, &g, 3) == b - a
        }),
{
    let c = rect_corners(rect_i32_to_f64(from));
    let g = rect_corners(rect_i32_to_f64(to));
    lemma_exact_corners(from);
    lemma_exact_corners(to);
    let (w, h) = (to.w as real, to.h as real);
    let (mx, my) = (to.x as real - from.x as real, to.y as real - from.y as real);
    lemma_real_product(to.w as int, to.x - from.x);
    lemma_real_product(to.h as int, to.y - from.y);
    assert((to.x - from.x) as real == mx && (to.y - from.y) as real == my);
    assert(mean_x(&g) == to.x as real + w / 2real && mean_y(&g) == to.y as real + h / 2real);
    assert(mean_x(&c) == from.x as real + w / 2real && mean_y(&c) == from.y as real + h / 2real);
    assert((w / 2real) * mx == (w * mx) / 2real && (-(w / 2real)) * mx == -((w * mx) / 2real))
        by (nonlinear_arith);
    assert((h / 2real) * my == (h * my) / 2real && (-(h / 2real)) * my == -((h * my) / 2real))
        by (nonlinear_arith);
}

/// The corners of a rectangle of whole pixels, in exact values: clockwise, from the one at its
/// location.
pub proof fn lemma_exact_corners(r: Rect)
    ensures
        ({
            let c = rect_corners(rect_i32_to_f64(r));
            let (x, y, w, h) = (r.x as real, r.y as real, r.w as real, r.h as real);
            &&& exact(c[0].x) == x && exact(c[0].y) == y
            &&& exact(c[1].x) == x + w && exact(c[1].y) == y
            &&& exact(c[2].x) == x + w && exact(c[2].y) == y + h
            &&& exact(c[3].x) == x && exact(c[3].y) == y + h
            &&& forall|i: int|
                #![trigger c[i]]
                0 <= i < 4 ==> c[i].x.is_finite() && c[i].y.is_finite()
        }),
{
    let c = rect_corners(rect_i32_to_f64(r));
    lemma_corners_are_whole(r);
    lemma_whole_exact(c[0].x, r.x as int);
    lemma_whole_exact(c[0].y, r.y as int);
    lemma_whole_exact(c[1].x, r.x + r.w);
    lemma_whole_exact(c[1].y, r.y as int);
    lemma_whole_exact(c[2].x, r.x + r.w);
    lemma_whole_exact(c[2].y, r.y + r.h);
    lemma_whole_exact(c[3].x, r.x as int);
    lemma_whole_exact(c[3].y, r.y + r.h);
}

/// A corner with the largest lead has the highest frequency, and one that is as far behind the
/// lowest one.
proof fn lemma_extreme_frequency(o: real, most: real, s: real)
    requires
        2real * most >= 1real,
        s == most || s == -most,
        counted((o - 26real) * most - 6real * s) <= 3000real * 4294967296real + 60real * most,
    ensures
        s > 0real ==> 100real * absolute(o - 32real) <= 1real,
        s < 0real ==> 100real * absolute(o - 20real) <= 1real,
{
    let k = if s > 0real {
        o - 32real
    } else {
        o - 20real
    };
    lemma_distributes(o - 26real, 6real, most);
    let z = k * most;
    assert(absolute(z) <= 2real / 1000real + most / 1000real);
    assert(100real * k <= 1real) by (nonlinear_arith)
        requires
            k * most <= 2real / 1000real + most / 1000real,
            2real * most >= 1real,
    ;
    assert(100real * k >= -1real) by (nonlinear_arith)
        requires
            k * most >= -(2real / 1000real + most / 1000real),
            2real * most >= 1real,
    ;
}

/// A caret of whole pixels that keeps its size and goes across or down is stretched along its way:
/// the two corners in front have the highest frequency, 32, and the two behind the lowest one, 20,
/// within a hundredth.
pub proof fn lemma_front_corners_lead(from: Rect, to: Rect, distance: Double)
    requires
        from.w == to.w,
        from.h == to.h,
        to.w > 0,
        to.h > 0,
        corners_within(&rect_corners(rect_i32_to_f64(from)), 16),
        corners_within(&rect_corners(rect_i32_to_f64(to)), 16),
        distance.is_finite(),
        exact(distance) >= exact(Double::from_bits(POSITION_EPSILON)),
        exact(distance) <= 524288real,
    ensures
        ({
            let o = corner_frequencies(
                &rect_corners(rect_i32_to_f64(from)),
                &rect_corners(rect_i32_to_f64(to)),
                distance,
            );
            let fast = |i: int| 100real * absolute(exact(o[i]) - 32real) <= 1real;
            let slow = |i: int| 100real * absolute(exact(o[i]) - 20real) <= 1real;
            &&& to.y == from.y && to.x > from.x ==> fast(1) && fast(2) && slow(0) && slow(3)
            &&& to.y == from.y && to.x < from.x ==> fast(0) && fast(3) && slow(1) && slow(2)
            &&& to.x == from.x && to.y > from.y ==> fast(2) && fast(3) && slow(0) && slow(1)
            &&& to.x == from.x && to.y < from.y ==> fast(0) && fast(1) && slow(2) && slow(3)
        }),
{
    let c = rect_corners(rect_i32_to_f64(from));
    let g = rect_corners(rect_i32_to_f64(to));
    let q = exact(distance);
    lemma_two(0);
    lemma_scale(0);
    lemma_scale(10);
    assert(two(16) == 65536real);
    lemma_lead_of_rectangle(from, to);
    lemma_frequencies_follow_the_lead(&c, &g, distance, 0, 16);
    lemma_frequencies_follow_the_lead(&c, &g, distance, 1, 16);
    lemma_frequencies_follow_the_lead(&c, &g, distance, 2, 16);
    lemma_frequencies_follow_the_lead(&c, &g, distance, 3, 16);
    let o = corner_frequencies(&c, &g, distance);
    let (m, n) = (to.w * (to.x - from.x), to.h * (to.y - from.y));
    lemma_sign_of_side(to.w as int, to.x - from.x);
    lemma_sign_of_side(to.h as int, to.y - from.y);
    let (a, b) = (m as real / 2real, n as real / 2real);
    lemma_near_limit();
    lemma_small_share(q);
    let most = largest_lead(&c, &g, q);
    if to.y == from.y && to.x != from.x || to.x == from.x && to.y != from.y {
        assert(most == absolute(a) + absolute(b));
        lemma_extreme_frequency(exact(o[0]), most, -a - b);
        lemma_extreme_frequency(exact(o[1]), most, a - b);
        lemma_extreme_frequency(exact(o[2]), most, a + b);
        lemma_extreme_frequency(exact(o[3]), most, b - a);
    }
}

proof fn lemma_sign_of_side(w: int, d: int)
    requires
        w > 0,
    ensures
        d > 0 ==> w * d >= 1,
        d < 0 ==> w * d <= -1,
        d == 0 ==> w * d == 0,
{
    assert(d > 0 ==> w * d >= 1) by (nonlinear_arith)
        requires
            w > 0,
    ;
    assert(d < 0 ==> w * d <= -1) by (nonlinear_arith)
        requires
            w > 0,
    ;
}

/// A billionth of a way that is not too long is less than half a pixel.
proof fn lemma_small_share(q: real)
    requires
        0real <= q <= 524288real,
    ensures
        0real <= exact(Double::from_bits(EPS)) * q,
        2real * (exact(Double::from_bits(EPS)) * q) <= 1real,
{
    let e = exact(Double::from_bits(EPS));
    lemma_eps_value();
    lemma_sign_of_exact(Double::from_bits(EPS));
    lemma_pow2_pos(1074);
    lemma_two(0);
    lemma_scale(-10);
    lemma_scale(-20);
    lemma_scale(-30);
    let (a, b, w) = (
        Double::from_bits(EPS).value() as real,
        pow2(1045) as real,
        pow2(1074) as real,
    );
    assert(a / w < b / w) by (nonlinear_arith)
        requires
            a < b,
            w > 0real,
    ;
    assert(e < two(-29));
    lemma_ordered(q, 524288real, e);
    lemma_keeps_sign(e, q);
}

} // verus!
