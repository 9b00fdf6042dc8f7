//! Which pixels a polygon covers: those that lie in it, up to rounding.
use crate::accuracy::{
    absolute, exact, is_within, lemma_bounded, lemma_distributes, lemma_exact_within,
    lemma_pow2_order, lemma_product_within, lemma_real_product, lemma_regroups,
    lemma_rounded_within, lemma_scaled_error, lemma_sum_within, lemma_two, lemma_two_order,
    lemma_within, lemma_within_exact, two,
};
use crate::approx::{
    counted, grain, is_near, lemma_difference_relative, lemma_grain, lemma_near_product,
    lemma_quotient_relative, lemma_sum_relative,
};
use crate::double::Double;
use crate::exact::{
    lemma_order_of_values, lemma_rank_of_quotient, lemma_rounding_to_i32_monotone, magnitude_of,
};
use crate::geometry::{bounds, lemma_bounds_are_tight, Point, EPS};
use crate::motion::{lemma_scale, lemma_sign_of_exact};
use crate::raster::{
    clip, crossed_at, crosses, crossing, crossings, diagonals_meet, edge, ends_of, has_heights,
    is_crossed, lemma_at_most_two, lemma_ends_of_two, lemma_eps_value, lemma_scan_line,
    polygon_fits, reached, row_ends, row_fits, row_span, scan_line, span_of, NAN,
};
use vstd::arithmetic::div_mod::{lemma_fundamental_div_mod, lemma_fundamental_div_mod_converse};
use vstd::arithmetic::power2::{lemma_pow2_pos, lemma_pow2_unfold, pow2};
use vstd::prelude::*;

verus! {

/// Where the edge from `lo` to `hi` is at the height `y`, exactly.
pub open spec fn exact_crossing(lo: Point, hi: Point, y: real) -> real {
    exact(lo.x) + ((y - exact(lo.y)) / (exact(hi.y) - exact(lo.y))) * (exact(hi.x) - exact(lo.x))
}

/// A point of which both coordinates are at most `2^b`.
pub open spec fn point_within(p: Point, b: int) -> bool {
    is_within(p.x, b) && is_within(p.y, b)
}

/// The order of numbers is that of their exact values.
pub proof fn lemma_order_of_exact(x: Double, y: Double)
    requires
        x.is_finite(),
        y.is_finite(),
    ensures
        x.lt(y) <==> exact(x) < exact(y),
        x.le(y) <==> exact(x) <= exact(y),
{
    lemma_order_of_values(x, y);
    lemma_pow2_pos(1074);
    let (a, b, w) = (x.value() as real, y.value() as real, pow2(1074) as real);
    if a < b {
        assert(a / w < b / w) by (nonlinear_arith)
            requires
                a < b,
                w > 0real,
        ;
    } else if a > b {
        assert(a / w > b / w) by (nonlinear_arith)
            requires
                a > b,
                w > 0real,
        ;
    }
}

/// A quotient of two numbers that are each off by at most `2^-53` of themselves.
proof fn lemma_ratio(u: real, h: real, up: real, dy: real)
    requires
        0real <= u <= h,
        h > 0real,
        dy > 0real,
        counted(up - u) <= u,
        counted(dy - h) <= h,
    ensures
        0real <= u / h <= 1real,
        absolute(up / dy) <= 2real,
        counted(up / dy - u / h) <= 4real,
{
    let r = u / h;
    assert(0real <= r <= 1real && r * h == u) by (nonlinear_arith)
        requires
            r == u / h,
            0real <= u <= h,
            h > 0real,
    ;
    let d = up - r * dy;
    lemma_scaled_error(dy, h, r, h / 9007199254740992real, 1real);
    assert(dy * r == r * dy && h * r == r * h) by (nonlinear_arith);
    assert(counted(d) <= 2real * h);
    assert(2real * dy >= h);
    let q = up / dy;
    assert(q - r == d / dy) by (nonlinear_arith)
        requires
            q == up / dy,
            d == up - r * dy,
            dy > 0real,
    ;
    let big = 9007199254740992real;
    assert(-4real * dy <= big * d <= 4real * dy);
    assert(-4real <= big * (d / dy) <= 4real) by (nonlinear_arith)
        requires
            -4real * dy <= big * d <= 4real * dy,
            dy > 0real,
    ;
}

/// How far up an edge a height is.
proof fn lemma_part_error(lo: Point, hi: Point, y: Double, b: int)
    requires
        point_within(lo, b),
        point_within(hi, b),
        y.is_finite(),
        crosses(lo, hi, y),
        0 <= b <= 500,
    ensures
        ({
            let (u, h) = (exact(y) - exact(lo.y), exact(hi.y) - exact(lo.y));
            &&& 0real <= u / h <= 1real
            &&& is_near(y.sub(lo.y).div(hi.y.sub(lo.y)), u / h, 8real, 1real, 0real)
        }),
{
    let (up, dy) = (y.sub(lo.y), hi.y.sub(lo.y));
    let (u, h) = (exact(y) - exact(lo.y), exact(hi.y) - exact(lo.y));
    lemma_order_of_exact(y, lo.y);
    lemma_order_of_exact(hi.y, y);
    assert(0real <= u < h);
    lemma_exact_within(lo.y, b);
    lemma_exact_within(hi.y, b);
    lemma_within_exact(y, b);
    lemma_sum_within(y, lo.y, b);
    lemma_sum_within(hi.y, lo.y, b);
    lemma_difference_relative(y, lo.y);
    lemma_difference_relative(hi.y, lo.y);
    lemma_sign_of_exact(dy);
    assert(exact(dy) > 0real);
    lemma_ratio(u, h, exact(up), exact(dy));
    // The quotient is finite.
    let part = up.div(dy);
    lemma_grain();
    lemma_quotient_is_finite(up, dy);
    lemma_quotient_relative(up, dy);
}

/// A quotient of at most two is finite.
proof fn lemma_quotient_is_finite(x: Double, y: Double)
    requires
        x.is_finite(),
        y.is_finite(),
        y.value() > 0,
        absolute(exact(x) / exact(y)) <= 2real,
    ensures
        x.div(y).is_finite(),
{
    let w = pow2(1074);
    lemma_pow2_pos(1074);
    lemma_pow2_unfold(1075);
    let (u, v) = (x.value(), y.value());
    let (a, c, z) = (u as real, v as real, w as real);
    assert((a / z) / (c / z) == a / c) by (nonlinear_arith)
        requires
            z > 0real,
            c > 0real,
    ;
    let q = a / c;
    assert(-2real * c <= a <= 2real * c) by (nonlinear_arith)
        requires
            q == a / c,
            -2real <= q <= 2real,
            c > 0real,
    ;
    assert(-(2 * v) <= u <= 2 * v);
    let m = magnitude_of(u);
    assert(m * w <= (2 * w) * v) by (nonlinear_arith)
        requires
            m <= 2 * v,
    ;
    assert((-u) * w == -(u * w) && m * w >= 0) by (nonlinear_arith);
    lemma_rank_of_quotient(x, y);
    lemma_rounded_within(x.div(y), u * w, v as nat, 1075);
}

/// Where an edge is at a height, up to rounding: within `2^(b - 48)` pixels of where it is exactly,
/// which is between its two ends.
pub proof fn lemma_crossing_error(lo: Point, hi: Point, y: Double, b: int)
    requires
        point_within(lo, b),
        point_within(hi, b),
        y.is_finite(),
        crosses(lo, hi, y),
        0 <= b <= 500,
    ensures
        crossing(lo, hi, y).is_finite(),
        absolute(exact_crossing(lo, hi, exact(y))) <= two(b),
        counted(exact(crossing(lo, hi, y)) - exact_crossing(lo, hi, exact(y))) <= 32real * two(b),
{
    let (u, h) = (exact(y) - exact(lo.y), exact(hi.y) - exact(lo.y));
    let r = u / h;
    let part = y.sub(lo.y).div(hi.y.sub(lo.y));
    let dx = hi.x.sub(lo.x);
    let (a, c) = (exact(lo.x), exact(hi.x));
    let x = c - a;
    lemma_part_error(lo, hi, y, b);
    lemma_exact_within(lo.x, b);
    lemma_exact_within(hi.x, b);
    lemma_scale(b);
    lemma_two_order(0, b);
    lemma_two(0);
    lemma_grain();
    lemma_sum_within(hi.x, lo.x, b);
    lemma_difference_relative(hi.x, lo.x);
    let t = two(b);
    let most = 2real * t + t / 100real;
    assert(absolute(exact(dx)) <= most);
    // The part of the way across.
    lemma_two(1);
    lemma_within_exact(part, 1);
    lemma_product_within(part, dx, 1, b + 1);
    let across = part.mul(dx);
    lemma_near_product(part, dx, r, 8real, 1real, 0real, most);
    let n = 2real * (0real * most) + 1real;
    assert(n == 1real);
    assert(grain() * n == grain()) by {
        lemma_regroups(grain(), n, 1real);
    }
    assert(counted(exact(across) - r * exact(dx)) <= 21real * t);
    lemma_scaled_error(exact(dx), x, r, absolute(x) / 9007199254740992real, 1real);
    lemma_regroups(exact(dx), r, 1real);
    lemma_regroups(x, r, 1real);
    assert(counted(exact(across) - r * x) <= 23real * t);
    // The exact crossing is between the ends.
    lemma_distributes(c, a, r);
    lemma_distributes(1real, r, a);
    lemma_regroups(c - a, r, 1real);
    lemma_regroups(a, r, 1real);
    lemma_bounded(1real - r, a, 1real - r, t);
    lemma_bounded(c, r, t, r);
    lemma_distributes(1real, r, t);
    lemma_regroups(t, r, 1real);
    assert(absolute(a + r * x) <= t);
    // The sum.
    lemma_within(across, b + 2, b + 3);
    lemma_within(lo.x, b, b + 3);
    lemma_sum_within(lo.x, across, b + 3);
    lemma_sum_relative(lo.x, across);
}

/// Rounding to an integer compares with integers.
pub proof fn lemma_rounds_at(x: Double, n: int)
    requires
        x.is_finite(),
        i32::MIN < n < i32::MAX,
    ensures
        x.ceil_i32() <= n <==> exact(x) <= n as real,
        x.floor_i32() >= n <==> exact(x) >= n as real,
{
    reveal(Double::spec_ceil_i32);
    reveal(Double::spec_floor_i32);
    let w = pow2(1074) as int;
    let v = x.value();
    lemma_pow2_pos(1074);
    lemma_quotient_at_least(v, w, n);
    lemma_quotient_at_least(-v, w, -n);
    lemma_real_product(n, w);
    let (a, c, z) = (v as real, n as real, w as real);
    assert((n * w) as real == c * z);
    assert((-n) * w == -(n * w)) by (nonlinear_arith);
    if a >= c * z {
        assert(a / z >= c) by (nonlinear_arith)
            requires
                a >= c * z,
                z > 0real,
        ;
    } else {
        assert(a / z < c) by (nonlinear_arith)
            requires
                a < c * z,
                z > 0real,
        ;
    }
    if a <= c * z {
        assert(a / z <= c) by (nonlinear_arith)
            requires
                a <= c * z,
                z > 0real,
        ;
    } else {
        assert(a / z > c) by (nonlinear_arith)
            requires
                a > c * z,
                z > 0real,
        ;
    }
}

proof fn lemma_quotient_at_least(v: int, w: int, n: int)
    requires
        w > 0,
    ensures
        v / w >= n <==> v >= n * w,
{
    let q = v / w;
    lemma_fundamental_div_mod(v, w);
    assert(w * q == q * w) by (nonlinear_arith);
    if q >= n {
        assert(q * w >= n * w) by (nonlinear_arith)
            requires
                q >= n,
                w > 0,
        ;
    } else {
        assert(q * w + w <= n * w) by (nonlinear_arith)
            requires
                q + 1 <= n,
                w > 0,
        ;
    }
}

/// A pixel that is given a color.
pub open spec fn is_colored(pts: &[Point; 4], w: i32, h: i32, px: int, py: i32) -> bool {
    row_span(pts, w, h, py) matches Some((x0, x1)) && x0 <= px < x1
}

/// A row on which an edge is crossed is reached.
pub proof fn lemma_crossed_is_reached(pts: &[Point; 4], h: i32, py: i32, i: int)
    requires
        has_heights(pts),
        0 <= py < h,
        0 <= i < 4,
        is_crossed(pts, scan_line(py), i),
    ensures
        reached(pts, h, py),
{
    let y = scan_line(py);
    let (lo, hi) = edge(pts, i);
    let b = bounds(pts);
    lemma_scan_line(py);
    lemma_bounds_are_tight(pts);
    let (p, q) = (pts[i], pts[(i + 1) % 4]);
    assert(b.min_y.le(lo.y) && hi.y.le(b.max_y));
    assert(lo.y.le(y) && y.le(hi.y)) by {
        reveal(Double::spec_le);
        reveal(Double::spec_lt);
    }
    lemma_rounding_to_i32_monotone(b.min_y, lo.y);
    lemma_rounding_to_i32_monotone(lo.y, y);
    lemma_rounding_to_i32_monotone(y, hi.y);
    lemma_rounding_to_i32_monotone(hi.y, b.max_y);
    assert(y.floor_i32() == py && y.ceil_i32() == py + 1) by {
        reveal(Double::spec_ceil_i32);
        reveal(Double::spec_floor_i32);
        let (u, w) = (pow2(1073) as int, pow2(1074) as int);
        lemma_pow2_pos(1073);
        lemma_pow2_unfold(1074);
        let v = y.value();
        assert(v == py * w + u && -v == (-(py + 1)) * w + u) by (nonlinear_arith)
            requires
                v == (2 * py + 1) * u,
                w == 2 * u,
        ;
        lemma_fundamental_div_mod_converse(v, w, py as int, u);
        lemma_fundamental_div_mod_converse(-v, w, -(py + 1), u);
    }
}

/// What is colored between two ends.
proof fn lemma_colored_between(x: Double, y: Double, w: i32, px: int, b: int)
    requires
        is_within(x, b + 1),
        is_within(y, b + 1),
        0 <= px < w,
        0 <= b <= 500,
    ensures
        ({
            let (l, r) = if exact(y) < exact(x) {
                (exact(y), exact(x))
            } else {
                (exact(x), exact(y))
            };
            let colored = span_of(ends_of(x, y), w) matches Some((x0, x1)) && x0 <= px < x1;
            let x0 = px as real;
            &&& l <= x0 && x0 + two(-29) + two(b - 50) <= r ==> colored
            &&& x0 < l || r + two(b - 50) < x0 ==> !colored
        }),
{
    let eps = Double::from_bits(EPS);
    lemma_order_of_exact(y, x);
    let (left, right) = if y.lt(x) {
        (y, x)
    } else {
        (x, y)
    };
    assert(ends_of(x, y) == Some((left, right)));
    lemma_eps_value();
    lemma_pow2_order(1045, 1074);
    lemma_within(eps, -29, b + 1);
    lemma_exact_within(eps, -29);
    lemma_sign_of_exact(eps);
    lemma_sum_within(right, eps, b + 1);
    lemma_difference_relative(right, eps);
    lemma_exact_within(right, b + 1);
    lemma_two_order(-29, b + 1);
    lemma_scale(b - 51);
    lemma_scale(b - 41);
    lemma_scale(b - 31);
    lemma_scale(b - 21);
    lemma_scale(b - 11);
    lemma_scale(b - 1);
    let edge = right.sub(eps);
    lemma_rounds_at(left, px);
    lemma_rounds_at(edge, px);
    assert(edge.floor_i32() >= px <==> px < clip(edge.floor_i32() + 1, w as int));
    assert(left.ceil_i32() <= px <==> clip(left.ceil_i32() as int, w as int) <= px);
}

/// The ends of a row of a convex polygon are where two of its edges are crossed.
proof fn lemma_ends_where_crossed(pts: &[Point; 4], h: i32, py: i32, i: int, j: int)
    requires
        has_heights(pts),
        diagonals_meet(pts),
        0 <= py < h,
        0 <= i < j < 4,
        is_crossed(pts, scan_line(py), i),
        is_crossed(pts, scan_line(py), j),
    ensures
        row_ends(pts, h, py) == ends_of(
            crossed_at(pts, scan_line(py), i),
            crossed_at(pts, scan_line(py), j),
        ),
{
    lemma_scan_line(py);
    lemma_crossed_is_reached(pts, h, py, i);
    lemma_at_most_two(pts, scan_line(py));
    lemma_ends_of_two(pts, h, py);
}

/// A polygon covers the pixels that lie in it, and no others, up to rounding. A pixel stands for
/// the point at its left end, half way down. It lies in a convex polygon if it is between the two
/// edges that are crossed at its height.
pub proof fn lemma_covers_what_lies_in_it(
    pts: &[Point; 4],
    w: i32,
    h: i32,
    px: int,
    py: i32,
    b: int,
    i: int,
    j: int,
)
    requires
        forall|k: int| #![trigger pts[k]] 0 <= k < 4 ==> point_within(pts[k], b),
        0 <= b <= 500,
        diagonals_meet(pts),
        0 <= px < w,
        0 <= py < h,
        0 <= i < j < 4,
        is_crossed(pts, scan_line(py), i),
        is_crossed(pts, scan_line(py), j),
    ensures
        ({
            let y = exact(scan_line(py));
            let first = exact_crossing(edge(pts, i).0, edge(pts, i).1, y);
            let second = exact_crossing(edge(pts, j).0, edge(pts, j).1, y);
            let (l, r) = if second < first {
                (second, first)
            } else {
                (first, second)
            };
            let slack = two(b - 47) + two(-29);
            let x = px as real;
            &&& l + slack <= x && x + slack <= r ==> is_colored(pts, w, h, px, py)
            &&& x + slack < l || r + slack < x ==> !is_colored(pts, w, h, px, py)
        }),
{
    let y = scan_line(py);
    lemma_scan_line(py);
    assert(has_heights(pts)) by {
        assert(point_within(pts[0], b) && point_within(pts[1], b));
        assert(point_within(pts[2], b) && point_within(pts[3], b));
    }
    lemma_ends_where_crossed(pts, h, py, i, j);
    let (e, f) = (edge(pts, i), edge(pts, j));
    let (p, q) = (crossed_at(pts, y, i), crossed_at(pts, y, j));
    assert(point_within(e.0, b) && point_within(e.1, b)) by {
        let (s, t) = (pts[i], pts[(i + 1) % 4]);
    }
    assert(point_within(f.0, b) && point_within(f.1, b)) by {
        let (s, t) = (pts[j], pts[(j + 1) % 4]);
    }
    lemma_crossing_error(e.0, e.1, y, b);
    lemma_crossing_error(f.0, f.1, y, b);
    lemma_small_error(p, exact_crossing(e.0, e.1, exact(y)), b);
    lemma_small_error(q, exact_crossing(f.0, f.1, exact(y)), b);
    lemma_colored_near(
        p,
        q,
        exact_crossing(e.0, e.1, exact(y)),
        exact_crossing(f.0, f.1, exact(y)),
        w,
        px,
        b,
    );
}

/// What is colored between two ends that are off by at most `2^(b - 48)`.
pub proof fn lemma_colored_near(
    x: Double,
    y: Double,
    first: real,
    second: real,
    w: i32,
    px: int,
    b: int,
)
    requires
        is_within(x, b + 1),
        is_within(y, b + 1),
        absolute(exact(x) - first) <= two(b - 48),
        absolute(exact(y) - second) <= two(b - 48),
        0 <= px < w,
        0 <= b <= 500,
    ensures
        ({
            let (l, r) = if second < first {
                (second, first)
            } else {
                (first, second)
            };
            let slack = two(b - 47) + two(-29);
            let colored = span_of(ends_of(x, y), w) matches Some((x0, x1)) && x0 <= px < x1;
            let at = px as real;
            &&& l + slack <= at && at + slack <= r ==> colored
            &&& at + slack < l || r + slack < at ==> !colored
        }),
{
    lemma_colored_between(x, y, w, px, b);
    lemma_scale(b - 50);
    lemma_two(-29);
}

/// An error that counts at most `2^(b + 5)`, in pixels.
pub proof fn lemma_small_error(x: Double, y: real, b: int)
    requires
        x.is_finite(),
        absolute(y) <= two(b),
        counted(exact(x) - y) <= 32real * two(b),
        0 <= b <= 500,
    ensures
        absolute(exact(x) - y) <= two(b - 48),
        is_within(x, b + 1),
{
    lemma_scale(b - 48);
    lemma_scale(b - 38);
    lemma_scale(b - 28);
    lemma_scale(b - 18);
    lemma_scale(b - 8);
    lemma_two(b + 1);
    lemma_within_exact(x, b + 1);
}

/// A row of a convex polygon on which fewer than two edges are crossed is transparent.
pub proof fn lemma_uncrossed_rows_are_clear(
    pts: &[Point; 4],
    w: i32,
    h: i32,
    px: int,
    py: i32,
)
    requires
        has_heights(pts),
        diagonals_meet(pts),
        forall|i: int, j: int|
            0 <= i < j < 4 ==> !(#[trigger] is_crossed(pts, scan_line(py), i)
                && #[trigger] is_crossed(pts, scan_line(py), j)),
    ensures
        !is_colored(pts, w, h, px, py),
{
    if reached(pts, h, py) {
        let y = scan_line(py);
        lemma_ends_of_two(pts, h, py);
        assert(!(is_crossed(pts, y, 0) && is_crossed(pts, y, 1)));
        assert(!(is_crossed(pts, y, 0) && is_crossed(pts, y, 2)));
        assert(!(is_crossed(pts, y, 0) && is_crossed(pts, y, 3)));
        assert(!(is_crossed(pts, y, 1) && is_crossed(pts, y, 2)));
        assert(!(is_crossed(pts, y, 1) && is_crossed(pts, y, 3)));
        assert(!(is_crossed(pts, y, 2) && is_crossed(pts, y, 3)));
    }
}

/// What the edges of a polygon are crossed at is not far away.
proof fn lemma_crossings_within(pts: &[Point; 4], y: Double, n: int, b: int)
    requires
        forall|k: int| #![trigger pts[k]] 0 <= k < 4 ==> point_within(pts[k], b),
        y.is_finite(),
        0 <= b <= 500,
        0 <= n <= 4,
    ensures
        ({
            let (first, last) = crossings(pts, y, n);
            let most = two(b) + two(b - 48);
            &&& first.is_nan() || (first.is_finite() && absolute(exact(first)) <= most)
            &&& last.is_nan() || (last.is_finite() && absolute(exact(last)) <= most)
        }),
    decreases n,
{
    assert(Double::from_bits(NAN).is_nan());
    if n > 0 {
        lemma_crossings_within(pts, y, n - 1, b);
        let (lo, hi) = edge(pts, n - 1);
        let (s, t) = (pts[n - 1], pts[n % 4]);
        assert((n - 1 + 1) % 4 == n % 4);
        if crosses(lo, hi, y) {
            lemma_crossing_error(lo, hi, y, b);
            lemma_small_error(crossing(lo, hi, y), exact_crossing(lo, hi, exact(y)), b);
        }
    }
}

/// What is left of an end that is not much more than `2^30` is within the range of pixel numbers.
proof fn lemma_right_end(right: Double)
    requires
        right.is_finite(),
        absolute(exact(right)) <= two(30) + two(-18),
    ensures
        right.sub(Double::from_bits(EPS)).floor_i32() < i32::MAX,
{
    let eps = Double::from_bits(EPS);
    let edge = right.sub(eps);
    lemma_eps_value();
    lemma_sign_of_exact(eps);
    lemma_two(0);
    lemma_scale(0);
    lemma_scale(10);
    lemma_scale(20);
    lemma_two(31);
    lemma_two_order(-29, 0);
    lemma_two_order(-18, 0);
    lemma_within_exact(right, 31);
    lemma_within(eps, -29, 31);
    lemma_sum_within(right, eps, 31);
    lemma_difference_relative(right, eps);
    lemma_exact_within(eps, -29);
    lemma_rounds_at(edge, 0x7fff_fffe);
}

/// A polygon whose coordinates are at most `2^30` is within the range of pixel numbers.
pub proof fn lemma_near_polygon_fits(pts: &[Point; 4], h: i32)
    requires
        forall|k: int| #![trigger pts[k]] 0 <= k < 4 ==> point_within(pts[k], 30),
    ensures
        polygon_fits(pts, h),
{
    assert forall|py: i32| 0 <= py < h implies #[trigger] row_fits(pts, h, py) by {
        lemma_scan_line(py);
        lemma_crossings_within(pts, scan_line(py), 4, 30);
        if let Some((left, right)) = row_ends(pts, h, py) {
            lemma_right_end(right);
        }
    }
}

} // verus!
