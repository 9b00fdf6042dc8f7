//! What is shown of a filled polygon, in exact values.
use crate::accuracy::{
    absolute, exact, is_within, lemma_at_least_exact, lemma_distributes, lemma_exact_within,
    lemma_ordered, lemma_product_within, lemma_quotient_within, lemma_regroups, lemma_sum_within,
    lemma_two, lemma_two_order, lemma_within, lemma_within_exact, two,
};
use crate::approx::{
    is_near, lemma_grain, lemma_near_both, lemma_near_difference, lemma_near_sum,
    lemma_sum_relative,
};
use crate::color::mix;
use crate::coverage::{is_colored, lemma_order_of_exact, point_within};
use crate::double::Double;
use crate::exact::lemma_power_value;
use crate::geometry::{Point, EPS, ONE, ZERO};
use crate::motion::lemma_scale;
use crate::raster::{
    lemma_gradient_of_no_length, lemma_pixel_position, pixel, row_span, scan_line, Gradient,
};
use crate::shade::{
    between, clamped, fraction, gradient_slack, lemma_channel_error, lemma_clamped,
    lemma_fraction_counts, lemma_gradient_error, lemma_power_of_eps, lemma_square, length_squared,
};
use crate::sides::{
    are_outer_sides, height_of, lemma_between_sides, lemma_billionth, lemma_middle_of_row,
    lemma_outer_sides_exist, lemma_sides_come_in_pairs, lemma_without_sides, lies_between,
    lies_outside, middle, misses, rises_once, row_slack, shown, side_at, spans,
};
use crate::single::Single;
use vstd::arithmetic::power2::{lemma_pow2_pos, pow2};
use vstd::prelude::*;

verus! {

/// The square of the length of a gradient, up to rounding.
proof fn lemma_length(grad: Gradient)
    requires
        point_within(grad.from, 100),
        point_within(grad.to, 100),
    ensures
        is_within(grad.way().x, 101),
        is_within(grad.way().y, 101),
        is_within(grad.length2(), 203),
        is_near(grad.length2(), length_squared(grad), 7real, length_squared(grad), 4real),
{
    let (a, b) = (grad.from, grad.to);
    let (gx, gy) = (exact(b.x) - exact(a.x), exact(b.y) - exact(a.y));
    let way = grad.way();
    lemma_sum_within(b.x, a.x, 100);
    lemma_sum_within(b.y, a.y, 100);
    lemma_near_difference(b.x, a.x);
    lemma_near_difference(b.y, a.y);
    lemma_product_within(way.x, way.x, 101, 101);
    lemma_product_within(way.y, way.y, 101, 101);
    lemma_sum_within(way.x.mul(way.x), way.y.mul(way.y), 202);
    lemma_near_both(way.x, way.x, gx, gx, 1real, absolute(gx), absolute(gx));
    lemma_near_both(way.y, way.y, gy, gy, 1real, absolute(gy), absolute(gy));
    lemma_square(gx);
    lemma_square(gy);
    lemma_near_sum(
        way.x.mul(way.x),
        way.y.mul(way.y),
        gx * gx,
        gy * gy,
        5real,
        gx * gx,
        gy * gy,
        1real,
        1real,
    );
}

/// A gradient changes its color just if the square of its length is more than a billionth, up to
/// rounding.
pub proof fn lemma_varies(grad: Gradient)
    requires
        point_within(grad.from, 100),
        point_within(grad.to, 100),
    ensures
        1000000000000000real * length_squared(grad) >= 1000001real ==> grad.varies(),
        1000000000000000real * length_squared(grad) <= 999999real ==> !grad.varies(),
{
    let l = length_squared(grad);
    lemma_length(grad);
    lemma_billionth();
    lemma_grain();
    lemma_order_of_exact(Double::from_bits(EPS), grad.length2());
}

/// The fraction of the way stays finite along a row.
proof fn lemma_ramp_is_finite(grad: Gradient, x0: i32, py: i32, n: nat)
    requires
        point_within(grad.from, 100),
        point_within(grad.to, 100),
        grad.varies(),
        n <= 0x8000_0000,
    ensures
        grad.ramp(x0, py, n).is_finite(),
        absolute(exact(grad.ramp(x0, py, n))) <= two(240) + n as real * two(200),
    decreases n,
{
    let way = grad.way();
    let inv = grad.inverse2();
    let one = Double::from_bits(ONE);
    lemma_length(grad);
    // The inverse of the square of the length.
    lemma_power_of_eps();
    lemma_billionth();
    lemma_order_of_exact(Double::from_bits(EPS), grad.length2());
    lemma_two(0);
    lemma_scale(-10);
    lemma_scale(-20);
    lemma_scale(-30);
    lemma_at_least_exact(grad.length2(), -30);
    lemma_power_value(one, 1074);
    lemma_pow2_pos(1074);
    lemma_quotient_within(one, grad.length2(), 0, -30);
    lemma_product_within(way.x, inv, 101, 30);
    lemma_scale(200);
    lemma_scale(210);
    lemma_scale(220);
    lemma_scale(230);
    lemma_scale(240);
    if n == 0 {
        lemma_far_middle(x0);
        lemma_far_middle(py);
        let (p, q) = (scan_line(x0), scan_line(py));
        lemma_within(p, 33, 100);
        lemma_within(q, 33, 100);
        lemma_sum_within(p, grad.from.x, 100);
        lemma_sum_within(q, grad.from.y, 100);
        let (x, y) = (p.sub(grad.from.x), q.sub(grad.from.y));
        lemma_product_within(x, way.x, 101, 101);
        lemma_product_within(y, way.y, 101, 101);
        lemma_sum_within(x.mul(way.x), y.mul(way.y), 202);
        let s = x.mul(way.x).add(y.mul(way.y));
        lemma_product_within(s, inv, 203, 30);
        lemma_exact_within(s.mul(inv), 233);
        lemma_two_order(233, 240);
        assert(0nat as real == 0real);
        assert(0real * two(200) == 0real);
    } else {
        let m = (n - 1) as nat;
        let dt = way.x.mul(inv);
        lemma_ramp_is_finite(grad, x0, py, m);
        let t = grad.ramp(x0, py, m);
        let (a, b) = (m as real, n as real);
        lemma_distributes(a, 1real, two(200));
        lemma_ordered(a, 2147483648real, two(200));
        lemma_regroups(two(200), a, 1real);
        assert(absolute(exact(t)) <= two(241));
        lemma_within_exact(t, 241);
        lemma_exact_within(dt, 131);
        lemma_within(dt, 131, 241);
        lemma_sum_within(t, dt, 241);
        lemma_sum_relative(t, dt);
        lemma_two_order(131, 188);
        lemma_scale(188);
        lemma_scale(190);
        assert(9007199254740992real * two(188) >= two(241)) by {
            lemma_scale(191);
            lemma_scale(201);
            lemma_scale(211);
            lemma_scale(221);
            lemma_scale(231);
        }
    }
}

/// The middle of a pixel is not far away.
proof fn lemma_far_middle(n: i32)
    ensures
        is_within(scan_line(n), 33),
{
    lemma_middle_of_row(n);
    lemma_two(0);
    lemma_scale(0);
    lemma_scale(10);
    lemma_scale(20);
    lemma_scale(30);
    lemma_within_exact(scan_line(n), 33);
}

/// The scale at which the color of a pixel is looked at: `2^c` is as far as the gradient and the
/// pixel may be, and `k` says how short the gradient may be.
pub open spec fn is_scale(grad: Gradient, px: int, py: int, c: int, k: real) -> bool {
    &&& 0 <= c <= 20
    &&& point_within(grad.from, c) && point_within(grad.to, c)
    &&& 0 <= px < pow2(c as nat)
    &&& 0 <= py < pow2(c as nat)
    &&& k >= 1real
    &&& (k * k) * length_squared(grad) >= 2real
    &&& 1000real * (two(c) * (two(c) * k)) <= 9007199254740992real
}

/// The byte is the color of the gradient at a pixel, in one channel: between the two colors; the
/// last one if the gradient has no length; else what the exact mixture of the two is there, up to
/// rounding.
pub open spec fn is_gradient_color(
    grad: Gradient,
    px: int,
    py: int,
    channel: int,
    byte: u8,
) -> bool {
    let (a, b) = (grad.c_start[channel], grad.c_end[channel]);
    &&& a <= byte <= b || b <= byte <= a
    &&& 1000000000000000real * length_squared(grad) <= 999999real ==> byte == b
    &&& 1000000000000000real * length_squared(grad) >= 1000001real ==> forall|c: int, k: real|
        #[trigger] is_scale(grad, px, py, c, k) ==> absolute(
            byte as real - between(a, b, clamped(fraction(grad, px, py))),
        ) <= gradient_slack(two(c), k)
}

/// What is shown of a pixel: the color of the gradient if it is colored, and nothing if not.
proof fn lemma_shown(
    pts: &[Point; 4],
    grad: &Gradient,
    w: i32,
    h: i32,
    px: int,
    py: i32,
    channel: int,
)
    requires
        point_within(grad.from, 100),
        point_within(grad.to, 100),
        0 <= px < w,
        0 <= py < h,
        0 <= channel < 4,
    ensures
        is_colored(pts, w, h, px, py) ==> is_gradient_color(
            *grad,
            px,
            py as int,
            channel,
            shown(pts, grad, w, h, px, py as int, channel),
        ),
        !is_colored(pts, w, h, px, py) ==> shown(pts, grad, w, h, px, py as int, channel) == 0,
{
    lemma_pixel_position(pts, grad, w, h, h as int, px, py, channel);
    let byte = shown(pts, grad, w, h, px, py as int, channel);
    assert(byte == pixel(pts, grad, w, h, px, py)[channel]);
    lemma_varies(*grad);
    lemma_length(*grad);
    if is_colored(pts, w, h, px, py) {
        if grad.varies() {
            let (x0, x1) = row_span(pts, w, h, py)->0;
            let n = (px - x0) as nat;
            lemma_ramp_is_finite(*grad, x0 as i32, py, n);
            let t = grad.ramp(x0 as i32, py, n);
            lemma_clamped(t, exact(t), 0real);
            let z = t.clamp(Double::from_bits(ZERO), Double::from_bits(ONE));
            let u = lemma_fraction_counts(z);
            let s = Single::from_double(z);
            let (a, b) = (grad.c_start[channel], grad.c_end[channel]);
            lemma_channel_error(a, b, s, u);
            assert(byte == mix(a, b, s));
            lemma_mixed_in_range(a, b, u, byte);
            assert forall|c: int, k: real| #[trigger]
                is_scale(*grad, px, py as int, c, k) implies absolute(
                byte as real - between(a, b, clamped(fraction(*grad, px, py as int))),
            ) <= gradient_slack(two(c), k) by {
                lemma_gradient_error(pts, grad, w, h, px, py, channel, c, k);
            }
        } else {
            lemma_gradient_of_no_length(pts, grad, w, h, px, py);
        }
    }
}

/// What is little more than a half off a number between two bytes is between them.
proof fn lemma_mixed_in_range(a: u8, b: u8, u: nat, byte: u8)
    requires
        u <= pow2(149),
        16384real * absolute(byte as real - between(a, b, u as real / pow2(149) as real))
            <= 8193real,
    ensures
        a <= byte <= b || b <= byte <= a,
{
    lemma_pow2_pos(149);
    let (x, w) = (u as real, pow2(149) as real);
    let r = x / w;
    assert(0real <= r <= 1real) by (nonlinear_arith)
        requires
            r == x / w,
            0real <= x <= w,
            w > 0real,
    ;
    let d = b as real - a as real;
    if d >= 0real {
        lemma_ordered(0real, r, d);
        lemma_ordered(r, 1real, d);
    } else {
        lemma_ordered(0real, r, -d);
        lemma_ordered(r, 1real, -d);
        assert((-d) * r == -(d * r)) by (nonlinear_arith);
    }
}

/// What is shown of a filled polygon. On a row, the pixels between the first and the last side that
/// count at the height of its middle have the color of the gradient, and those beyond both of them
/// are transparent.
pub proof fn lemma_filled(
    pts: &[Point; 4],
    grad: &Gradient,
    w: i32,
    h: i32,
    px: int,
    py: i32,
    channel: int,
    i: int,
    j: int,
    b: int,
)
    requires
        forall|k: int| #![trigger pts[k]] 0 <= k < 4 ==> point_within(pts[k], b),
        0 <= b <= 500,
        point_within(grad.from, 100),
        point_within(grad.to, 100),
        0 <= px < w,
        0 <= py < h,
        0 <= channel < 4,
        are_outer_sides(pts, middle(py as int), i, j),
    ensures
        ({
            let y = middle(py as int);
            let (l, r) = (side_at(pts, i, y), side_at(pts, j, y));
            let byte = shown(pts, grad, w, h, px, py as int, channel);
            &&& lies_between(px as real, l, r, row_slack(b)) ==> is_gradient_color(
                *grad,
                px,
                py as int,
                channel,
                byte,
            )
            &&& lies_outside(px as real, l, r, row_slack(b)) ==> byte == 0
        }),
{
    lemma_between_sides(pts, w, h, px, py, i, j, b);
    lemma_shown(pts, grad, w, h, px, py, channel);
}

/// A row of a filled polygon at whose height fewer than two sides count is transparent.
pub proof fn lemma_not_filled(
    pts: &[Point; 4],
    grad: &Gradient,
    w: i32,
    h: i32,
    px: int,
    py: i32,
    channel: int,
    i: int,
    b: int,
)
    requires
        forall|k: int| #![trigger pts[k]] 0 <= k < 4 ==> point_within(pts[k], b),
        0 <= b <= 500,
        point_within(grad.from, 100),
        point_within(grad.to, 100),
        0 <= px < w,
        0 <= py < h,
        0 <= channel < 4,
        forall|k: int| 0 <= k < 4 && k != i ==> #[trigger] misses(pts, k, middle(py as int)),
    ensures
        shown(pts, grad, w, h, px, py as int, channel) == 0,
{
    lemma_without_sides(pts, w, h, px, py, i, b);
    lemma_shown(pts, grad, w, h, px, py, channel);
}

/// Every row of a convex polygon whose middle is between the lowest and the highest vertex is
/// filled between the two sides that span it, if these are not too flat. No other side spans it.
pub proof fn lemma_rows_are_filled(
    pts: &[Point; 4],
    grad: &Gradient,
    w: i32,
    h: i32,
    py: i32,
    b: int,
)
    requires
        forall|k: int| #![trigger pts[k]] 0 <= k < 4 ==> point_within(pts[k], b),
        0 <= b <= 500,
        point_within(grad.from, 100),
        point_within(grad.to, 100),
        0 <= py < h,
        rises_once(pts),
        exists|k: int| #![trigger pts[k]] 0 <= k < 4 && exact(pts[k].y) <= middle(py as int),
        exists|k: int| #![trigger pts[k]] 0 <= k < 4 && middle(py as int) < exact(pts[k].y),
        forall|k: int|
            0 <= k < 4 && #[trigger] spans(pts, k, middle(py as int)) ==> 1000000000000000real
                * height_of(pts, k) >= 1000001real,
    ensures
        exists|i: int, j: int|
            #![trigger side_at(pts, i, middle(py as int)), side_at(pts, j, middle(py as int))]
            {
                let y = middle(py as int);
                let (l, r) = (side_at(pts, i, y), side_at(pts, j, y));
                &&& 0 <= i < j < 4
                &&& forall|k: int|
                    0 <= k < 4 ==> (#[trigger] spans(pts, k, y) <==> k == i || k == j)
                &&& forall|px: int, channel: int|
                    0 <= px < w && 0 <= channel < 4 ==> {
                        let byte = #[trigger] shown(pts, grad, w, h, px, py as int, channel);
                        &&& lies_between(px as real, l, r, row_slack(b)) ==> is_gradient_color(
                            *grad,
                            px,
                            py as int,
                            channel,
                            byte,
                        )
                        &&& lies_outside(px as real, l, r, row_slack(b)) ==> byte == 0
                    }
            },
{
    let y = middle(py as int);
    lemma_sides_come_in_pairs(pts, y);
    lemma_outer_sides_exist(pts, y);
    let (i, j) = choose|i: int, j: int| #[trigger] are_outer_sides(pts, y, i, j);
    let (l, r) = (side_at(pts, i, y), side_at(pts, j, y));
    assert(spans(pts, i, y) && spans(pts, j, y));
    assert forall|px: int, channel: int| 0 <= px < w && 0 <= channel < 4 implies {
        let byte = #[trigger] shown(pts, grad, w, h, px, py as int, channel);
        &&& lies_between(px as real, l, r, row_slack(b)) ==> is_gradient_color(
            *grad,
            px,
            py as int,
            channel,
            byte,
        )
        &&& lies_outside(px as real, l, r, row_slack(b)) ==> byte == 0
    } by {
        lemma_filled(pts, grad, w, h, px, py, channel, i, j, b);
    }
}

} // verus!
