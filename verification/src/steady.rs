//! Springs stay within bounds: a caret that is retargeted again and again, in the middle of its
//! motion, does not run away.
use crate::accuracy::{
    absolute, exact, is_within, lemma_bounded, lemma_distributes, lemma_exact_within,
    lemma_keeps_sign, lemma_ordered, lemma_product_within, lemma_regroups, lemma_sum_within,
    lemma_two, lemma_within, lemma_within_exact, two,
};
use crate::approx::{counted, grain, lemma_exact_negated, lemma_grain, lemma_product_relative};
use crate::double::Double;
use crate::exact::{
    is_zero, lemma_absolute, lemma_exact_i32, lemma_negated, lemma_order_of_values,
    lemma_pattern_value, lemma_power_value, lemma_rank_monotone, lemma_rank_of_product,
    lemma_rank_of_value, lemma_rank_scaled, lemma_signs_of_product, lemma_value_of_rank,
};
use crate::geometry::{
    corners_equal, corners_finite, corners_within, is_paced, lemma_frequencies_are_paced,
    lemma_frequency_constants, lemma_movement_is_finite, rect_corners, Point, RectF, HIGHEST_OMEGA,
    LOWEST_OMEGA, ZERO,
};
use crate::motion::{
    coefficient_size, exact_coefficient, exact_displacement, exact_velocity, lemma_scale,
    lemma_sign_of_exact, lemma_step_is_near, position_grains, position_size, velocity_grains,
    velocity_size,
};
use crate::spring::{
    coefficient, decay_exponent, decays_by, lemma_advanced, lemma_at_rest,
    lemma_corners_equal_themselves, lemma_motion_ends, lemma_retargeted, lemma_seconds,
    lemma_seconds_between, lemma_steps, lemma_still_is_not_swift, retargets, stepped_position,
    stepped_velocity, still, swift, SpringState, NANOS_PER_SEC, VELOCITY_EPSILON,
};
use vstd::arithmetic::power2::{
    lemma2_to64, lemma2_to64_rest, lemma_pow2_adds, lemma_pow2_pos, lemma_pow2_unfold, pow2,
};
use vstd::prelude::*;

verus! {

/// The new position, with everything that does not shrink taken together.
proof fn lemma_position_parts(p: real, v: real, g: real, o: real, t: real, e: real)
    ensures
        ({
            let r = t * e;
            let q = o * r;
            let z = v + 26real * p;
            g + exact_displacement(p - g, v, o, t, e) == g * (1real - (e + q)) + p * ((e + q)
                - 26real * r) + z * r
        }),
{
    let r = t * e;
    let q = o * r;
    let z = v + 26real * p;
    let f = e + q;
    let d = p - g;
    let c = exact_coefficient(d, v, o);
    lemma_distributes(d, c * t, e);
    lemma_regroups(c, t, e);
    lemma_distributes(v, o * d, r);
    lemma_regroups(o, d, r);
    lemma_regroups(d, q, 1real);
    lemma_distributes(e, q, d);
    lemma_distributes(p, g, f);
    lemma_distributes(z, 26real * p, r);
    lemma_regroups(26real, p, r);
    assert(v * r == z * r - 26real * (p * r)) by {
        assert(z - 26real * p == v);
    }
    lemma_distributes(1real, f, g);
    lemma_regroups(g, f, 1real);
    lemma_regroups(g, 1real - f, 1real);
    lemma_distributes(f, 26real * r, p);
    lemma_regroups(p, f - 26real * r, 1real);
    lemma_regroups(f, p, 1real);
    lemma_regroups(26real, r, p);
    lemma_regroups(r, p, 1real);
}

/// The new velocity, in the same way.
proof fn lemma_velocity_parts(p: real, v: real, g: real, o: real, t: real, e: real)
    ensures
        ({
            let r = t * e;
            let q = o * r;
            let s = o * q;
            let z = v + 26real * p;
            let u = exact_velocity(p - g, v, o, t, e);
            u == z * e - 26real * (p * e) - z * q + 26real * (p * q) - p * s + g * s
        }),
{
    let r = t * e;
    let q = o * r;
    let s = o * q;
    let z = v + 26real * p;
    let d = p - g;
    let c = exact_coefficient(d, v, o);
    let b = o * c;
    lemma_distributes(v, b * t, e);
    lemma_regroups(b, t, e);
    lemma_regroups(o, c, r);
    // c * r
    lemma_distributes(v, o * d, r);
    lemma_regroups(o, d, r);
    lemma_distributes(v * r, q * d, o);
    lemma_regroups(o, v, r);
    lemma_regroups(o, r, v);
    lemma_regroups(q, v, 1real);
    lemma_regroups(o, q, d);
    lemma_distributes(p, g, s);
    lemma_regroups(s, d, 1real);
    assert(o * (c * r) == v * q + (p * s - g * s));
    // v is z - 26 p.
    assert(z - 26real * p == v);
    lemma_distributes(z, 26real * p, q);
    lemma_distributes(z, 26real * p, e);
    lemma_regroups(26real, p, q);
    lemma_regroups(26real, p, e);
}

/// A square that does not exceed 36.
proof fn lemma_square(o: real, r: real)
    requires
        20real <= o <= 32real,
        r >= 0real,
    ensures
        absolute(52real * (o * r) - o * (o * r) - 676real * r) <= 36real * r,
{
    let k = (o - 26real) * (o - 26real);
    assert(0real <= k <= 36real) by (nonlinear_arith)
        requires
            k == (o - 26real) * (o - 26real),
            20real <= o <= 32real,
    ;
    let m = 52real * o - o * o - 676real;
    assert(m == -k) by (nonlinear_arith)
        requires
            k == (o - 26real) * (o - 26real),
            m == 52real * o - o * o - 676real,
    ;
    lemma_regroups(o, o, r);
    lemma_distributes(52real * o - o * o, 676real, r);
    lemma_distributes(52real * o, o * o, r);
    lemma_regroups(52real, o, r);
    lemma_regroups(m, r, 1real);
    lemma_ordered(k, 36real, r);
    lemma_ordered(0real, k, r);
    lemma_regroups(r, k, 1real);
    lemma_distributes(0real, k, r);
}

/// What goes into the bounds of a step, for a swing that shrinks as the exponential function does.
proof fn lemma_sizes(o: real, t: real, e: real, b: real)
    requires
        b > 0real,
        20real <= o <= 32real,
        t >= 0real,
        e >= 0real,
        5real * ((o * t) * e) <= 2real,
        (1real + o * t) * e <= 1real,
    ensures
        ({
            let r = t * e;
            let q = o * r;
            let f = e + q;
            let h = 1real - f;
            &&& (1real + o * t) * e == f
            &&& r >= 0real
            &&& h >= 0real
            &&& 20real * r <= q <= 32real * r
            &&& 0real <= o * q <= 1024real * r
            &&& b * h == b - b * f
            &&& b * f >= b * e + 20real * (b * r)
            &&& 100real * (b * r) <= 2real * b
            &&& b * r >= 0real
            &&& b * e >= 0real
            &&& b * h >= 0real
        }),
{
    let r = t * e;
    let q = o * r;
    let f = e + q;
    let h = 1real - f;
    lemma_regroups(o, t, e);
    lemma_distributes(1real, o * t, e);
    lemma_keeps_sign(t, e);
    lemma_ordered(20real, o, r);
    lemma_ordered(o, 32real, r);
    lemma_regroups(o, r, 1real);
    assert(20real * r <= q <= 32real * r);
    lemma_ordered(20real, o, q);
    lemma_ordered(o, 32real, q);
    lemma_regroups(o, q, 1real);
    lemma_distributes(e, q, b);
    lemma_distributes(1real, f, b);
    lemma_regroups(b, h, 1real);
    lemma_regroups(f, b, 1real);
    lemma_ordered(20real * r, q, b);
    lemma_regroups(b, 20real, r);
    lemma_regroups(20real, b, r);
    lemma_ordered(100real * r, 2real, b);
    lemma_regroups(b, 100real, r);
    lemma_regroups(100real, b, r);
    lemma_ordered(0real, r, b);
    lemma_ordered(0real, e, b);
    lemma_ordered(0real, h, b);
}

/// The exact step of a spring keeps its position in bounds, and brings it nearer by a part of what
/// the swing shrinks by.
proof fn lemma_exact_position_bound(
    p: real,
    v: real,
    g: real,
    o: real,
    t: real,
    e: real,
    b: real,
)
    requires
        b > 0real,
        absolute(g) <= b,
        absolute(p) <= 8real * b,
        absolute(v + 26real * p) <= 208real * b,
        20real <= o <= 32real,
        t >= 0real,
        e >= 0real,
        5real * ((o * t) * e) <= 2real,
        (1real + o * t) * e <= 1real,
    ensures
        ({
            let h = 1real - (1real + o * t) * e;
            let p1 = g + exact_displacement(p - g, v, o, t, e);
            absolute(p1) <= 8real * b - 7real * (b * h) || absolute(p1) <= 7real * b
        }),
{
    let r = t * e;
    let q = o * r;
    let f = e + q;
    let h = 1real - f;
    let z = v + 26real * p;
    let a = f - 26real * r;
    lemma_sizes(o, t, e, b);
    lemma_position_parts(p, v, g, o, t, e);
    let (bf, br) = (b * f, b * r);
    lemma_bounded(g, h, b, h);
    lemma_bounded(p, a, 8real * b, absolute(a));
    lemma_bounded(z, r, 208real * b, r);
    lemma_regroups(208real, b, r);
    lemma_regroups(8real, b, absolute(a));
    assert(b * a == bf - 26real * br) by {
        lemma_distributes(f, 26real * r, b);
        lemma_regroups(b, a, 1real);
        lemma_regroups(b, f, 1real);
        lemma_regroups(26real, r, b);
        lemma_regroups(b, r, 1real);
    }
    assert(b * absolute(a) == absolute(b * a)) by {
        lemma_keeps_sign(a, b);
        lemma_regroups(b, a, 1real);
        lemma_regroups(b, -a, 1real);
        lemma_distributes(0real, a, b);
    }
}

/// The exact step of a spring keeps what goes with its velocity in bounds, and brings that down by
/// a part of what the swing shrinks by.
proof fn lemma_exact_velocity_bound(
    p: real,
    v: real,
    g: real,
    o: real,
    t: real,
    e: real,
    b: real,
)
    requires
        b > 0real,
        absolute(g) <= b,
        absolute(p) <= 8real * b,
        absolute(v + 26real * p) <= 208real * b,
        20real <= o <= 32real,
        t >= 0real,
        e >= 0real,
        5real * ((o * t) * e) <= 2real,
        (1real + o * t) * e <= 1real,
    ensures
        ({
            let h = 1real - (1real + o * t) * e;
            let p1 = g + exact_displacement(p - g, v, o, t, e);
            let u1 = exact_velocity(p - g, v, o, t, e);
            absolute(u1 + 26real * p1) <= 208real * b - 182real * (b * h)
        }),
{
    let r = t * e;
    let q = o * r;
    let s = o * q;
    let f = e + q;
    let h = 1real - f;
    let z = v + 26real * p;
    let p1 = g + exact_displacement(p - g, v, o, t, e);
    let u1 = exact_velocity(p - g, v, o, t, e);
    lemma_sizes(o, t, e, b);
    let (zc, k, gc) = (e - q + 26real * r, 52real * q - s - 676real * r, s + 26real * h);
    assert(u1 + 26real * p1 == z * zc + p * k + g * gc) by {
        lemma_velocity_total(p, v, g, o, t, e);
    }
    lemma_square(o, r);
    lemma_bounded(z, zc, 208real * b, e + 6real * r);
    lemma_bounded(p, k, 8real * b, 36real * r);
    lemma_bounded(g, gc, b, 1024real * r + 26real * h);
    let (be, br, bh) = (b * e, b * r, b * h);
    assert((208real * b) * (e + 6real * r) == 208real * be + 1248real * br) by {
        lemma_regroups(208real, b, e + 6real * r);
        lemma_distributes(e, 6real * r, b);
        lemma_regroups(b, 6real, r);
        lemma_regroups(6real, b, r);
    }
    assert((8real * b) * (36real * r) == 288real * br) by {
        lemma_regroups(8real, b, 36real * r);
        lemma_regroups(b, 36real, r);
        lemma_regroups(36real, b, r);
    }
    assert(b * (1024real * r + 26real * h) == 1024real * br + 26real * bh) by {
        lemma_distributes(1024real * r, 26real * h, b);
        lemma_regroups(b, 1024real, r);
        lemma_regroups(1024real, b, r);
        lemma_regroups(b, 26real, h);
        lemma_regroups(26real, b, h);
    }
}

/// What goes with the velocity after a step, taken together.
proof fn lemma_velocity_total(p: real, v: real, g: real, o: real, t: real, e: real)
    ensures
        ({
            let r = t * e;
            let q = o * r;
            let s = o * q;
            let h = 1real - (e + q);
            let z = v + 26real * p;
            let p1 = g + exact_displacement(p - g, v, o, t, e);
            let u1 = exact_velocity(p - g, v, o, t, e);
            u1 + 26real * p1 == z * (e - q + 26real * r) + p * (52real * q - s - 676real * r) + g
                * (s + 26real * h)
        }),
{
    let r = t * e;
    let q = o * r;
    let s = o * q;
    let f = e + q;
    let h = 1real - f;
    let z = v + 26real * p;
    lemma_position_parts(p, v, g, o, t, e);
    lemma_velocity_parts(p, v, g, o, t, e);
    let zc = e - q + 26real * r;
    assert(z * zc == z * e - z * q + 26real * (z * r)) by {
        lemma_distributes(e - q, 26real * r, z);
        lemma_distributes(e, q, z);
        lemma_regroups(z, e, 1real);
        lemma_regroups(z, q, 1real);
        lemma_regroups(e - q, z, 1real);
        lemma_regroups(26real, z, r);
        lemma_regroups(26real, r, z);
        lemma_regroups(z, 26real * r, 1real);
        lemma_regroups(z, r, 1real);
    }
    let k = 52real * q - s - 676real * r;
    assert(p * k == 52real * (p * q) - p * s - 676real * (p * r)) by {
        lemma_distributes(52real * q - s, 676real * r, p);
        lemma_distributes(52real * q, s, p);
        lemma_regroups(p, k, 1real);
        lemma_regroups(p, s, 1real);
        lemma_regroups(52real, q, p);
        lemma_regroups(q, p, 1real);
        lemma_regroups(676real, r, p);
        lemma_regroups(r, p, 1real);
    }
    let gc = s + 26real * h;
    assert(g * gc == g * s + 26real * (g * h)) by {
        lemma_distributes(s, 26real * h, g);
        lemma_regroups(g, 26real, h);
        lemma_regroups(26real, g, h);
    }
    let a = f - 26real * r;
    assert(p * a == p * e + p * q - 26real * (p * r)) by {
        lemma_distributes(f, 26real * r, p);
        lemma_distributes(e, q, p);
        lemma_regroups(p, a, 1real);
        lemma_regroups(p, f, 1real);
        lemma_regroups(26real, r, p);
        lemma_regroups(r, p, 1real);
    }
}

/// A spring in one direction whose target is at most `size`: its position is at most eight times
/// that, and what goes with its velocity is bounded too.
pub open spec fn is_steady(position: Double, velocity: Double, target: Double, size: real) -> bool {
    &&& position.is_finite() && velocity.is_finite() && target.is_finite()
    &&& absolute(exact(target)) <= size
    &&& absolute(exact(position)) <= 8real * size
    &&& absolute(exact(velocity) + 26real * exact(position)) <= 208real * size
}

/// Over a step of `dt` seconds the swing shrinks to `decay` as the exponential function lets it:
/// for `x = omega dt`, neither `(1 + x) decay` is more than one nor `x decay` more than two fifths.
pub open spec fn shrinks(omega: Double, dt: Double, decay: Double) -> bool {
    let (o, t, e) = (exact(omega), exact(dt), exact(decay));
    &&& dt.is_finite() && decay.is_finite()
    &&& t >= 0real
    &&& e >= 0real
    &&& 5real * ((o * t) * e) <= 2real
    &&& (1real + o * t) * e <= 1real
}

/// The swing shrinks by more than rounding: `(1 + x) decay` is less than one by `2^-44`.
pub open spec fn shrinks_clearly(omega: Double, dt: Double, decay: Double) -> bool {
    let (o, t, e) = (exact(omega), exact(dt), exact(decay));
    &&& shrinks(omega, dt, decay)
    &&& 17592186044416real * ((1real + o * t) * e) <= 17592186044415real
}

/// The errors of a step are small against the bounds.
pub proof fn lemma_slack(p: real, v: real, g: real, o: real, t: real, e: real, b: real)
    requires
        b >= 1real,
        absolute(g) <= b,
        absolute(p) <= 8real * b,
        absolute(v + 26real * p) <= 208real * b,
        20real <= o <= 32real,
        t >= 0real,
        e >= 0real,
        5real * ((o * t) * e) <= 2real,
        (1real + o * t) * e <= 1real,
    ensures
        e <= 1real,
        13real * position_size(p - g, v, g, o, t, e) + grain() * position_grains(t, e) <= 315real
            * b,
        13real * velocity_size(p - g, v, o, t, e) + grain() * velocity_grains(o, t, e)
            <= 11267real * b,
{
    let d = p - g;
    let r = t * e;
    lemma_grain();
    lemma_keeps_sign(t, e);
    lemma_keeps_sign(o, t);
    lemma_keeps_sign(o * t, e);
    lemma_distributes(1real, o * t, e);
    lemma_regroups(o, t, e);
    lemma_ordered(20real, o, r);
    lemma_regroups(o, r, 1real);
    assert(0real <= 100real * r <= 2real);
    let cs = coefficient_size(d, v, o);
    lemma_bounded(absolute(d), o, 9real * b, 32real);
    lemma_bounded(absolute(d), o, absolute(d), o);
    lemma_keeps_sign(absolute(d), o);
    assert(0real <= cs <= 704real * b);
    lemma_ordered(0real, r, b);
    lemma_ordered(100real * r, 2real, b);
    lemma_regroups(b, 100real, r);
    lemma_regroups(100real, b, r);
    // The position.
    lemma_distributes(absolute(d), cs * t, e);
    lemma_regroups(cs, t, e);
    lemma_bounded(absolute(d), e, 9real * b, 1real);
    lemma_bounded(cs, r, 704real * b, r);
    lemma_regroups(704real, b, r);
    assert(position_size(d, v, g, o, t, e) <= 25real * b) by {
        assert(cs * r <= 704real * (b * r));
    }
    // The velocity.
    lemma_distributes(absolute(v), (cs * o) * t, e);
    lemma_regroups(cs * o, t, e);
    lemma_bounded(absolute(v), e, 416real * b, 1real);
    lemma_bounded(cs, o, 704real * b, 32real);
    lemma_bounded(cs * o, r, 22528real * b, r);
    lemma_regroups(22528real, b, r);
    // The grains.
    lemma_distributes(8real * t, 2real, e);
    lemma_regroups(8real, t, e);
    assert((2real * (2real * (2real * t) + 1real)) * e == 8real * r + 2real * e);
    let n = 2real * (2real * o) + 1real;
    lemma_distributes(4real * (n * t), 2real, e);
    lemma_regroups(4real, n * t, e);
    lemma_regroups(n, t, e);
    lemma_ordered(n, 129real, r);
    lemma_ordered(0real, n, r);
    lemma_regroups(n, r, 1real);
    assert((2real * (2real * (n * t) + 1real)) * e == 4real * (n * r) + 2real * e);
    let np = position_grains(t, e);
    let nu = velocity_grains(o, t, e);
    assert(0real <= np <= 100real);
    assert(0real <= nu <= 100real);
    lemma_ordered(np, 100real, grain());
    lemma_ordered(nu, 100real, grain());
}

/// A spring stays steady: its bounds grow by at most `2^-44` over a step, and not at all if its
/// swing shrinks by more than rounding.
proof fn lemma_steady_step(
    position: Double,
    velocity: Double,
    target: Double,
    omega: Double,
    dt: Double,
    decay: Double,
    size: real,
    larger: real,
)
    requires
        is_steady(position, velocity, target, size),
        omega.is_finite(),
        20real <= exact(omega) <= 32real,
        is_within(dt, 400),
        shrinks(omega, dt, decay),
        1real <= size <= two(97),
        17592186044416real * (larger - size) >= size || (larger == size && shrinks_clearly(
            omega,
            dt,
            decay,
        )),
    ensures
        is_steady(
            stepped_position(position, velocity, target, omega, dt, decay),
            stepped_velocity(position, velocity, target, omega, dt, decay),
            target,
            larger,
        ),
{
    let (p, v, g, o, t, e) = (
        exact(position),
        exact(velocity),
        exact(target),
        exact(omega),
        exact(dt),
        exact(decay),
    );
    lemma_slack(p, v, g, o, t, e, size);
    lemma_exact_position_bound(p, v, g, o, t, e, size);
    lemma_exact_velocity_bound(p, v, g, o, t, e, size);
    lemma_step_is_finite(position, velocity, target, omega, dt, decay, size);
    lemma_step_is_near(position, velocity, target, omega, dt, decay);
    let h = 1real - (1real + o * t) * e;
    lemma_ordered(0real, h, size);
    if shrinks_clearly(omega, dt, decay) {
        lemma_ordered(1real, 17592186044416real * h, size);
        lemma_regroups(size, 17592186044416real, h);
        lemma_regroups(17592186044416real, size, h);
        assert(17592186044416real * (size * h) >= size);
    }
}

/// Nothing overflows in a step of a steady spring.
pub proof fn lemma_step_is_finite(
    position: Double,
    velocity: Double,
    target: Double,
    omega: Double,
    dt: Double,
    decay: Double,
    size: real,
)
    requires
        is_steady(position, velocity, target, size),
        omega.is_finite(),
        20real <= exact(omega) <= 32real,
        is_within(dt, 400),
        decay.is_finite(),
        0real <= exact(decay) <= 1real,
        1real <= size <= two(97),
    ensures
        stepped_position(position, velocity, target, omega, dt, decay).is_finite(),
        stepped_velocity(position, velocity, target, omega, dt, decay).is_finite(),
{
    lemma_scale(97);
    lemma_scale(0);
    lemma_two(0);
    lemma_within_exact(position, 100);
    lemma_within_exact(target, 100);
    lemma_within_exact(velocity, 106);
    lemma_within_exact(omega, 5);
    lemma_within_exact(decay, 0);
    let d = position.sub(target);
    let pull = omega.mul(d);
    let c = coefficient(position, velocity, target, omega);
    lemma_sum_within(position, target, 100);
    lemma_product_within(omega, d, 5, 101);
    lemma_sum_within(velocity, pull, 106);
    lemma_product_within(c, dt, 107, 400);
    lemma_within(d, 101, 507);
    lemma_sum_within(d, c.mul(dt), 507);
    let way = d.add(c.mul(dt));
    lemma_product_within(way, decay, 508, 0);
    lemma_within(target, 100, 508);
    lemma_sum_within(target, way.mul(decay), 508);
    lemma_product_within(omega, c, 5, 107);
    let brake = omega.mul(c);
    lemma_product_within(brake, dt, 112, 400);
    lemma_within(velocity, 106, 512);
    lemma_sum_within(velocity, brake.mul(dt), 512);
    lemma_product_within(velocity.sub(brake.mul(dt)), decay, 513, 0);
}

/// A corner of which the springs are steady, in both directions.
pub open spec fn is_steady_corner(s: SpringState, i: int, size: real) -> bool {
    &&& is_steady(s.current[i].x, s.velocity[i][0], s.target[i].x, size)
    &&& is_steady(s.current[i].y, s.velocity[i][1], s.target[i].y, size)
}

/// A velocity that counts as none.
pub open spec fn is_slow(v: Double) -> bool {
    v.abs().le(Double::from_bits(VELOCITY_EPSILON))
}

/// What holds of the springs of every caret whose targets are at most `size`: their frequencies are
/// in the range, their corners and velocities are bounded, and those that do not move are at their
/// targets and slow.
pub open spec fn is_sound(s: SpringState, size: real) -> bool {
    &&& 1real <= size <= two(97)
    &&& s.inv()
    &&& is_paced(s.omega)
    &&& forall|i: int| 0 <= i < 4 ==> #[trigger] is_steady_corner(s, i, size)
    &&& !s.moving ==> corners_equal(&s.current, &s.target)
    &&& !s.moving ==> forall|i: int, k: int|
        0 <= i < 4 && 0 <= k < 2 ==> #[trigger] is_slow(s.velocity[i][k])
}

/// Corners of which every coordinate is at most `size`.
pub open spec fn corners_at_most(c: &[Point; 4], size: real) -> bool {
    &&& corners_finite(c)
    &&& forall|i: int|
        #![trigger c[i]]
        0 <= i < 4 ==> absolute(exact(c[i].x)) <= size && absolute(exact(c[i].y)) <= size
}

/// A frequency in the range, as a real number.
pub proof fn lemma_paced_exact(omega: [Double; 4], i: int)
    requires
        is_paced(omega),
        0 <= i < 4,
    ensures
        omega[i].is_finite(),
        20real <= exact(omega[i]) <= 32real,
{
    let (low, x, high) = (
        Double::from_bits(LOWEST_OMEGA),
        omega[i],
        Double::from_bits(HIGHEST_OMEGA),
    );
    lemma_frequency_constants();
    assert(x.is_finite()) by {
        reveal(Double::spec_le);
        lemma_value_of_rank(x);
    }
    lemma_order_of_values(low, x);
    lemma_order_of_values(x, high);
    lemma_pow2_pos(1074);
    let (v, w) = (x.value() as real, pow2(1074) as real);
    assert(20real * w <= v <= 32real * w);
    assert(20real <= v / w <= 32real) by (nonlinear_arith)
        requires
            20real * w <= v <= 32real * w,
            w > 0real,
    ;
}

/// Zero, as a real number.
proof fn lemma_exact_zero(x: Double)
    requires
        is_zero(x),
    ensures
        exact(x) == 0real,
        is_slow(x),
{
    lemma_pow2_pos(1074);
    let w = pow2(1074) as real;
    assert(0real / w == 0real) by (nonlinear_arith)
        requires
            w > 0real,
    ;
    lemma_absolute(x);
    lemma_power_value(Double::from_bits(VELOCITY_EPSILON), 1073);
    lemma_order_of_values(x.abs(), Double::from_bits(VELOCITY_EPSILON));
}

/// Springs that stand still at their targets are sound.
proof fn lemma_stopped_is_sound(s: SpringState, size: real)
    requires
        1real <= size <= two(97),
        corners_at_most(&s.target, size),
        is_paced(s.omega),
        s == s.stopped(),
    ensures
        is_sound(s, size),
{
    let zero = Double::from_bits(ZERO);
    lemma_pattern_value(zero, 0, 0);
    assert(0 * pow2(0) == 0);
    lemma_exact_zero(zero);
    lemma_corners_equal_themselves(&s.target);
    lemma_still_is_not_swift();
    assert forall|i: int| 0 <= i < 4 implies #[trigger] is_steady_corner(s, i, size) by {
        assert(s.velocity[i] == still());
        let c = s.target[i];
    }
    assert forall|i: int, k: int| 0 <= i < 4 && 0 <= k < 2 implies #[trigger] is_slow(
        s.velocity[i][k],
    ) by {
        assert(s.velocity[i] == still());
    }
}

/// A caret begins sound.
pub proof fn lemma_sound_at_rest(rect: RectF, now: u128, size: real)
    requires
        1real <= size <= two(97),
        corners_at_most(&rect_corners(rect), size),
    ensures
        is_sound(SpringState::at_rest(rect, now), size),
{
    let s = SpringState::at_rest(rect, now);
    lemma_at_rest(rect, now);
    assert(s == s.stopped());
    lemma_stopped_is_sound(s, size);
}

/// Neither the corners of sound springs nor a target is too far away.
proof fn lemma_sound_is_near(s: SpringState, c: &[Point; 4], size: real)
    requires
        is_sound(s, size),
        corners_at_most(c, size),
    ensures
        corners_within(&s.current, 100),
        corners_within(c, 100),
{
    lemma_scale(97);
    assert forall|i: int| #![trigger s.current[i]] 0 <= i < 4 implies is_within(
        s.current[i].x,
        100,
    ) && is_within(s.current[i].y, 100) by {
        assert(is_steady_corner(s, i, size));
        lemma_within_exact(s.current[i].x, 100);
        lemma_within_exact(s.current[i].y, 100);
    }
    assert forall|i: int| #![trigger c[i]] 0 <= i < 4 implies is_within(c[i].x, 100) && is_within(
        c[i].y,
        100,
    ) by {
        lemma_within_exact(c[i].x, 100);
        lemma_within_exact(c[i].y, 100);
    }
}

/// A new target keeps springs sound, in the middle of their motion too, if the distance is a
/// number.
pub proof fn lemma_sound_retargeted(s: SpringState, rect: RectF, distance: Double, size: real)
    requires
        is_sound(s, size),
        corners_at_most(&rect_corners(rect), size),
        !distance.is_nan(),
    ensures
        is_sound(s.retargeted(rect, distance), size),
{
    let t = s.retargeted(rect, distance);
    let c = rect_corners(rect);
    lemma_retargeted(s, rect, distance);
    if s.turns(rect) {
        lemma_sound_is_near(s, &c, size);
        lemma_frequencies_are_paced(&s.current, &c, distance);
        assert forall|i: int| 0 <= i < 4 implies #[trigger] is_steady_corner(t, i, size) by {
            assert(is_steady_corner(s, i, size));
            assert(t.target[i] == c[i]);
        }
        if !t.moving {
            assert forall|i: int, k: int| 0 <= i < 4 && 0 <= k < 2 implies #[trigger] is_slow(
                t.velocity[i][k],
            ) by {
                let v = t.velocity[i][k];
                let slow = Double::from_bits(VELOCITY_EPSILON);
                assert(is_steady_corner(s, i, size));
                assert(!swift(t.velocity[i][k]));
                lemma_absolute(v);
                lemma_power_value(slow, 1073);
                lemma_order_of_values(slow, v.abs());
                lemma_order_of_values(v.abs(), slow);
            }
        }
    }
}

/// The swing of every corner shrinks as the exponential function lets it, if the springs take a
/// step when the clock reaches `now`.
pub open spec fn all_shrink(s: SpringState, now: u128, decay: [Double; 4]) -> bool {
    s.steps(now) ==> forall|i: int|
        0 <= i < 4 ==> #[trigger] shrinks(s.omega[i], s.elapsed(now), decay[i])
}

/// It shrinks by more than rounding.
pub open spec fn all_shrink_clearly(s: SpringState, now: u128, decay: [Double; 4]) -> bool {
    s.steps(now) ==> forall|i: int|
        0 <= i < 4 ==> #[trigger] shrinks_clearly(s.omega[i], s.elapsed(now), decay[i])
}

/// Larger bounds.
proof fn lemma_steady_larger(s: SpringState, i: int, size: real, larger: real)
    requires
        is_steady_corner(s, i, size),
        size <= larger,
    ensures
        is_steady_corner(s, i, larger),
{
}

/// Time keeps springs sound: their bounds grow by at most `2^-44`, and not at all if the swings
/// shrink by more than rounding.
pub proof fn lemma_sound_advanced(
    s: SpringState,
    now: u128,
    decay: [Double; 4],
    size: real,
    larger: real,
)
    requires
        is_sound(s, size),
        all_shrink(s, now, decay),
        larger <= two(97),
        17592186044416real * (larger - size) >= size || (larger == size && all_shrink_clearly(
            s,
            now,
            decay,
        )),
    ensures
        is_sound(s.advanced(now, decay), larger),
{
    let t = s.advanced(now, decay);
    lemma_advanced(s, now, decay);
    if s.steps(now) {
        let dt = s.elapsed(now);
        let moved = (SpringState { last_tick: now, ..s }).stepped(dt, decay);
        if moved.settled() {
            assert forall|i: int| #![trigger s.target[i]] 0 <= i < 4 implies absolute(
                exact(s.target[i].x),
            ) <= larger && absolute(exact(s.target[i].y)) <= larger by {
                assert(is_steady_corner(s, i, size));
            }
            lemma_stopped_is_sound(t, larger);
        } else {
            lemma_seconds(if now > s.last_tick { (now - s.last_tick) as u128 } else { 0 });
            lemma_within(dt, 127, 400);
            assert forall|i: int| 0 <= i < 4 implies #[trigger] is_steady_corner(t, i, larger) by {
                assert(is_steady_corner(s, i, size));
                assert(shrinks(s.omega[i], dt, decay[i]));
                if all_shrink_clearly(s, now, decay) {
                    assert(shrinks_clearly(s.omega[i], dt, decay[i]));
                }
                lemma_paced_exact(s.omega, i);
                let (c, g, v, o) = (s.current[i], s.target[i], s.velocity[i], s.omega[i]);
                lemma_steady_step(c.x, v[0], g.x, o, dt, decay[i], size, larger);
                lemma_steady_step(c.y, v[1], g.y, o, dt, decay[i], size, larger);
                assert(i == 0 || i == 1 || i == 2 || i == 3);
            }
        }
    } else {
        assert forall|i: int| 0 <= i < 4 implies #[trigger] is_steady_corner(t, i, larger) by {
            assert(is_steady_corner(s, i, size));
            lemma_steady_larger(t, i, size, larger);
        }
    }
}

/// What the exponential function gives for `x`, which is not positive: `y` is not negative; `-x y`
/// is at most 0.39, as it never exceeds the inverse of Euler's number; and `(1 - x) y` is less than
/// one by `2^-60` as soon as `-x` is `2^-26`, and by `2^-42` as soon as it is `2^-20`.
pub open spec fn is_power(x: Double, y: Double) -> bool {
    let (a, b) = (-exact(x), exact(y));
    &&& y.is_finite()
    &&& b >= 0real
    &&& 100real * (a * b) <= 39real
    &&& 67108864real * a >= 1real ==> 1152921504606846976real * ((1real + a) * b)
        <= 1152921504606846975real
    &&& 1048576real * a >= 1real ==> 4398046511104real * ((1real + a) * b) <= 4398046511103real
}

/// The function behaves as the exponential function does on numbers that are not positive: its
/// results are as `is_power` says, and for a number of at most `-m` at most `2^-m`.
pub open spec fn is_exponential<E: Fn(Double) -> Double>(exp: E) -> bool {
    &&& forall|x: Double, y: Double|
        x.is_finite() && x.value() <= 0 && #[trigger] call_ensures(exp, (x,), y) ==> is_power(x, y)
    &&& forall|x: Double, y: Double, m: int|
        #![trigger call_ensures(exp, (x,), y), is_within(y, -m)]
        x.is_finite() && 0 <= m <= 1000 && x.value() <= -(m * pow2(1074)) && call_ensures(
            exp,
            (x,),
            y,
        ) ==> is_within(y, -m)
}

/// The exponent of a decay, and the exact one.
pub proof fn lemma_exponent(omega: Double, dt: Double)
    requires
        omega.is_finite(),
        20real <= exact(omega) <= 32real,
        is_within(dt, 127),
        dt.value() >= 0,
    ensures
        ({
            let x = decay_exponent(omega, dt);
            &&& x.is_finite()
            &&& x.value() <= 0
            &&& counted(-exact(x) - exact(omega) * exact(dt)) <= exact(omega) * exact(dt) + grain()
            &&& exact(omega) * exact(dt) >= 20real * exact(dt)
            &&& exact(dt) >= 0real
        }),
{
    let x = decay_exponent(omega, dt);
    let n = omega.neg();
    let (o, t) = (exact(omega), exact(dt));
    lemma_scale(0);
    lemma_two(0);
    lemma_within_exact(omega, 5);
    lemma_negated(omega);
    lemma_exact_negated(omega);
    lemma_product_within(n, dt, 5, 127);
    lemma_product_relative(n, dt);
    lemma_sign_of_exact(dt);
    lemma_sign_of_exact(omega);
    lemma_sign_of_exact(n);
    lemma_signs_of_product(n, dt);
    lemma_keeps_sign(o, t);
    lemma_distributes(0real, o, t);
    assert(exact(n) * t == -(o * t));
    lemma_ordered(20real, o, t);
    lemma_regroups(o, t, 1real);
}

/// The decays of the exponential function shrink every swing over a nanosecond or more, and by more
/// than rounding over a microsecond or more.
proof fn lemma_power_shrinks(omega: Double, dt: Double, decay: Double)
    requires
        omega.is_finite(),
        20real <= exact(omega) <= 32real,
        is_within(dt, 127),
        1073741824real * exact(dt) >= 1real,
        dt.value() >= 0,
        is_power(decay_exponent(omega, dt), decay),
        exact(decay) <= 1real,
    ensures
        shrinks(omega, dt, decay),
        1048576real * exact(dt) >= 1real ==> shrinks_clearly(omega, dt, decay),
{
    let (o, t, e) = (exact(omega), exact(dt), exact(decay));
    let a = -exact(decay_exponent(omega, dt));
    let z = o * t;
    lemma_grain();
    lemma_exponent(omega, dt);
    assert(67108864real * a >= 1real);
    // The product with the exact exponent.
    let big = 9007199254740992real;
    assert(big * z <= big * a + z + grain());
    lemma_ordered(big * z, big * a + z + grain(), e);
    lemma_distributes(big * a + z, grain(), e);
    lemma_distributes(big * a, z, e);
    lemma_regroups(e, big * a + z + grain(), 1real);
    lemma_regroups(big, a, e);
    lemma_regroups(big, z, e);
    lemma_regroups(e, big * z, 1real);
    lemma_ordered(e, 1real, grain());
    lemma_regroups(grain(), e, 1real);
    assert(big * (z * e) <= big * (a * e) + z * e + grain());
    lemma_distributes(1real, z, e);
    lemma_distributes(1real, a, e);
    if 1048576real * a < 1real {
        assert(1000000real * z <= 1real);
        lemma_ordered(e, 1real, z);
        assert(1000000real * (z * e) <= 1real);
    }
}

/// With the exponential function, the swing of every corner shrinks whenever time has passed, and
/// by more than rounding when that is a microsecond or more.
pub proof fn lemma_exponential_shrinks<E: Fn(Double) -> Double>(
    s: SpringState,
    now: u128,
    exp: E,
    decay: [Double; 4],
)
    requires
        is_paced(s.omega),
        is_exponential(exp),
        decays_by(exp, s.exponents(now), decay),
    ensures
        all_shrink(s, now, decay),
        now - s.last_tick >= 1000 ==> all_shrink_clearly(s, now, decay),
{
    lemma_steps(s, now);
    if s.steps(now) {
        let dt = s.elapsed(now);
        lemma_seconds((now - s.last_tick) as u128);
        lemma_nanosecond(dt);
        assert forall|i: int| 0 <= i < 4 implies #[trigger] shrinks(s.omega[i], dt, decay[i]) by {
            lemma_corner_shrinks(s, now, exp, decay, i);
        }
        if now - s.last_tick >= 1000 {
            assert forall|i: int| 0 <= i < 4 implies #[trigger] shrinks_clearly(
                s.omega[i],
                dt,
                decay[i],
            ) by {
                lemma_corner_shrinks(s, now, exp, decay, i);
            }
        }
    }
}

proof fn lemma_corner_shrinks<E: Fn(Double) -> Double>(
    s: SpringState,
    now: u128,
    exp: E,
    decay: [Double; 4],
    i: int,
)
    requires
        is_paced(s.omega),
        is_exponential(exp),
        decays_by(exp, s.exponents(now), decay),
        s.steps(now),
        now > s.last_tick,
        0 <= i < 4,
    ensures
        shrinks(s.omega[i], s.elapsed(now), decay[i]),
        now - s.last_tick >= 1000 ==> shrinks_clearly(s.omega[i], s.elapsed(now), decay[i]),
{
    let dt = s.elapsed(now);
    lemma_seconds((now - s.last_tick) as u128);
    lemma_nanosecond(dt);
    lemma_paced_exact(s.omega, i);
    lemma_exponent(s.omega[i], dt);
    let x = decay_exponent(s.omega[i], dt);
    assert(i == 0 || i == 1 || i == 2 || i == 3);
    assert(call_ensures(exp, (x,), decay[i]));
    assert(0 * pow2(1074) == 0);
    assert(is_within(decay[i], -0int));
    lemma_exact_within(decay[i], 0);
    lemma_two(0);
    lemma_power_shrinks(s.omega[i], dt, decay[i]);
}

proof fn lemma_nanosecond(dt: Double)
    requires
        dt.is_finite(),
        dt.value() >= pow2(1044),
    ensures
        1073741824real * exact(dt) >= 1real,
        dt.value() >= pow2(1054) ==> 1048576real * exact(dt) >= 1real,
{
    lemma_pow2_pos(1074);
    lemma2_to64();
    lemma_pow2_adds(20, 1054);
    lemma_pow2_adds(30, 1044);
    let (v, w) = (dt.value() as real, pow2(1074) as real);
    assert(1073741824real * (v / w) >= 1real) by (nonlinear_arith)
        requires
            1073741824real * v >= w,
            w > 0real,
    ;
    if dt.value() >= pow2(1054) {
        assert(1048576real * (v / w) >= 1real) by (nonlinear_arith)
            requires
                1048576real * v >= w,
                w > 0real,
        ;
    }
}

/// A corner at most `2^n` pixels off its target and not faster than `2^(n + 5)` pixels per second,
/// in both directions.
pub open spec fn is_tethered(s: SpringState, i: int, n: int) -> bool {
    let (c, g, v) = (s.current[i], s.target[i], s.velocity[i]);
    &&& is_within(g.x, 900) && is_within(g.y, 900)
    &&& is_within(c.x.sub(g.x), n) && is_within(c.y.sub(g.y), n)
    &&& is_within(v[0], n + 5) && is_within(v[1], n + 5)
}

/// The number of binary digits of a number, which does not exceed it.
proof fn lemma_digits(w: nat, most: nat) -> (k: nat)
    requires
        1 <= w < pow2(most),
    ensures
        1 <= k <= most,
        k <= w < pow2(k),
    decreases most,
{
    lemma2_to64();
    if most == 1 || w >= pow2((most - 1) as nat) {
        if most > 1 {
            lemma_less_than_power((most - 1) as nat);
        }
        most
    } else {
        lemma_digits(w, (most - 1) as nat)
    }
}

/// A power of two is more than its exponent.
pub proof fn lemma_less_than_power(k: nat)
    ensures
        k + 1 <= pow2(k),
    decreases k,
{
    lemma2_to64();
    if k > 0 {
        lemma_pow2_unfold(k);
        lemma_less_than_power((k - 1) as nat);
    }
}

/// With the exponential function, the decay of a corner after `low` seconds.
proof fn lemma_late_decay<E: Fn(Double) -> Double>(
    omega: Double,
    dt: Double,
    exp: E,
    decay: Double,
    low: int,
    m: int,
)
    requires
        omega.is_finite(),
        20real <= exact(omega) <= 32real,
        is_within(dt, 127),
        dt.value() >= low * pow2(1074),
        is_exponential(exp),
        call_ensures(exp, (decay_exponent(omega, dt),), decay),
        0 <= m <= 20 * low,
        m <= 1000,
        low <= 1000,
    ensures
        is_within(decay, -m),
{
    let x = decay_exponent(omega, dt);
    let n = omega.neg();
    let w = pow2(1074);
    lemma_pow2_pos(1074);
    assert(low * w >= 0) by (nonlinear_arith)
        requires
            low >= 0,
    ;
    lemma_exponent(omega, dt);
    lemma_negated(omega);
    // The exact product is at most -20 low, which is a number.
    lemma_rank_of_product(n, dt);
    lemma_exact_at_least(omega);
    let (a, b) = (omega.value(), dt.value());
    assert(n.value() * b == -(a * b)) by (nonlinear_arith)
        requires
            n.value() == -a,
    ;
    assert(a * b >= ((20 * low) * w) * w) by (nonlinear_arith)
        requires
            a >= 20 * w,
            b >= low * w,
            low >= 0,
            w > 0,
    ;
    let v = -((20 * low) * w);
    assert((-((20 * low) * w)) * w == -(((20 * low) * w) * w)) by (nonlinear_arith);
    assert(1 * w == w);
    lemma_rank_monotone(n.value() * b, v * w, w);
    lemma_rank_scaled(v, 1, w);
    let whole = Double::from_i32((-(20 * low)) as i32);
    lemma_exact_i32((-(20 * low)) as i32);
    assert((-(20 * low)) * w == v) by (nonlinear_arith)
        requires
            v == -((20 * low) * w),
    ;
    lemma_rank_of_value(whole);
    lemma_order_of_values(whole, x);
    assert(x.value() <= v);
    assert(m * w <= (20 * low) * w) by (nonlinear_arith)
        requires
            m <= 20 * low,
    ;
    assert(is_within(decay, -m));
}

proof fn lemma_exact_at_least(omega: Double)
    requires
        exact(omega) >= 20real,
    ensures
        omega.value() >= 20 * pow2(1074),
{
    lemma_pow2_pos(1074);
    let (v, w) = (omega.value() as real, pow2(1074) as real);
    assert(v >= 20real * w) by (nonlinear_arith)
        requires
            v / w >= 20real,
            w > 0real,
    ;
}

/// Every motion ends, with the exponential function, after a time that grows with the distance:
/// corners that are at most `2^n` pixels off their targets stand still at them after `1 + n / 16`
/// seconds.
pub proof fn lemma_rest_after<E: Fn(Double) -> Double>(
    s: SpringState,
    now: u128,
    exp: E,
    decay: [Double; 4],
    n: int,
)
    requires
        s.moving,
        is_paced(s.omega),
        0 <= n <= 400,
        forall|i: int| 0 <= i < 4 ==> #[trigger] is_tethered(s, i, n),
        is_exponential(exp),
        decays_by(exp, s.exponents(now), decay),
        now > s.last_tick,
        16 * ((now - s.last_tick) / 1_000_000_000) >= 16 + n,
    ensures
        s.advanced(now, decay) == (SpringState { last_tick: now, ..s }).stopped(),
{
    let nanos = (now - s.last_tick) as u128;
    let whole = (nanos / NANOS_PER_SEC) as nat;
    let dt = s.elapsed(now);
    lemma_seconds(nanos);
    lemma_steps(s, now);
    lemma2_to64();
    lemma2_to64_rest();
    lemma_pow2_adds(64, 62);
    let k = lemma_digits(whole, 126);
    let low: nat = if whole < 1000 {
        whole
    } else {
        1000
    };
    lemma_seconds_between(nanos, low, k);
    let m = n + k + 15;
    assert forall|i: int| 0 <= i < 4 implies #[trigger] s.corner_fades(
        i,
        dt,
        decay,
        n,
        k as int + 1,
    ) by {
        assert(is_tethered(s, i, n));
        lemma_paced_exact(s.omega, i);
        lemma_scale(0);
        lemma_two(0);
        lemma_within_exact(s.omega[i], 5);
        let x = decay_exponent(s.omega[i], dt);
        assert(i == 0 || i == 1 || i == 2 || i == 3);
        assert(call_ensures(exp, (x,), decay[i]));
        lemma_late_decay(s.omega[i], dt, exp, decay[i], low as int, m);
    }
    lemma_motion_ends(s, now, decay, n, k as int + 1);
}

/// Sound springs are not far off their targets.
pub proof fn lemma_sound_is_tethered(s: SpringState, b: int, i: int)
    requires
        0 <= b <= 97,
        is_sound(s, two(b)),
        0 <= i < 4,
    ensures
        is_tethered(s, i, b + 4),
{
    assert(is_steady_corner(s, i, two(b)));
    lemma_scale(b);
    lemma_steady_is_tethered(s.current[i].x, s.velocity[i][0], s.target[i].x, b);
    lemma_steady_is_tethered(s.current[i].y, s.velocity[i][1], s.target[i].y, b);
}

proof fn lemma_steady_is_tethered(position: Double, velocity: Double, target: Double, b: int)
    requires
        0 <= b <= 97,
        is_steady(position, velocity, target, two(b)),
    ensures
        is_within(target, 900),
        is_within(position.sub(target), b + 4),
        is_within(velocity, b + 9),
{
    lemma_scale(b);
    lemma_within_exact(position, b + 3);
    lemma_within_exact(target, b + 3);
    lemma_within_exact(velocity, b + 9);
    lemma_sum_within(position, target, b + 3);
    lemma_within(target, b + 3, 900);
}

/// The function gives a number for the length of every finite way.
pub open spec fn gives_numbers<H: Fn(Double, Double) -> Double>(hypot: H) -> bool {
    forall|x: Double, y: Double, z: Double|
        x.is_finite() && y.is_finite() && #[trigger] call_ensures(hypot, (x, y), z) ==> !z.is_nan()
}

/// Either no time has passed, or a microsecond or more.
pub open spec fn ticks(s: SpringState, now: u128) -> bool {
    now <= s.last_tick || now - s.last_tick >= 1000
}

/// Bounds that may take the place of `size` when the clock reaches `now`: the same ones, if the
/// clock ticks; ones that are larger by `2^-44`, however short the time is.
pub open spec fn is_allowance(s: SpringState, now: u128, size: real, larger: real) -> bool {
    ||| larger == size && ticks(s, now)
    ||| 17592186044416real * (larger - size) >= size && larger <= two(97)
}

/// What `advance_to` keeps, with the exponential function: sound springs are sound afterwards.
pub proof fn lemma_advance_keeps_sound<E: Fn(Double) -> Double>(
    s: SpringState,
    now: u128,
    exp: E,
    decay: [Double; 4],
    size: real,
    larger: real,
)
    requires
        is_sound(s, size),
        is_exponential(exp),
        decays_by(exp, s.exponents(now), decay),
        is_allowance(s, now, size, larger),
    ensures
        is_sound(s.advanced(now, decay), larger),
{
    lemma_steps(s, now);
    lemma_exponential_shrinks(s, now, exp, decay);
    lemma_sound_advanced(s, now, decay, size, larger);
}

/// What `retarget` keeps, with the exponential function and a length that is a number: sound
/// springs are sound afterwards, in the middle of their motion too. So all springs are that begin
/// at rest and are only advanced and retargeted.
pub proof fn lemma_retarget_keeps_sound<
    E: Fn(Double) -> Double,
    H: Fn(Double, Double) -> Double,
>(
    before: SpringState,
    after: SpringState,
    rect: RectF,
    now: u128,
    exp: E,
    hypot: H,
    decay: [Double; 4],
    distance: Double,
    size: real,
    larger: real,
)
    requires
        is_sound(before, size),
        corners_at_most(&rect_corners(rect), larger),
        is_exponential(exp),
        gives_numbers(hypot),
        retargets(before, after, rect, now, exp, hypot, decay, distance),
        is_allowance(before, now, size, larger),
    ensures
        is_sound(after, larger),
{
    let mid = before.advanced(now, decay);
    let c = rect_corners(rect);
    lemma_advance_keeps_sound(before, now, exp, decay, size, larger);
    if mid.turns(rect) {
        lemma_sound_is_near(mid, &c, larger);
        lemma_movement_is_finite(&mid.current, &c);
        lemma_sound_retargeted(mid, rect, distance, larger);
    }
}

/// Every motion ends: whatever happened before, sound springs whose targets are at most `2^b` stand
/// still at them after `1 + (b + 4) / 16` seconds.
pub proof fn lemma_sound_springs_come_to_rest<E: Fn(Double) -> Double>(
    s: SpringState,
    now: u128,
    exp: E,
    decay: [Double; 4],
    b: int,
)
    requires
        0 <= b <= 97,
        is_sound(s, two(b)),
        is_exponential(exp),
        decays_by(exp, s.exponents(now), decay),
        now > s.last_tick,
        16 * ((now - s.last_tick) / 1_000_000_000) >= 20 + b,
    ensures
        s.moving ==> s.advanced(now, decay) == (SpringState { last_tick: now, ..s }).stopped(),
        !s.advanced(now, decay).moving,
{
    lemma_steps(s, now);
    if s.moving {
        assert forall|i: int| 0 <= i < 4 implies #[trigger] is_tethered(s, i, b + 4) by {
            lemma_sound_is_tethered(s, b, i);
        }
        lemma_rest_after(s, now, exp, decay, b + 4);
    }
}

} // verus!
