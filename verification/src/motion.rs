//! The exact motion of a spring, over the real numbers, and how near to it the springs stay.
use crate::accuracy::{
    absolute, exact, is_within, lemma_difference_error, lemma_distributes, lemma_errors_add,
    lemma_exact_within, lemma_keeps_sign, lemma_product_error, lemma_regroups, lemma_scaled_error,
    lemma_sum_error, lemma_sum_is_near, lemma_two, lemma_two_adds, lemma_two_order, lemma_within,
    two,
};
use crate::approx::{
    counted, grain, is_near, lemma_near, lemma_near_difference, lemma_near_itself,
    lemma_near_product, lemma_near_subtraction, lemma_near_sum,
};
use crate::double::Double;
use crate::exact::{
    is_zero, lemma_finite_product, lemma_finite_sum, lemma_negated, lemma_product_is_commutative,
    magnitude_of,
};
use crate::spring::{
    coefficient, lemma_no_overshoot, lemma_release_does_not_overshoot, lemma_release_velocity,
    stepped_position, stepped_velocity, swing,
};
use vstd::arithmetic::power2::{lemma_pow2_pos, lemma_pow2_unfold, pow2};
use vstd::prelude::*;

verus! {

/// What carries a spring on that is `d` off its target and has the velocity `v`.
pub open spec fn exact_coefficient(d: real, v: real, omega: real) -> real {
    v + omega * d
}

/// How far off its target a spring is after a step of `t` seconds over which its swing shrinks to
/// `e`.
pub open spec fn exact_displacement(d: real, v: real, omega: real, t: real, e: real) -> real {
    (d + exact_coefficient(d, v, omega) * t) * e
}

/// How fast a spring is after a step of `t` seconds over which its swing shrinks to `e`.
pub open spec fn exact_velocity(d: real, v: real, omega: real, t: real, e: real) -> real {
    (v - omega * exact_coefficient(d, v, omega) * t) * e
}

/// The coefficient of a spring shrinks with its swing.
pub proof fn lemma_exact_coefficient(d: real, v: real, omega: real, t: real, e: real)
    ensures
        exact_coefficient(
            exact_displacement(d, v, omega, t, e),
            exact_velocity(d, v, omega, t, e),
            omega,
        ) == exact_coefficient(d, v, omega) * e,
{
    let c = exact_coefficient(d, v, omega);
    lemma_distributes(v, omega * c * t, e);
    lemma_distributes(d, c * t, e);
    lemma_distributes(d * e, (c * t) * e, omega);
    lemma_regroups(omega, c, t);
    lemma_regroups(omega, c * t, e);
    lemma_regroups(omega, d, e);
    lemma_distributes(v, omega * d, e);
}

/// The motion does not depend on the frame rate: two steps are one longer step.
pub proof fn lemma_exact_steps_are_one_step(
    d: real,
    v: real,
    omega: real,
    t1: real,
    e1: real,
    t2: real,
    e2: real,
)
    ensures
        ({
            let d1 = exact_displacement(d, v, omega, t1, e1);
            let v1 = exact_velocity(d, v, omega, t1, e1);
            &&& exact_displacement(d1, v1, omega, t2, e2) == exact_displacement(
                d,
                v,
                omega,
                t1 + t2,
                e1 * e2,
            )
            &&& exact_velocity(d1, v1, omega, t2, e2) == exact_velocity(
                d,
                v,
                omega,
                t1 + t2,
                e1 * e2,
            )
        }),
{
    let c = exact_coefficient(d, v, omega);
    lemma_exact_coefficient(d, v, omega, t1, e1);
    // The displacement.
    lemma_regroups(c, e1, t2);
    lemma_distributes(d + c * t1, c * t2, e1);
    lemma_distributes(t1, t2, c);
    lemma_regroups(d + c * (t1 + t2), e1, e2);
    // The velocity.
    let a = omega * c;
    lemma_regroups(omega, c, e1);
    lemma_regroups(a, e1, t2);
    lemma_distributes(v - a * t1, a * t2, e1);
    lemma_distributes(t1, t2, a);
    lemma_regroups(v - a * (t1 + t2), e1, e2);
}

/// A spring never overshoots: while it has not passed its target and its coefficient does not carry
/// it there, it does not do so after a step either, so not after any number of steps.
pub proof fn lemma_exact_spring_never_overshoots(d: real, v: real, omega: real, t: real, e: real)
    requires
        t >= 0real,
        e >= 0real,
    ensures
        ({
            let c = exact_coefficient(d, v, omega);
            let d1 = exact_displacement(d, v, omega, t, e);
            let c1 = exact_coefficient(d1, exact_velocity(d, v, omega, t, e), omega);
            &&& d <= 0real && c <= 0real ==> d1 <= 0real && c1 <= 0real
            &&& d >= 0real && c >= 0real ==> d1 >= 0real && c1 >= 0real
        }),
{
    let c = exact_coefficient(d, v, omega);
    lemma_exact_coefficient(d, v, omega, t, e);
    lemma_keeps_sign(c, t);
    lemma_keeps_sign(d + c * t, e);
    lemma_keeps_sign(c, e);
}

/// A spring that is let go from rest keeps the fraction `(1 + omega t) e` of its way, and its
/// velocity does not point away from the target.
pub proof fn lemma_exact_release(d: real, omega: real, t: real, e: real)
    requires
        omega >= 0real,
        t >= 0real,
        e >= 0real,
    ensures
        absolute(exact_displacement(d, 0real, omega, t, e)) == ((1real + omega * t) * e) * absolute(
            d,
        ),
        d <= 0real ==> exact_displacement(d, 0real, omega, t, e) <= 0real,
        d >= 0real ==> exact_displacement(d, 0real, omega, t, e) >= 0real,
        d <= 0real ==> exact_velocity(d, 0real, omega, t, e) >= 0real,
        d >= 0real ==> exact_velocity(d, 0real, omega, t, e) <= 0real,
{
    let c = exact_coefficient(d, 0real, omega);
    assert(c == omega * d);
    let g = (1real + omega * t) * e;
    // The displacement.
    lemma_regroups(omega, d, t);
    lemma_distributes(1real, omega * t, d);
    lemma_regroups(1real + omega * t, d, e);
    assert(exact_displacement(d, 0real, omega, t, e) == g * d);
    lemma_keeps_sign(omega, t);
    lemma_keeps_sign(1real + omega * t, e);
    lemma_regroups(d, g, 1real);
    lemma_keeps_sign(d, g);
    lemma_distributes(0real, d, g);
    lemma_regroups(-d, g, 1real);
    assert((0real - d) * g == -(d * g));
    // The velocity.
    lemma_regroups(d, omega, 1real);
    lemma_keeps_sign(d, omega);
    lemma_regroups(c, omega, 1real);
    lemma_keeps_sign(c, omega);
    lemma_keeps_sign(omega * c, t);
    lemma_keeps_sign(0real - omega * c * t, e);
}

/// A spring that is at most `2^n` pixels off a target of at most `2^m`, and not faster than `2^(n +
/// 5)` pixels per second, with a frequency of at most 32, and a step of at most `2^k` seconds over
/// which its swing does not grow.
pub open spec fn is_tame(
    position: Double,
    velocity: Double,
    target: Double,
    omega: Double,
    dt: Double,
    decay: Double,
    n: int,
    k: int,
    m: int,
) -> bool {
    &&& position.is_finite()
    &&& magnitude_of(position.value() - target.value()) <= pow2((1074 + n) as nat)
    &&& is_within(velocity, n + 5)
    &&& is_within(target, m)
    &&& is_within(omega, 5)
    &&& is_within(dt, k)
    &&& is_within(decay, 0)
    &&& -200 <= n <= 200
    &&& 0 <= k <= 200
    &&& n + k + 7 <= m <= 800
}

/// Some powers of two.
pub proof fn lemma_scale(n: int)
    requires
        -1000 <= n,
    ensures
        two(n) > 0real,
        two(n + 1) == 2real * two(n),
        two(n + 2) == 4real * two(n),
        two(n + 3) == 8real * two(n),
        two(n + 4) == 16real * two(n),
        two(n + 5) == 32real * two(n),
        two(n + 6) == 64real * two(n),
        two(n + 7) == 128real * two(n),
        two(n + 8) == 256real * two(n),
        two(n + 9) == 512real * two(n),
        two(n + 10) == 1024real * two(n),
{
    lemma_two(n);
    lemma_two(n + 1);
    lemma_two(n + 2);
    lemma_two(n + 3);
    lemma_two(n + 4);
    lemma_two(n + 5);
    lemma_two(n + 6);
    lemma_two(n + 7);
    lemma_two(n + 8);
    lemma_two(n + 9);
    lemma_two(n + 10);
}

/// The coefficient is the exact one, up to rounding.
proof fn lemma_coefficient_error(
    position: Double,
    velocity: Double,
    target: Double,
    omega: Double,
    n: int,
)
    requires
        position.is_finite(),
        target.is_finite(),
        magnitude_of(position.value() - target.value()) <= pow2((1074 + n) as nat),
        is_within(velocity, n + 5),
        is_within(omega, 5),
        -300 <= n <= 500,
    ensures
        ({
            let d = exact(position) - exact(target);
            let c = coefficient(position, velocity, target, omega);
            &&& is_within(position.sub(target), n)
            &&& is_within(c, n + 6)
            &&& absolute(exact(position.sub(target)) - d) <= two(n - 53)
            &&& absolute(exact(c) - exact_coefficient(d, exact(velocity), exact(omega)))
                <= 5real * two(n - 48)
        }),
{
    let d = position.sub(target);
    let pull = omega.mul(d);
    let (dr, x, o) = (exact(d), exact(position) - exact(target), exact(omega));
    lemma_difference_error(position, target, n);
    lemma_product_error(omega, d, 5, n);
    lemma_sum_error(velocity, pull, n + 5);
    lemma_exact_within(omega, 5);
    lemma_scale(n - 53);
    lemma_scale(n - 48);
    lemma_scale(0);
    lemma_two(0);
    lemma_scaled_error(dr, x, o, two(n - 53), 32real);
    lemma_regroups(o, dr, 1real);
    lemma_regroups(o, x, 1real);
}

/// A product with the step, up to rounding.
proof fn lemma_timed(x: Double, dt: Double, y: real, delta: real, a: int, k: int)
    requires
        is_within(x, a),
        is_within(dt, k),
        absolute(exact(x) - y) <= delta,
        -300 <= a <= 300,
        -300 <= k <= 300,
    ensures
        is_within(x.mul(dt), a + k),
        absolute(exact(x.mul(dt)) - y * exact(dt)) <= two(a + k - 52) + delta * two(k),
{
    lemma_product_error(x, dt, a, k);
    lemma_exact_within(dt, k);
    lemma_scaled_error(exact(x), y, exact(dt), delta, two(k));
    lemma_errors_add(
        exact(x.mul(dt)),
        exact(x) * exact(dt),
        y * exact(dt),
        two(a + k - 52),
        delta * two(k),
    );
}

/// The way of a spring, before its swing shrinks.
proof fn lemma_way_error(
    position: Double,
    velocity: Double,
    target: Double,
    omega: Double,
    dt: Double,
    n: int,
    k: int,
)
    requires
        position.is_finite(),
        target.is_finite(),
        magnitude_of(position.value() - target.value()) <= pow2((1074 + n) as nat),
        is_within(velocity, n + 5),
        is_within(omega, 5),
        is_within(dt, k),
        -200 <= n <= 200,
        0 <= k <= 200,
    ensures
        ({
            let x = exact(position) - exact(target);
            let cx = exact_coefficient(x, exact(velocity), exact(omega));
            let c = coefficient(position, velocity, target, omega);
            let way = position.sub(target).add(c.mul(dt));
            &&& is_within(way, n + k + 7)
            &&& absolute(exact(way) - (x + cx * exact(dt))) <= 14real * two(n + k - 48)
        }),
{
    let x = exact(position) - exact(target);
    let cx = exact_coefficient(x, exact(velocity), exact(omega));
    let d = position.sub(target);
    let c = coefficient(position, velocity, target, omega);
    let (u, s) = (two(n - 48), two(n + k - 48));
    lemma_coefficient_error(position, velocity, target, omega, n);
    lemma_timed(c, dt, cx, 5real * u, n + 6, k);
    lemma_two_adds(n - 48, k);
    lemma_regroups(5real, u, two(k));
    lemma_scale(n + k - 48);
    lemma_two_order(n - 53, n + k - 48);
    let ct = c.mul(dt);
    assert(absolute(exact(ct) - cx * exact(dt)) <= 9real * s);
    lemma_within(d, n, n + 6 + k);
    lemma_sum_error(d, ct, n + 6 + k);
    lemma_errors_add(
        exact(d.add(ct)),
        exact(d) + exact(ct),
        x + cx * exact(dt),
        4real * s,
        10real * s,
    );
}

/// What slows a spring down.
proof fn lemma_brake_error(
    position: Double,
    velocity: Double,
    target: Double,
    omega: Double,
    dt: Double,
    n: int,
    k: int,
)
    requires
        position.is_finite(),
        target.is_finite(),
        magnitude_of(position.value() - target.value()) <= pow2((1074 + n) as nat),
        is_within(velocity, n + 5),
        is_within(omega, 5),
        is_within(dt, k),
        -200 <= n <= 200,
        0 <= k <= 200,
    ensures
        ({
            let x = exact(position) - exact(target);
            let cx = exact_coefficient(x, exact(velocity), exact(omega));
            let c = coefficient(position, velocity, target, omega);
            let slow = omega.mul(c).mul(dt);
            &&& is_within(slow, n + k + 11)
            &&& absolute(exact(slow) - exact(omega) * cx * exact(dt)) <= 416real * two(n + k - 48)
        }),
{
    let x = exact(position) - exact(target);
    let o = exact(omega);
    let cx = exact_coefficient(x, exact(velocity), o);
    let c = coefficient(position, velocity, target, omega);
    let u = two(n - 48);
    lemma_coefficient_error(position, velocity, target, omega, n);
    lemma_scale(0);
    lemma_two(0);
    lemma_scale(n - 48);
    lemma_product_error(omega, c, 5, n + 6);
    lemma_exact_within(omega, 5);
    lemma_scaled_error(exact(c), cx, o, 5real * u, 32real);
    lemma_regroups(o, exact(c), 1real);
    lemma_regroups(o, cx, 1real);
    let brake = omega.mul(c);
    lemma_errors_add(exact(brake), o * exact(c), o * cx, 128real * u, 160real * u);
    lemma_timed(brake, dt, o * cx, 288real * u, n + 11, k);
    lemma_two_adds(n - 48, k);
    lemma_regroups(288real, u, two(k));
    lemma_scale(n + k - 48);
}

/// What is left of something when the swing has shrunk.
proof fn lemma_shrunk(x: Double, decay: Double, y: real, delta: real, a: int)
    requires
        is_within(x, a),
        is_within(decay, 0),
        absolute(exact(x) - y) <= delta,
        -300 <= a <= 600,
    ensures
        is_within(x.mul(decay), a),
        absolute(exact(x.mul(decay)) - y * exact(decay)) <= two(a - 52) + delta,
{
    lemma_product_error(x, decay, a, 0);
    lemma_exact_within(decay, 0);
    lemma_two(0);
    lemma_scaled_error(exact(x), y, exact(decay), delta, 1real);
    lemma_errors_add(
        exact(x.mul(decay)),
        exact(x) * exact(decay),
        y * exact(decay),
        two(a - 52),
        delta,
    );
}

/// A step is the exact one, up to rounding: the position within `2^(m - 49)` pixels, and the
/// velocity within `2^(n + k - 38)` pixels per second.
pub proof fn lemma_step_is_nearly_exact(
    position: Double,
    velocity: Double,
    target: Double,
    omega: Double,
    dt: Double,
    decay: Double,
    n: int,
    k: int,
    m: int,
)
    requires
        is_tame(position, velocity, target, omega, dt, decay, n, k, m),
    ensures
        ({
            let d = exact(position) - exact(target);
            let (v, o, t, e) = (exact(velocity), exact(omega), exact(dt), exact(decay));
            let p = stepped_position(position, velocity, target, omega, dt, decay);
            let u = stepped_velocity(position, velocity, target, omega, dt, decay);
            &&& is_within(swing(position, velocity, target, omega, dt, decay), n + k + 7)
            &&& is_within(p, m + 1) && is_within(u, n + k + 12)
            &&& absolute(exact(p) - (exact(target) + exact_displacement(d, v, o, t, e))) <= two(
                m - 49,
            )
            &&& absolute(exact(u) - exact_velocity(d, v, o, t, e)) <= two(n + k - 38)
        }),
{
    let x = exact(position) - exact(target);
    let (v, o, t, e) = (exact(velocity), exact(omega), exact(dt), exact(decay));
    let cx = exact_coefficient(x, v, o);
    let c = coefficient(position, velocity, target, omega);
    let s = two(n + k - 48);
    lemma_scale(n + k - 48);
    // The position.
    let way = position.sub(target).add(c.mul(dt));
    let left = way.mul(decay);
    lemma_way_error(position, velocity, target, omega, dt, n, k);
    lemma_shrunk(way, decay, x + cx * t, 14real * s, n + k + 7);
    lemma_two_order(n + k - 48, m - 55);
    lemma_scale(m - 55);
    lemma_within(left, n + k + 7, m);
    lemma_sum_error(target, left, m);
    let p = target.add(left);
    lemma_errors_add(
        exact(p),
        exact(target) + exact(left),
        exact(target) + (x + cx * t) * e,
        two(m - 52),
        22real * s,
    );
    // The velocity.
    let slow = omega.mul(c).mul(dt);
    let rest = velocity.sub(slow);
    lemma_brake_error(position, velocity, target, omega, dt, n, k);
    lemma_within(velocity, n + 5, n + k + 11);
    lemma_sum_error(velocity, slow, n + k + 11);
    lemma_errors_add(
        exact(rest),
        v - exact(slow),
        v - o * cx * t,
        two(n + k - 41),
        416real * s,
    );
    lemma_shrunk(rest, decay, v - o * cx * t, 544real * s, n + k + 12);
}

/// The sign of the exact value is that of the value.
pub proof fn lemma_sign_of_exact(x: Double)
    ensures
        exact(x) <= 0real <==> x.value() <= 0,
        exact(x) >= 0real <==> x.value() >= 0,
{
    lemma_pow2_pos(1074);
    let (v, w) = (x.value() as real, pow2(1074) as real);
    if v > 0real {
        assert(v / w > 0real) by (nonlinear_arith)
            requires
                v > 0real,
                w > 0real,
        ;
    } else if v < 0real {
        assert(v / w < 0real) by (nonlinear_arith)
            requires
                v < 0real,
                w > 0real,
        ;
    } else {
        assert(v / w == 0real) by (nonlinear_arith)
            requires
                v == 0real,
                w > 0real,
        ;
    }
}

/// What comes of other displacements and velocities.
proof fn lemma_perturbed(
    d1: real,
    v1: real,
    d2: real,
    v2: real,
    omega: real,
    t: real,
    e: real,
    p: real,
    q: real,
    k: real,
)
    requires
        absolute(d1 - d2) <= p,
        absolute(v1 - v2) <= q,
        absolute(omega) <= 32real,
        absolute(t) <= k,
        absolute(e) <= 1real,
    ensures
        absolute(exact_coefficient(d1, v1, omega) - exact_coefficient(d2, v2, omega)) <= q + 32real
            * p,
        absolute(
            exact_displacement(d1, v1, omega, t, e) - exact_displacement(d2, v2, omega, t, e),
        ) <= p + (q + 32real * p) * k,
        absolute(exact_velocity(d1, v1, omega, t, e) - exact_velocity(d2, v2, omega, t, e)) <= q
            + (32real * (q + 32real * p)) * k,
{
    let c1 = exact_coefficient(d1, v1, omega);
    let c2 = exact_coefficient(d2, v2, omega);
    let r = q + 32real * p;
    lemma_scaled_error(d1, d2, omega, p, 32real);
    lemma_regroups(d1, omega, 1real);
    lemma_regroups(d2, omega, 1real);
    assert(absolute(c1 - c2) <= r);
    lemma_scaled_error(c1, c2, t, r, k);
    lemma_scaled_error(d1 + c1 * t, d2 + c2 * t, e, p + r * k, 1real);
    lemma_scaled_error(c1, c2, omega, r, 32real);
    lemma_regroups(c1, omega, 1real);
    lemma_regroups(c2, omega, 1real);
    lemma_scaled_error(omega * c1, omega * c2, t, 32real * r, k);
    lemma_scaled_error(
        v1 - omega * c1 * t,
        v2 - omega * c2 * t,
        e,
        q + (32real * r) * k,
        1real,
    );
}

/// The coefficient shrinks with the swing, up to `2^(m - 42)`. As long as what is left of it is
/// more than that, it keeps its sign.
pub proof fn lemma_coefficient_shrinks(
    position: Double,
    velocity: Double,
    target: Double,
    omega: Double,
    dt: Double,
    decay: Double,
    n: int,
    k: int,
    m: int,
)
    requires
        is_tame(position, velocity, target, omega, dt, decay, n, k, m),
    ensures
        ({
            let c = coefficient(position, velocity, target, omega);
            let p = stepped_position(position, velocity, target, omega, dt, decay);
            let u = stepped_velocity(position, velocity, target, omega, dt, decay);
            let c1 = coefficient(p, u, target, omega);
            &&& c1.is_finite()
            &&& absolute(exact(c1) - exact(c) * exact(decay)) <= two(m - 42)
            &&& exact(c) * exact(decay) <= -two(m - 42) ==> c1.value() <= 0
            &&& exact(c) * exact(decay) >= two(m - 42) ==> c1.value() >= 0
        }),
{
    let x = exact(position) - exact(target);
    let (v, o, t, e) = (exact(velocity), exact(omega), exact(dt), exact(decay));
    let c = coefficient(position, velocity, target, omega);
    let cx = exact_coefficient(x, v, o);
    let p = stepped_position(position, velocity, target, omega, dt, decay);
    let u = stepped_velocity(position, velocity, target, omega, dt, decay);
    let c1 = coefficient(p, u, target, omega);
    let s = two(n + k - 48);
    let left = swing(position, velocity, target, omega, dt, decay);
    lemma_step_is_nearly_exact(position, velocity, target, omega, dt, decay, n, k, m);
    let (x1, v1) = (exact_displacement(x, v, o, t, e), exact_velocity(x, v, o, t, e));
    // The coefficient of the new position and velocity.
    lemma_sum_is_near(target, left);
    lemma_pow2_unfold((1074 + n + k + 8) as nat);
    lemma_within(u, n + k + 12, n + k + 13);
    lemma_coefficient_error(p, u, target, omega, n + k + 8);
    lemma_exact_within(omega, 5);
    lemma_scale(0);
    lemma_two(0);
    let y = exact(p) - exact(target);
    lemma_perturbed(y, exact(u), x1, v1, o, 0real, 0real, two(m - 49), two(n + k - 38), 0real);
    lemma_exact_coefficient(x, v, o, t, e);
    // The old one.
    lemma_coefficient_error(position, velocity, target, omega, n);
    lemma_exact_within(decay, 0);
    lemma_scaled_error(exact(c), cx, e, 5real * two(n - 48), 1real);
    lemma_scale(n + k - 48);
    lemma_two_order(n - 48, n + k - 48);
    lemma_two_order(n + k - 48, m - 55);
    lemma_scale(m - 55);
    lemma_scale(m - 50);
    let far = exact_coefficient(y, exact(u), o);
    lemma_errors_add(exact(c1), far, cx * e, 1280real * s, 1024real * s + 32real * two(m - 49));
    lemma_errors_add(
        exact(c1),
        cx * e,
        exact(c) * e,
        2304real * s + 32real * two(m - 49),
        5real * s,
    );
    lemma_sign_of_exact(c1);
}

/// Springs do not overshoot, step after step: while a spring has not passed its target, its
/// coefficient does not carry it there, and what is left of the coefficient after a step is more
/// than rounding, the same holds after the step.
pub proof fn lemma_springs_do_not_overshoot(
    position: Double,
    velocity: Double,
    target: Double,
    omega: Double,
    dt: Double,
    decay: Double,
    n: int,
    k: int,
    m: int,
)
    requires
        is_tame(position, velocity, target, omega, dt, decay, n, k, m),
        dt.value() >= 0,
        decay.value() >= 0,
    ensures
        ({
            let c = exact(coefficient(position, velocity, target, omega)) * exact(decay);
            let p = stepped_position(position, velocity, target, omega, dt, decay);
            let u = stepped_velocity(position, velocity, target, omega, dt, decay);
            let c1 = coefficient(p, u, target, omega);
            &&& position.le(target) && c <= -two(m - 42) ==> p.le(target) && c1.value() <= 0
            &&& target.le(position) && c >= two(m - 42) ==> target.le(p) && c1.value() >= 0
        }),
{
    let c = coefficient(position, velocity, target, omega);
    lemma_coefficient_shrinks(position, velocity, target, omega, dt, decay, n, k, m);
    lemma_step_is_nearly_exact(position, velocity, target, omega, dt, decay, n, k, m);
    lemma_no_overshoot(position, velocity, target, omega, dt, decay);
    lemma_sign_of_exact(c);
    lemma_sign_of_exact(decay);
    lemma_keeps_sign(exact(c), exact(decay));
    lemma_two(m - 42);
}

/// A spring that is let go from rest and whose swing shrinks as the exponential function does, by
/// more than rounding, gets no further away from its target, stays on its side of it, and its
/// velocity does not point away from it.
pub proof fn lemma_release_comes_nearer(
    position: Double,
    velocity: Double,
    target: Double,
    omega: Double,
    dt: Double,
    decay: Double,
    n: int,
    k: int,
    m: int,
)
    requires
        is_tame(position, velocity, target, omega, dt, decay, n, k, m),
        is_zero(velocity),
        omega.value() >= 0,
        dt.value() >= 0,
        decay.value() >= 0,
        ((1real + exact(omega) * exact(dt)) * exact(decay)) * absolute(
            exact(position) - exact(target),
        ) + two(m - 49) <= absolute(exact(position) - exact(target)),
    ensures
        ({
            let p = stepped_position(position, velocity, target, omega, dt, decay);
            let u = stepped_velocity(position, velocity, target, omega, dt, decay);
            &&& absolute(exact(p) - exact(target)) <= absolute(exact(position) - exact(target))
            &&& position.le(target) ==> p.le(target) && u.value() >= 0
            &&& target.le(position) ==> target.le(p) && u.value() <= 0
        }),
{
    let x = exact(position) - exact(target);
    let (o, t, e) = (exact(omega), exact(dt), exact(decay));
    lemma_step_is_nearly_exact(position, velocity, target, omega, dt, decay, n, k, m);
    lemma_release_does_not_overshoot(position, velocity, target, omega, dt, decay);
    lemma_sign_of_exact(velocity);
    lemma_sign_of_exact(omega);
    lemma_sign_of_exact(dt);
    lemma_sign_of_exact(decay);
    lemma_exact_release(x, o, t, e);
    lemma_release_velocity(position, velocity, target, omega, dt, decay);
}

/// The way of a step that is a little longer or shorter.
proof fn lemma_retimed(
    x: real,
    v: real,
    o: real,
    t1: real,
    e1: real,
    t2: real,
    e2: real,
    n: int,
    k: int,
)
    requires
        absolute(x) <= two(n),
        absolute(v) <= two(n + 5),
        absolute(o) <= 32real,
        absolute(t1) <= two(k),
        absolute(e2) <= 1real,
        absolute(t1 - t2) <= two(k - 50),
        absolute(e1 - e2) <= two(-50),
        -200 <= n <= 200,
        0 <= k <= 200,
    ensures
        absolute(exact_displacement(x, v, o, t1, e1) - exact_displacement(x, v, o, t2, e2)) <= two(
            n + k - 42,
        ),
        absolute(exact_velocity(x, v, o, t1, e1) - exact_velocity(x, v, o, t2, e2)) <= two(
            n + k - 37,
        ),
{
    let c = exact_coefficient(x, v, o);
    let zero = 0real;
    lemma_scale(n);
    lemma_scale(n + k - 50);
    lemma_scale(n + k);
    lemma_two_order(n, n + k);
    lemma_two_order(0, k);
    lemma_two(0);
    lemma_two(-50 + 1);
    // How large the coefficient is.
    lemma_scaled_error(x, zero, o, two(n), 32real);
    lemma_regroups(x, o, 1real);
    assert(zero * o == 0real);
    assert(absolute(c) <= 64real * two(n));
    let a = o * c;
    lemma_scaled_error(c, zero, o, 64real * two(n), 32real);
    lemma_regroups(c, o, 1real);
    assert(absolute(a) <= 2048real * two(n));
    // Another time.
    lemma_two_adds(n, k);
    lemma_two_adds(n, k - 50);
    lemma_two_adds(n + k, -50);
    lemma_scaled_error(t1, t2, c, two(k - 50), 64real * two(n));
    lemma_regroups(t1, c, 1real);
    lemma_regroups(t2, c, 1real);
    lemma_regroups(64real, two(n), two(k - 50));
    lemma_regroups(two(k - 50), 64real * two(n), 1real);
    assert(absolute(c * t1 - c * t2) <= 64real * two(n + k - 50));
    lemma_scaled_error(t1, t2, a, two(k - 50), 2048real * two(n));
    lemma_regroups(t1, a, 1real);
    lemma_regroups(t2, a, 1real);
    lemma_regroups(2048real, two(n), two(k - 50));
    lemma_regroups(two(k - 50), 2048real * two(n), 1real);
    assert(absolute(a * t1 - a * t2) <= 2048real * two(n + k - 50));
    // How large what shrinks is.
    lemma_scaled_error(c, zero, t1, 64real * two(n), two(k));
    lemma_regroups(64real, two(n), two(k));
    assert(zero * t1 == 0real);
    let w = x + c * t1;
    assert(absolute(w) <= 65real * two(n + k));
    lemma_scaled_error(a, zero, t1, 2048real * two(n), two(k));
    lemma_regroups(2048real, two(n), two(k));
    let z = v - a * t1;
    assert(absolute(z) <= 2080real * two(n + k));
    // Another decay.
    lemma_scaled_error(e1, e2, w, two(-50), 65real * two(n + k));
    lemma_regroups(e1, w, 1real);
    lemma_regroups(e2, w, 1real);
    lemma_regroups(65real, two(n + k), two(-50));
    lemma_regroups(two(-50), 65real * two(n + k), 1real);
    assert(absolute(w * e1 - w * e2) <= 65real * two(n + k - 50));
    lemma_scaled_error(e1, e2, z, two(-50), 2080real * two(n + k));
    lemma_regroups(e1, z, 1real);
    lemma_regroups(e2, z, 1real);
    lemma_regroups(2080real, two(n + k), two(-50));
    lemma_regroups(two(-50), 2080real * two(n + k), 1real);
    assert(absolute(z * e1 - z * e2) <= 2080real * two(n + k - 50));
    lemma_scaled_error(w, x + c * t2, e2, 64real * two(n + k - 50), 1real);
    lemma_scaled_error(z, v - a * t2, e2, 2048real * two(n + k - 50), 1real);
    lemma_scale(n + k - 40);
    lemma_two(n + k - 39);
}

/// The motion does not depend on the frame rate, up to rounding: two steps end where one step over
/// the time of both ends, within `2^(m + k - 42)` pixels, and as fast, within `2^(m + k - 37)`
/// pixels per second.
pub proof fn lemma_frame_rate_does_not_matter(
    position: Double,
    velocity: Double,
    target: Double,
    omega: Double,
    dt1: Double,
    decay1: Double,
    dt2: Double,
    decay2: Double,
    dt: Double,
    decay: Double,
    n: int,
    k: int,
    m: int,
)
    requires
        is_tame(position, velocity, target, omega, dt1, decay1, n, k, m),
        is_tame(
            stepped_position(position, velocity, target, omega, dt1, decay1),
            stepped_velocity(position, velocity, target, omega, dt1, decay1),
            target,
            omega,
            dt2,
            decay2,
            n,
            k,
            m,
        ),
        is_tame(position, velocity, target, omega, dt, decay, n, k, m),
        absolute(exact(dt) - (exact(dt1) + exact(dt2))) <= two(k - 50),
        absolute(exact(decay) - exact(decay1) * exact(decay2)) <= two(-50),
    ensures
        ({
            let p1 = stepped_position(position, velocity, target, omega, dt1, decay1);
            let u1 = stepped_velocity(position, velocity, target, omega, dt1, decay1);
            let p2 = stepped_position(p1, u1, target, omega, dt2, decay2);
            let u2 = stepped_velocity(p1, u1, target, omega, dt2, decay2);
            let p = stepped_position(position, velocity, target, omega, dt, decay);
            let u = stepped_velocity(position, velocity, target, omega, dt, decay);
            &&& absolute(exact(p2) - exact(p)) <= two(m + k - 42)
            &&& absolute(exact(u2) - exact(u)) <= two(m + k - 37)
        }),
{
    let p1 = stepped_position(position, velocity, target, omega, dt1, decay1);
    let u1 = stepped_velocity(position, velocity, target, omega, dt1, decay1);
    let p2 = stepped_position(p1, u1, target, omega, dt2, decay2);
    let u2 = stepped_velocity(p1, u1, target, omega, dt2, decay2);
    let p = stepped_position(position, velocity, target, omega, dt, decay);
    let u = stepped_velocity(position, velocity, target, omega, dt, decay);
    let g = exact(target);
    let (x, v, o) = (exact(position) - g, exact(velocity), exact(omega));
    let (t1, e1, t2, e2) = (exact(dt1), exact(decay1), exact(dt2), exact(decay2));
    let (t, e) = (exact(dt), exact(decay));
    let (a, b) = (two(m - 49), two(n + k - 38));
    lemma_step_is_nearly_exact(position, velocity, target, omega, dt1, decay1, n, k, m);
    lemma_step_is_nearly_exact(p1, u1, target, omega, dt2, decay2, n, k, m);
    lemma_step_is_nearly_exact(position, velocity, target, omega, dt, decay, n, k, m);
    let (x1, v1) = (exact_displacement(x, v, o, t1, e1), exact_velocity(x, v, o, t1, e1));
    let (y, w) = (exact(p1) - g, exact(u1));
    lemma_exact_within(omega, 5);
    lemma_exact_within(dt2, k);
    lemma_exact_within(dt, k);
    lemma_exact_within(decay1, 0);
    lemma_exact_within(decay2, 0);
    lemma_exact_within(velocity, n + 5);
    lemma_difference_error(position, target, n);
    lemma_scale(0);
    lemma_two(0);
    // The second step from where the first one ends.
    lemma_perturbed(y, w, x1, v1, o, t2, e2, a, b, two(k));
    lemma_exact_steps_are_one_step(x, v, o, t1, e1, t2, e2);
    // The one step.
    lemma_scaled_error(e1, 0real, e2, 1real, 1real);
    assert(0real * e2 == 0real);
    lemma_retimed(x, v, o, t, e, t1 + t2, e1 * e2, n, k);
    // All errors together.
    lemma_total_of_steps(n, k, m);
    lemma_errors_add(
        exact(p2),
        g + exact_displacement(y, w, o, t2, e2),
        g + exact_displacement(x, v, o, t1 + t2, e1 * e2),
        a,
        a + (b + 32real * a) * two(k),
    );
    lemma_errors_add(
        exact(u2),
        exact_velocity(y, w, o, t2, e2),
        exact_velocity(x, v, o, t1 + t2, e1 * e2),
        b,
        b + (32real * (b + 32real * a)) * two(k),
    );
}

/// The errors of two steps and of one, with those of the time and the decay.
proof fn lemma_total_of_steps(n: int, k: int, m: int)
    requires
        -200 <= n <= 200,
        0 <= k <= 200,
        n + k + 7 <= m <= 800,
    ensures
        ({
            let (a, b) = (two(m - 49), two(n + k - 38));
            &&& 3real * a + (b + 32real * a) * two(k) + two(n + k - 42) <= two(m + k - 42)
            &&& 3real * b + (32real * (b + 32real * a)) * two(k) + two(n + k - 37) <= two(
                m + k - 37,
            )
        }),
{
    let (a, b) = (two(m - 49), two(n + k - 38));
    lemma_two_order(n + k - 42, m - 49);
    lemma_two_order(n + k - 38, m - 45);
    lemma_two_order(n + k - 37, m - 44);
    lemma_scale(m - 49);
    lemma_scale(m + k - 49);
    lemma_scale(m + k - 43);
    lemma_two_order(m - 49, m + k - 49);
    lemma_two_adds(m - 49, k);
    lemma_two_order(0, k);
    lemma_factor_out(b, a, 16real * a, two(k), two(m + k - 49));
}

proof fn lemma_factor_out(b: real, a: real, most: real, k: real, ak: real)
    requires
        0real <= b <= most,
        most == 16real * a,
        k >= 0real,
        a * k == ak,
    ensures
        (b + 32real * a) * k <= 48real * ak,
        (32real * (b + 32real * a)) * k <= 1536real * ak,
{
    assert((b + 32real * a) * k <= (48real * a) * k) by (nonlinear_arith)
        requires
            b + 32real * a <= 48real * a,
            k >= 0real,
    ;
    lemma_regroups(48real, a, k);
    lemma_regroups(32real, b + 32real * a, k);
}

/// How large the coefficient of a spring can be: the sum of what goes into it.
pub open spec fn coefficient_size(d: real, v: real, omega: real) -> real {
    absolute(v) + absolute(d) * absolute(omega)
}

/// How large the new position of a spring can be: the sum of what goes into it.
pub open spec fn position_size(
    d: real,
    v: real,
    target: real,
    omega: real,
    t: real,
    e: real,
) -> real {
    absolute(target) + (absolute(d) + coefficient_size(d, v, omega) * absolute(t)) * absolute(e)
}

/// How large the new velocity of a spring can be: the sum of what goes into it.
pub open spec fn velocity_size(d: real, v: real, omega: real, t: real, e: real) -> real {
    (absolute(v) + (coefficient_size(d, v, omega) * absolute(omega)) * absolute(t)) * absolute(e)
}

/// How many grains the error of the new position of a spring has at most.
pub open spec fn position_grains(t: real, e: real) -> real {
    2real * (2real * ((2real * (2real * (2real * absolute(t)) + 1real)) * absolute(e)) + 1real)
}

/// How many grains the error of the new velocity of a spring has at most.
pub open spec fn velocity_grains(omega: real, t: real, e: real) -> real {
    2real * ((2real * (2real * ((2real * (2real * absolute(omega)) + 1real) * absolute(t)) + 1real))
        * absolute(e)) + 1real
}

/// The coefficient of a spring stands for the exact one.
proof fn lemma_coefficient_is_near(
    position: Double,
    velocity: Double,
    target: Double,
    omega: Double,
)
    requires
        position.is_finite(),
        target.is_finite(),
        coefficient(position, velocity, target, omega).is_finite(),
    ensures
        ({
            let d = exact(position) - exact(target);
            let (v, o) = (exact(velocity), exact(omega));
            &&& velocity.is_finite() && omega.is_finite()
            &&& is_near(position.sub(target), d, 1real, absolute(d), 0real)
            &&& is_near(
                coefficient(position, velocity, target, omega),
                exact_coefficient(d, v, o),
                5real,
                coefficient_size(d, v, o),
                2real,
            )
        }),
{
    let x = position.sub(target);
    let d = exact(position) - exact(target);
    let (v, o) = (exact(velocity), exact(omega));
    let pull = omega.mul(x);
    lemma_finite_sum(velocity, pull);
    lemma_finite_product(omega, x);
    lemma_near_difference(position, target);
    lemma_product_is_commutative(omega, x);
    lemma_near_product(x, omega, d, 1real, absolute(d), 0real, absolute(o));
    assert(0real * absolute(o) == 0real);
    lemma_near_itself(velocity);
    lemma_near(velocity, v, 0real, absolute(v), 0real, 3real, absolute(v), 0real);
    lemma_near_sum(
        velocity,
        pull,
        v,
        d * o,
        3real,
        absolute(v),
        absolute(d) * absolute(o),
        0real,
        1real,
    );
    lemma_regroups(d, o, 1real);
}

/// A step stands for the exact one, whatever the numbers are, as long as the results are finite.
pub proof fn lemma_step_is_near(
    position: Double,
    velocity: Double,
    target: Double,
    omega: Double,
    dt: Double,
    decay: Double,
)
    requires
        stepped_position(position, velocity, target, omega, dt, decay).is_finite(),
        stepped_velocity(position, velocity, target, omega, dt, decay).is_finite(),
    ensures
        ({
            let g = exact(target);
            let d = exact(position) - g;
            let (v, o, t, e) = (exact(velocity), exact(omega), exact(dt), exact(decay));
            &&& is_near(
                stepped_position(position, velocity, target, omega, dt, decay),
                g + exact_displacement(d, v, o, t, e),
                13real,
                position_size(d, v, g, o, t, e),
                position_grains(t, e),
            )
            &&& is_near(
                stepped_velocity(position, velocity, target, omega, dt, decay),
                exact_velocity(d, v, o, t, e),
                13real,
                velocity_size(d, v, o, t, e),
                velocity_grains(o, t, e),
            )
        }),
{
    let g = exact(target);
    let d = exact(position) - g;
    let (v, o, t, e) = (exact(velocity), exact(omega), exact(dt), exact(decay));
    let x = position.sub(target);
    let c = coefficient(position, velocity, target, omega);
    let ct = c.mul(dt);
    let way = x.add(ct);
    let left = way.mul(decay);
    lemma_finite_sum(target, left);
    lemma_finite_product(way, decay);
    lemma_finite_sum(x, ct);
    lemma_finite_product(c, dt);
    lemma_finite_sum(position, target.neg());
    lemma_coefficient_is_near(position, velocity, target, omega);
    let cx = exact_coefficient(d, v, o);
    let cs = coefficient_size(d, v, o);
    let (ad, av, ao, at, ae) = (absolute(d), absolute(v), absolute(o), absolute(t), absolute(e));
    // The position.
    lemma_near_product(c, dt, cx, 5real, cs, 2real, at);
    lemma_near(x, d, 1real, ad, 0real, 7real, ad, 0real);
    lemma_near_sum(x, ct, d, cx * t, 7real, ad, cs * at, 0real, 2real * (2real * at) + 1real);
    let n = 2real * (2real * (2real * at) + 1real);
    lemma_near_product(way, decay, d + cx * t, 9real, ad + cs * at, n, ae);
    lemma_near_itself(target);
    lemma_near(target, g, 0real, absolute(g), 0real, 11real, absolute(g), 0real);
    lemma_near_sum(
        target,
        left,
        g,
        (d + cx * t) * e,
        11real,
        absolute(g),
        (ad + cs * at) * ae,
        0real,
        2real * (n * ae) + 1real,
    );
    // The velocity.
    let brake = omega.mul(c);
    let slow = brake.mul(dt);
    let rest = velocity.sub(slow);
    lemma_finite_product(rest, decay);
    lemma_finite_sum(velocity, slow.neg());
    lemma_negated(slow);
    lemma_finite_product(brake, dt);
    lemma_product_is_commutative(omega, c);
    lemma_near_product(c, omega, cx, 5real, cs, 2real, ao);
    let n1 = 2real * (2real * ao) + 1real;
    lemma_near_product(brake, dt, cx * o, 7real, cs * ao, n1, at);
    lemma_near_itself(velocity);
    lemma_near(velocity, v, 0real, av, 0real, 9real, av, 0real);
    let n2 = 2real * (n1 * at) + 1real;
    lemma_near_subtraction(
        velocity,
        slow,
        v,
        (cx * o) * t,
        9real,
        av,
        (cs * ao) * at,
        0real,
        n2,
    );
    lemma_near_product(
        rest,
        decay,
        v - (cx * o) * t,
        11real,
        av + (cs * ao) * at,
        2real * n2,
        ae,
    );
    lemma_regroups(o, cx, 1real);
}

/// What the error of the new position of a spring counts at most.
pub open spec fn position_slack(
    position: Double,
    velocity: Double,
    target: Double,
    omega: Double,
    dt: Double,
    decay: Double,
) -> real {
    let g = exact(target);
    let d = exact(position) - g;
    13real * position_size(d, exact(velocity), g, exact(omega), exact(dt), exact(decay)) + grain()
        * position_grains(exact(dt), exact(decay))
}

/// What the error of the new velocity of a spring counts at most.
pub open spec fn velocity_slack(
    position: Double,
    velocity: Double,
    target: Double,
    omega: Double,
    dt: Double,
    decay: Double,
) -> real {
    let d = exact(position) - exact(target);
    13real * velocity_size(d, exact(velocity), exact(omega), exact(dt), exact(decay)) + grain()
        * velocity_grains(exact(omega), exact(dt), exact(decay))
}

/// What comes of a displacement that is off by `p` and a velocity that is off by `q`, for any
/// frequency.
proof fn lemma_perturbed_step(
    d1: real,
    v1: real,
    d2: real,
    v2: real,
    omega: real,
    t: real,
    e: real,
    p: real,
    q: real,
)
    requires
        absolute(d1 - d2) <= p,
        absolute(v1 - v2) <= q,
    ensures
        absolute(
            exact_displacement(d1, v1, omega, t, e) - exact_displacement(d2, v2, omega, t, e),
        ) <= (p + (q + p * absolute(omega)) * absolute(t)) * absolute(e),
        absolute(exact_velocity(d1, v1, omega, t, e) - exact_velocity(d2, v2, omega, t, e)) <= (q
            + ((q + p * absolute(omega)) * absolute(omega)) * absolute(t)) * absolute(e),
{
    let (c1, c2) = (exact_coefficient(d1, v1, omega), exact_coefficient(d2, v2, omega));
    let (o, at) = (absolute(omega), absolute(t));
    let r = q + p * o;
    lemma_scaled_error(d1, d2, omega, p, o);
    lemma_regroups(d1, omega, 1real);
    lemma_regroups(d2, omega, 1real);
    assert(absolute(c1 - c2) <= r);
    lemma_scaled_error(c1, c2, t, r, at);
    lemma_scaled_error(d1 + c1 * t, d2 + c2 * t, e, p + r * at, absolute(e));
    lemma_scaled_error(c1, c2, omega, r, o);
    lemma_regroups(c1, omega, 1real);
    lemma_regroups(c2, omega, 1real);
    lemma_scaled_error(omega * c1, omega * c2, t, r * o, at);
    lemma_scaled_error(
        v1 - omega * c1 * t,
        v2 - omega * c2 * t,
        e,
        q + (r * o) * at,
        absolute(e),
    );
}

/// The motion does not depend on the frame rate, up to rounding, whatever the frequency is: the
/// positions and the velocities to which two steps and one step lead differ by at most the errors
/// of the three steps, what comes of the errors of the first step in the second one, and what the
/// exact motion differs by if the times or the decays do not quite match.
pub proof fn lemma_any_frame_rate(
    position: Double,
    velocity: Double,
    target: Double,
    omega: Double,
    dt1: Double,
    decay1: Double,
    dt2: Double,
    decay2: Double,
    dt: Double,
    decay: Double,
)
    requires
        ({
            let p1 = stepped_position(position, velocity, target, omega, dt1, decay1);
            let u1 = stepped_velocity(position, velocity, target, omega, dt1, decay1);
            &&& p1.is_finite() && u1.is_finite()
            &&& stepped_position(p1, u1, target, omega, dt2, decay2).is_finite()
            &&& stepped_velocity(p1, u1, target, omega, dt2, decay2).is_finite()
            &&& stepped_position(position, velocity, target, omega, dt, decay).is_finite()
            &&& stepped_velocity(position, velocity, target, omega, dt, decay).is_finite()
        }),
    ensures
        ({
            let p1 = stepped_position(position, velocity, target, omega, dt1, decay1);
            let u1 = stepped_velocity(position, velocity, target, omega, dt1, decay1);
            let p2 = stepped_position(p1, u1, target, omega, dt2, decay2);
            let u2 = stepped_velocity(p1, u1, target, omega, dt2, decay2);
            let p = stepped_position(position, velocity, target, omega, dt, decay);
            let u = stepped_velocity(position, velocity, target, omega, dt, decay);
            let (x, v, o) = (exact(position) - exact(target), exact(velocity), exact(omega));
            let a = position_slack(position, velocity, target, omega, dt1, decay1);
            let b = velocity_slack(position, velocity, target, omega, dt1, decay1);
            let (t, e) = (exact(dt1) + exact(dt2), exact(decay1) * exact(decay2));
            let (ao, at, ae) = (absolute(o), absolute(exact(dt2)), absolute(exact(decay2)));
            &&& counted(exact(p2) - exact(p)) <= position_slack(
                position,
                velocity,
                target,
                omega,
                dt,
                decay,
            ) + position_slack(p1, u1, target, omega, dt2, decay2) + (a + (b + a * ao) * at) * ae
                + counted(
                exact_displacement(x, v, o, exact(dt), exact(decay)) - exact_displacement(
                    x,
                    v,
                    o,
                    t,
                    e,
                ),
            )
            &&& counted(exact(u2) - exact(u)) <= velocity_slack(
                position,
                velocity,
                target,
                omega,
                dt,
                decay,
            ) + velocity_slack(p1, u1, target, omega, dt2, decay2) + (b + ((b + a * ao) * ao) * at)
                * ae + counted(
                exact_velocity(x, v, o, exact(dt), exact(decay)) - exact_velocity(x, v, o, t, e),
            )
        }),
{
    let big = 9007199254740992real;
    let p1 = stepped_position(position, velocity, target, omega, dt1, decay1);
    let u1 = stepped_velocity(position, velocity, target, omega, dt1, decay1);
    let g = exact(target);
    let (x, v, o) = (exact(position) - g, exact(velocity), exact(omega));
    let (t1, e1, t2, e2) = (exact(dt1), exact(decay1), exact(dt2), exact(decay2));
    let a = position_slack(position, velocity, target, omega, dt1, decay1);
    let b = velocity_slack(position, velocity, target, omega, dt1, decay1);
    lemma_step_is_near(position, velocity, target, omega, dt1, decay1);
    lemma_step_is_near(p1, u1, target, omega, dt2, decay2);
    lemma_step_is_near(position, velocity, target, omega, dt, decay);
    let (x1, v1) = (exact_displacement(x, v, o, t1, e1), exact_velocity(x, v, o, t1, e1));
    let (y, w) = (exact(p1) - g, exact(u1));
    // The exact second step, in `2^-53`.
    lemma_perturbed_step(big * y, big * w, big * x1, big * v1, o, t2, e2, a, b);
    lemma_scaled_step(y, w, o, t2, e2, big);
    lemma_scaled_step(x1, v1, o, t2, e2, big);
    lemma_exact_steps_are_one_step(x, v, o, t1, e1, t2, e2);
}

/// A step of something larger.
proof fn lemma_scaled_step(d: real, v: real, omega: real, t: real, e: real, s: real)
    ensures
        exact_displacement(s * d, s * v, omega, t, e) == s * exact_displacement(d, v, omega, t, e),
        exact_velocity(s * d, s * v, omega, t, e) == s * exact_velocity(d, v, omega, t, e),
{
    let c = exact_coefficient(d, v, omega);
    lemma_regroups(omega, s, d);
    lemma_regroups(s, omega, 1real);
    lemma_regroups(s, omega, d);
    lemma_distributes(v, omega * d, s);
    assert(exact_coefficient(s * d, s * v, omega) == s * c);
    lemma_regroups(s, c, t);
    lemma_distributes(d, c * t, s);
    lemma_regroups(s, d + c * t, e);
    lemma_regroups(omega, s, c);
    lemma_regroups(s, omega, c);
    lemma_regroups(s, omega * c, t);
    lemma_distributes(v, omega * c * t, s);
    lemma_regroups(s, v, 1real);
    lemma_regroups(s, omega * c * t, 1real);
    lemma_regroups(v - omega * c * t, s, 1real);
    lemma_regroups(s, v - omega * c * t, e);
}

} // verus!
