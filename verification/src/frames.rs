//! Every motion ends, frame by frame.
use crate::accuracy::{
    absolute, exact, is_within, lemma_bounded, lemma_distributes, lemma_exact_within,
    lemma_keeps_sign, lemma_ordered, lemma_real_product, lemma_regroups, lemma_two, lemma_two_adds,
    lemma_two_order, lemma_within, two,
};
use crate::approx::{
    lemma_difference_relative, lemma_grain, lemma_quotient_relative, lemma_sum_relative,
};
use crate::coverage::lemma_order_of_exact;
use crate::double::Double;
use crate::exact::{is_whole, lemma_absolute, lemma_pattern_value, lemma_power_value};
use crate::geometry::POSITION_EPSILON;
use crate::motion::{
    exact_coefficient, exact_displacement, exact_velocity, lemma_exact_coefficient, lemma_scale,
    lemma_sign_of_exact, lemma_step_is_near,
};
use crate::spring::{
    decay_exponent, decays_by, lemma_advanced, lemma_count, lemma_part_of_second, lemma_seconds,
    lemma_steps, seconds, stepped_position, stepped_velocity, SpringState, NANOS_PER_SEC,
    VELOCITY_EPSILON,
};
use crate::steady::{
    is_exponential, is_sound, is_steady, is_steady_corner, lemma_advance_keeps_sound,
    lemma_exponent, lemma_exponential_shrinks, lemma_less_than_power, lemma_paced_exact,
    lemma_slack, lemma_sound_is_tethered, lemma_sound_springs_come_to_rest, lemma_step_is_finite,
    shrinks,
};
use vstd::arithmetic::div_mod::lemma_fundamental_div_mod;
use vstd::arithmetic::power2::{
    lemma2_to64_rest, lemma_pow2_adds, lemma_pow2_pos, lemma_pow2_unfold, pow2,
};
use vstd::prelude::*;

verus! {

/// What is left of the motion of a spring: its displacement, weighted by its frequency, and four
/// times what carries it on.
pub open spec fn energy(position: Double, velocity: Double, target: Double, omega: Double) -> real {
    exact_energy(exact(position) - exact(target), exact(velocity), exact(omega))
}

pub open spec fn exact_energy(d: real, v: real, o: real) -> real {
    o * absolute(d) + 4real * absolute(exact_coefficient(d, v, o))
}

/// The part of the energy that a step leaves.
pub open spec fn kept(o: real, t: real, e: real) -> real {
    (1real + o * t / 4real) * e
}

/// Without rounding, a step leaves a part of the energy.
proof fn lemma_exact_energy(d: real, v: real, o: real, t: real, e: real)
    requires
        20real <= o <= 32real,
        t >= 0real,
        e >= 0real,
    ensures
        ({
            let d1 = exact_displacement(d, v, o, t, e);
            let v1 = exact_velocity(d, v, o, t, e);
            exact_energy(d1, v1, o) <= kept(o, t, e) * exact_energy(d, v, o)
        }),
{
    let c = exact_coefficient(d, v, o);
    let d1 = exact_displacement(d, v, o, t, e);
    let v1 = exact_velocity(d, v, o, t, e);
    let x = o * t;
    let (m, n) = (absolute(d), absolute(c));
    let w = exact_energy(d, v, o);
    lemma_keeps_sign(o, t);
    lemma_exact_coefficient(d, v, o, t, e);
    lemma_bounded(c, e, n, e);
    lemma_bounded(c, t, n, t);
    let way = m + n * t;
    lemma_bounded(d + c * t, e, way, e);
    lemma_ordered(absolute(d1), way * e, o);
    // In terms of the energy.
    lemma_regroups(way, e, 1real);
    lemma_regroups(o, way, e);
    lemma_distributes(m, n * t, o);
    lemma_regroups(o, n, t);
    lemma_regroups(o, t, n);
    let s = o * m + x * n + 4real * n;
    assert(o * way == o * m + x * n);
    assert(o * absolute(d1) <= (o * m + x * n) * e);
    lemma_distributes(o * m + x * n, 4real * n, e);
    lemma_regroups(4real, n, e);
    assert(exact_energy(d1, v1, o) <= s * e);
    let q = x / 4real;
    lemma_distributes(1real, q, w);
    lemma_distributes(o * m, 4real * n, q);
    lemma_keeps_sign(o, m);
    lemma_keeps_sign(o * m, q);
    lemma_regroups(q, 4real * n, 1real);
    lemma_regroups(4real, n, q);
    lemma_regroups(q, o * m, 1real);
    lemma_regroups(4real, q, n);
    lemma_regroups(q, n, 1real);
    assert(q * (4real * n) == x * n);
    assert(s <= (1real + q) * w);
    lemma_ordered(s, (1real + q) * w, e);
    lemma_regroups(e, s, 1real);
    lemma_regroups(e, (1real + q) * w, 1real);
    lemma_regroups(1real + q, w, e);
}

/// A step leaves a part of the energy, up to rounding.
proof fn lemma_energy_step(
    position: Double,
    velocity: Double,
    target: Double,
    omega: Double,
    dt: Double,
    decay: Double,
    size: real,
)
    requires
        is_steady(position, velocity, target, size),
        omega.is_finite(),
        20real <= exact(omega) <= 32real,
        is_within(dt, 400),
        shrinks(omega, dt, decay),
        1real <= size <= two(97),
    ensures
        ({
            let p = stepped_position(position, velocity, target, omega, dt, decay);
            let u = stepped_velocity(position, velocity, target, omega, dt, decay);
            let k = kept(exact(omega), exact(dt), exact(decay));
            9007199254740992real * (energy(p, u, target, omega) - k * energy(
                position,
                velocity,
                target,
                omega,
            )) <= 95468real * size
        }),
{
    let (v, g, o, t, e) = (
        exact(velocity),
        exact(target),
        exact(omega),
        exact(dt),
        exact(decay),
    );
    let d = exact(position) - g;
    lemma_slack(exact(position), v, g, o, t, e, size);
    lemma_step_is_finite(position, velocity, target, omega, dt, decay, size);
    lemma_step_is_near(position, velocity, target, omega, dt, decay);
    lemma_exact_energy(d, v, o, t, e);
    let p = stepped_position(position, velocity, target, omega, dt, decay);
    let u = stepped_velocity(position, velocity, target, omega, dt, decay);
    let (d1, v1) = (exact_displacement(d, v, o, t, e), exact_velocity(d, v, o, t, e));
    let (d2, v2) = (exact(p) - g, exact(u));
    let delta = absolute(d2 - d1);
    assert(9007199254740992real * delta <= 315real * size);
    lemma_bounded(o, d2 - d1, 32real, delta);
    lemma_distributes(d2, d1, o);
    lemma_regroups(d2, o, 1real);
    lemma_regroups(d1, o, 1real);
    lemma_regroups(d2 - d1, o, 1real);
    assert(o * (d2 - d1) == o * d2 - o * d1);
    // The displacement.
    lemma_ordered(absolute(d2), absolute(d1) + delta, o);
    lemma_distributes(absolute(d1), delta, o);
    lemma_ordered(o, 32real, delta);
    lemma_regroups(o, delta, 1real);
    lemma_regroups(32real, delta, 1real);
}

/// How long a frame is, in seconds.
proof fn lemma_frame_seconds(nanos: u128)
    requires
        1_000_000 <= nanos <= 3_000_000_000,
    ensures
        ({
            let t = exact(seconds(nanos));
            let n = nanos as real;
            &&& seconds(nanos).is_finite()
            &&& 999real * n <= 1000000000000real * t <= 1001real * n
        }),
{
    let whole = (nanos / NANOS_PER_SEC) as nat;
    let part = (nanos % NANOS_PER_SEC) as nat;
    let (a, b, c) = (
        Double::nearest_to(whole),
        Double::nearest_to(part),
        Double::nearest_to(NANOS_PER_SEC as nat),
    );
    lemma2_to64_rest();
    lemma_pow2_adds(64, 62);
    lemma_pow2_pos(1074);
    lemma_count(whole);
    lemma_count(part);
    lemma_count(NANOS_PER_SEC as nat);
    lemma_seconds(nanos);
    let f = b.div(c);
    lemma_part_of_second(part);
    lemma_whole_exact(a, whole as int);
    lemma_whole_exact(b, part as int);
    lemma_whole_exact(c, NANOS_PER_SEC as int);
    lemma_quotient_relative(b, c);
    lemma_grain();
    lemma_sum_relative(a, f);
    assert(exact(c) == 1000000000real);
    assert(nanos as real == 1000000000real * exact(a) + exact(b));
}

/// The exact value of an integer.
pub proof fn lemma_whole_exact(x: Double, n: int)
    requires
        is_whole(x, n),
    ensures
        exact(x) == n as real,
{
    lemma_pow2_pos(1074);
    lemma_real_product(n, pow2(1074) as int);
    let (a, w) = (n as real, pow2(1074) as real);
    assert((a * w) / w == a) by (nonlinear_arith)
        requires
            w > 0real,
    ;
}

/// The part of the energy that is left after `n` nanoseconds: it halves every fifth of a second,
/// and goes down evenly in between.
pub open spec fn remaining(n: nat) -> real {
    two(-((n / 200_000_000) as int)) * (1real - (n % 200_000_000) as real / 400000000real)
}

/// The part that is left goes down by no more than `1 + y`, for `y` fifths of a second.
proof fn lemma_remaining(n: nat, nanos: nat)
    requires
        nanos <= 200_000_000,
        n < 100_000_000_000,
    ensures
        0real <= remaining(n) <= 1real,
        remaining(n + nanos) >= 0real,
        remaining(n + nanos) * (1real + nanos as real / 200000000real) >= remaining(n),
{
    let (k, r) = ((n / 200_000_000) as int, (n % 200_000_000) as real);
    let y = nanos as real / 200000000real;
    let z = r / 400000000real;
    let w = two(-k);
    lemma_two(0);
    lemma_two_order(-k, 0);
    lemma_two(-k);
    assert(0real <= z && 2real * z <= 1real && 0real <= y <= 1real);
    lemma_ordered(0real, 1real - z, w);
    lemma_ordered(1real - z, 1real, w);
    if n % 200_000_000 + nanos < 200_000_000 {
        assert((n + nanos) / 200_000_000 == n / 200_000_000);
        assert((n + nanos) % 200_000_000 == n % 200_000_000 + nanos);
        let next = 1real - z - y / 2real;
        assert(next * (1real + y) >= 1real - z) by (nonlinear_arith)
            requires
                next == 1real - z - y / 2real,
                0real <= y,
                2real * z + y <= 1real,
        ;
        lemma_regroups(w, next, 1real + y);
        lemma_ordered(1real - z, next * (1real + y), w);
        lemma_ordered(0real, next, w);
    } else {
        assert((n + nanos) / 200_000_000 == n / 200_000_000 + 1);
        assert((n + nanos) % 200_000_000 == n % 200_000_000 + nanos - 200_000_000);
        // From there on the bound goes down at half the pace.
        let next = (1real - (z + y / 2real - 1real / 2real)) / 2real;
        assert(next * (1real + y) >= 1real - z) by (nonlinear_arith)
            requires
                next == (1real - (z + y / 2real - 1real / 2real)) / 2real,
                y <= 1real,
                2real * z + y >= 1real,
        ;
        lemma_regroups(two(-k - 1), 2real, next);
        lemma_regroups(2real, two(-k - 1), next);
        assert(remaining(n + nanos) == w * next);
        lemma_regroups(w, next, 1real + y);
        lemma_ordered(1real - z, next * (1real + y), w);
        lemma_ordered(0real, next, w);
    }
}

/// Over `j` fifths of a second the part that is left halves `j` times, and not twice more in less
/// than a fifth of a second.
proof fn lemma_remaining_long(n: nat, nanos: nat, j: nat)
    requires
        n < 50_000_000_000,
        j * 200_000_000 <= nanos < (j + 1) * 200_000_000,
        j <= 20,
    ensures
        0real <= remaining(n) <= 1real,
        remaining(n + nanos) >= two(-(j as int) - 1) * remaining(n),
{
    let m = n + j * 200_000_000;
    let k = (n / 200_000_000) as int;
    let z = (n % 200_000_000) as real / 400000000real;
    assert(m / 200_000_000 == k + j && m % 200_000_000 == n % 200_000_000);
    lemma_two_adds(-k, -(j as int));
    lemma_regroups(two(-k), two(-(j as int)), 1real - z);
    lemma_regroups(two(-k), 1real - z, two(-(j as int)));
    lemma_regroups(remaining(n), two(-(j as int)), 1real);
    assert(remaining(m) == two(-(j as int)) * remaining(n));
    let rest = (nanos - j * 200_000_000) as nat;
    lemma_remaining(n, 0);
    lemma_remaining(m, rest);
    let (a, y) = (remaining(n + nanos), rest as real / 200000000real);
    assert(m + rest == n + nanos);
    lemma_ordered(1real + y, 2real, a);
    lemma_regroups(a, 2real, 1real);
    lemma_two(-(j as int));
    lemma_regroups(2real, two(-(j as int) - 1), remaining(n));
}

/// The energy of a spring is at most what is left of its bound.
pub open spec fn is_fading(
    position: Double,
    velocity: Double,
    target: Double,
    omega: Double,
    size: real,
    n: nat,
) -> bool {
    energy(position, velocity, target, omega) <= 4096real * (size * remaining(n)) + size
        / 400000000real
}

/// The arithmetic of one frame.
proof fn lemma_fading_arithmetic(after: real, before: real, k: real, g: real, h: real, size: real)
    requires
        size >= 1real,
        before <= 4096real * (size * g) + size / 400000000real,
        h >= k * g,
        k >= 0real,
        10000real * k <= 9951real,
        9007199254740992real * (after - k * before) <= 95468real * size,
    ensures
        after <= 4096real * (size * h) + size / 400000000real,
{
    let m = size / 400000000real;
    lemma_ordered(before, 4096real * (size * g) + m, k);
    lemma_distributes(4096real * (size * g), m, k);
    // The first part goes down with the bound.
    lemma_regroups(k, size * g, 1real);
    lemma_regroups(4096real, size * g, k);
    lemma_regroups(k, 4096real * (size * g), 1real);
    lemma_regroups(size, g, k);
    lemma_regroups(k, g, 1real);
    lemma_ordered(k * g, h, size);
    assert(k * (4096real * (size * g)) <= 4096real * (size * h));
    // The second part makes up for rounding.
    lemma_ordered(k, 9951real / 10000real, m);
    lemma_regroups(m, k, 1real);
}

/// A frame of at most a fifth of a second leaves no more of the energy than the bound does.
proof fn lemma_short_frame(x: real, y: real, e: real, g: real, h: real)
    requires
        e >= 0real,
        200real * y >= 1real,
        1000real * x >= 3996real * y,
        x <= 7real,
        (1real + x) * e <= 1real,
        h * (1real + y) >= g,
        g >= 0real,
    ensures
        ({
            let k = (1real + x / 4real) * e;
            k >= 0real && 10000real * k <= 9951real && h >= k * g
        }),
{
    let q = 1real + x / 4real;
    let k = q * e;
    lemma_keeps_sign(q, e);
    assert(q * (1real + y) <= 1real + x) by (nonlinear_arith)
        requires
            q == 1real + x / 4real,
            1000real * x >= 3996real * y,
            0real <= x <= 7real,
    ;
    lemma_ordered(q * (1real + y), 1real + x, e);
    lemma_regroups(e, q * (1real + y), 1real);
    lemma_regroups(e, 1real + x, 1real);
    lemma_regroups(q, 1real + y, e);
    let p = 1real + y;
    assert(k * p <= 1real);
    assert(10000real * k <= 9951real) by (nonlinear_arith)
        requires
            k * p <= 1real,
            200real * p >= 201real,
            k >= 0real,
    ;
    lemma_ordered(k * p, 1real, g);
    lemma_regroups(k, p, g);
    lemma_regroups(k, g, p);
    lemma_regroups(g, k * p, 1real);
    let s = k * g;
    assert(s * p <= h * p);
    assert(s <= h) by (nonlinear_arith)
        requires
            s * p <= h * p,
            p >= 1real,
    ;
}

/// The same of a longer frame, in which the swing shrinks to `2^-m`.
proof fn lemma_long_frame(x: real, e: real, m: nat, j: nat)
    requires
        0real <= e <= two(-(m as int)),
        0real <= x,
        1000real * x <= 1000real * m as real + 1001real,
        5real * (x * e) <= 2real,
        m <= 200,
        j >= 1,
        m >= 3 * j,
        j >= 2 ==> m >= 3 * j + 1,
    ensures
        0real <= (1real + x / 4real) * e <= two(-(j as int) - 1),
        two(-(j as int) - 1) <= 1real / 4real,
{
    let (u, v) = (m as int, j as int);
    let q = 1real + x / 4real;
    lemma_two(0);
    lemma_scale(-4);
    lemma_two_order(-v - 1, -2);
    lemma_keeps_sign(q, e);
    lemma_distributes(1real, x / 4real, e);
    lemma_regroups(x, 1real / 4real, e);
    lemma_regroups(x, e, 1real / 4real);
    assert(q * e == e + (x * e) / 4real);
    if j == 1 {
        lemma_two_order(-u, -3);
    } else {
        let p = (u - v - 1) as nat;
        lemma_less_than_power(p);
        lemma_power_is_two(p);
        assert(4real * two(p as int) >= 4real * (p as real + 1real));
        assert(3 * m >= 4 * j + 6);
        assert(q <= two(p as int));
        lemma_ordered(e, two(-u), q);
        lemma_two_order(-u, 0);
        lemma_ordered(q, two(p as int), two(-u));
        lemma_regroups(two(-u), q, 1real);
        lemma_two_adds(-u, p as int);
    }
}

/// A power of two as a real number.
pub proof fn lemma_power_is_two(p: nat)
    ensures
        two(p as int) == pow2(p) as real,
{
    lemma_pow2_adds(p, 1074);
    lemma_pow2_pos(1074);
    lemma_real_product(pow2(p) as int, pow2(1074) as int);
    let (a, w) = (pow2(p) as real, pow2(1074) as real);
    assert((a * w) / w == a) by (nonlinear_arith)
        requires
            w > 0real,
    ;
}

/// A corner whose springs fade, in both directions.
pub open spec fn corner_fading(s: SpringState, i: int, size: real, n: nat) -> bool {
    let (c, v, g, o) = (s.current[i], s.velocity[i], s.target[i], s.omega[i]);
    is_fading(c.x, v[0], g.x, o, size, n) && is_fading(c.y, v[1], g.y, o, size, n)
}

/// Steady springs begin within the bound.
proof fn lemma_fading_begins(
    position: Double,
    velocity: Double,
    target: Double,
    omega: Double,
    size: real,
)
    requires
        is_steady(position, velocity, target, size),
        20real <= exact(omega) <= 32real,
        size >= 1real,
    ensures
        is_fading(position, velocity, target, omega, size, 0),
{
    let (d, o) = (exact(position) - exact(target), exact(omega));
    lemma_two(0);
    let (k, z) = ((0nat / 200_000_000) as int, (0nat % 200_000_000) as real / 400000000real);
    assert(k == 0 && z == 0real);
    assert(two(-k) == 1real);
    lemma_regroups(two(-k), 1real - z, 1real);
    assert(remaining(0) == 1real);
    lemma_regroups(size, remaining(0), 1real);
    lemma_bounded(o, d, 32real, 9real * size);
    lemma_bounded(o, absolute(d), 32real, 9real * size);
}

/// A decay over more than a fifth of a second.
proof fn lemma_long_decay<E: Fn(Double) -> Double>(
    omega: Double,
    nanos: u128,
    exp: E,
    decay: Double,
    j: nat,
) -> (m: nat)
    requires
        omega.is_finite(),
        20real <= exact(omega) <= 32real,
        is_exponential(exp),
        call_ensures(exp, (decay_exponent(omega, seconds(nanos)),), decay),
        1 <= j <= 20,
        j * 200_000_000 <= nanos < (j + 1) * 200_000_000,
        nanos <= 3_000_000_000,
    ensures
        m <= 200,
        m >= 3 * j,
        j >= 2 ==> m >= 3 * j + 1,
        exact(decay) <= two(-(m as int)),
        1000real * (exact(omega) * exact(seconds(nanos))) <= 1000real * m as real + 1001real,
{
    let dt = seconds(nanos);
    let x = decay_exponent(omega, dt);
    let (o, t) = (exact(omega), exact(dt));
    lemma_seconds(nanos);
    lemma_frame_seconds(nanos);
    lemma_exponent(omega, dt);
    lemma_grain();
    lemma_ordered(o, 32real, t);
    lemma_regroups(o, t, 1real);
    let a = -exact(x);
    // The whole part of the exponent.
    let w = pow2(1074) as int;
    lemma_pow2_pos(1074);
    let v = -x.value();
    let m = v / w;
    lemma_fundamental_div_mod(v, w);
    assert(0 <= v % w < w);
    assert(m >= 0) by (nonlinear_arith)
        requires
            w * m + v % w == v,
            v >= 0,
            0 <= v % w < w,
    ;
    lemma_real_product(w, m);
    let (c, z, k) = (v as real, w as real, m as real);
    assert(x.value() as real == -c);
    assert((-c) / z == -(c / z)) by (nonlinear_arith)
        requires
            z > 0real,
    ;
    assert(z * k <= c < z * k + z);
    assert(k <= c / z < k + 1real) by (nonlinear_arith)
        requires
            z * k <= c < z * k + z,
            z > 0real,
    ;
    assert(k <= a < k + 1real);
    assert(w * m == m * w) by (nonlinear_arith);
    assert(a >= 399real * (j as real) / 100real);
    assert(m <= 200);
    assert(is_within(decay, -m));
    lemma_exact_within(decay, -m);
    m as nat
}

/// A frame keeps a spring within the bound.
proof fn lemma_fading_step<E: Fn(Double) -> Double>(
    position: Double,
    velocity: Double,
    target: Double,
    omega: Double,
    nanos: u128,
    exp: E,
    decay: Double,
    size: real,
    n: nat,
)
    requires
        is_steady(position, velocity, target, size),
        omega.is_finite(),
        20real <= exact(omega) <= 32real,
        1_000_000 <= nanos <= 3_000_000_000,
        shrinks(omega, seconds(nanos), decay),
        is_exponential(exp),
        call_ensures(exp, (decay_exponent(omega, seconds(nanos)),), decay),
        1real <= size <= two(97),
        n < 50_000_000_000,
        is_fading(position, velocity, target, omega, size, n),
    ensures
        ({
            let dt = seconds(nanos);
            let p = stepped_position(position, velocity, target, omega, dt, decay);
            let u = stepped_velocity(position, velocity, target, omega, dt, decay);
            is_fading(p, u, target, omega, size, n + nanos as nat)
        }),
{
    let dt = seconds(nanos);
    let (o, t, e) = (exact(omega), exact(dt), exact(decay));
    let x = o * t;
    lemma_seconds(nanos);
    lemma_within(dt, 127, 400);
    lemma_frame_seconds(nanos);
    lemma_ordered(20real, o, t);
    lemma_ordered(o, 32real, t);
    lemma_regroups(o, t, 1real);
    lemma_energy_step(position, velocity, target, omega, dt, decay, size);
    let (g, h) = (remaining(n), remaining(n + nanos as nat));
    let k = kept(o, t, e);
    if nanos < 200_000_000 {
        lemma_remaining(n, nanos as nat);
        lemma_short_frame(x, nanos as real / 200000000real, e, g, h);
    } else {
        let j = (nanos / 200_000_000) as nat;
        let m = lemma_long_decay(omega, nanos, exp, decay, j);
        lemma_long_frame(x, e, m, j);
        lemma_remaining_long(n, nanos as nat, j);
        lemma_ordered(k, two(-(j as int) - 1), g);
        lemma_regroups(g, k, 1real);
        lemma_regroups(g, two(-(j as int) - 1), 1real);
    }
    let p = stepped_position(position, velocity, target, omega, dt, decay);
    let u = stepped_velocity(position, velocity, target, omega, dt, decay);
    lemma_fading_arithmetic(
        energy(p, u, target, omega),
        energy(position, velocity, target, omega),
        k,
        g,
        h,
        size,
    );
}

/// The exact value of a magnitude.
pub proof fn lemma_exact_absolute(x: Double)
    requires
        x.is_finite(),
    ensures
        x.abs().is_finite(),
        exact(x.abs()) == absolute(exact(x)),
{
    lemma_absolute(x);
    lemma_sign_of_exact(x);
    lemma_pow2_pos(1074);
    let (v, w) = (x.value() as real, pow2(1074) as real);
    assert((-v) / w == -(v / w)) by (nonlinear_arith)
        requires
            w > 0real,
    ;
}

/// What does not show, as real numbers.
pub proof fn lemma_limits()
    ensures
        Double::from_bits(POSITION_EPSILON).is_finite(),
        Double::from_bits(VELOCITY_EPSILON).is_finite(),
        1000real * exact(Double::from_bits(POSITION_EPSILON)) >= 19real,
        2real * exact(Double::from_bits(VELOCITY_EPSILON)) == 1real,
{
    let (near, slow) = (Double::from_bits(POSITION_EPSILON), Double::from_bits(VELOCITY_EPSILON));
    lemma_pattern_value(near, 0x14_7ae1_47ae_147b, 1016);
    lemma_power_value(slow, 1073);
    lemma_pow2_unfold(1074);
    lemma2_to64_rest();
    lemma_pow2_adds(58, 1016);
    lemma_pow2_pos(1016);
    lemma_pow2_pos(1073);
    let (a, b, w) = (near.value() as real, slow.value() as real, pow2(1074) as real);
    assert(1000 * near.value() >= 19 * pow2(1074));
    assert(1000real * (a / w) >= 19real) by (nonlinear_arith)
        requires
            1000real * a >= 19real * w,
            w > 0real,
    ;
    assert(2real * (b / w) == 1real) by (nonlinear_arith)
        requires
            2real * b == w,
            w > 0real,
    ;
}

/// A spring with little energy is at its target and slow, up to what does not show.
proof fn lemma_quiet(position: Double, velocity: Double, target: Double, omega: Double)
    requires
        position.is_finite(),
        velocity.is_finite(),
        target.is_finite(),
        position.sub(target).is_finite(),
        20real <= exact(omega) <= 32real,
        1000real * energy(position, velocity, target, omega) <= 375real,
    ensures
        position.sub(target).abs().le(Double::from_bits(POSITION_EPSILON)),
        velocity.abs().le(Double::from_bits(VELOCITY_EPSILON)),
{
    let (d, v, o) = (exact(position) - exact(target), exact(velocity), exact(omega));
    let c = exact_coefficient(d, v, o);
    let m = absolute(d);
    lemma_ordered(20real, o, m);
    lemma_regroups(o, m, 1real);
    lemma_bounded(o, d, o, m);
    assert(20real * m <= o * m);
    lemma_difference_relative(position, target);
    lemma_exact_absolute(position.sub(target));
    lemma_exact_absolute(velocity);
    lemma_limits();
    lemma_order_of_exact(position.sub(target).abs(), Double::from_bits(POSITION_EPSILON));
    lemma_order_of_exact(velocity.abs(), Double::from_bits(VELOCITY_EPSILON));
}

/// The springs after a frame at each of the times.
pub open spec fn run(s: SpringState, times: Seq<u128>, decays: Seq<[Double; 4]>) -> SpringState
    decreases times.len(),
{
    if times.len() == 0 {
        s
    } else {
        run(s, times.drop_last(), decays.drop_last()).advanced(times.last(), decays.last())
    }
}

/// The frames follow each other after a millisecond or more, and the decays are what `exp` gives.
pub open spec fn is_run<E: Fn(Double) -> Double>(
    s: SpringState,
    times: Seq<u128>,
    decays: Seq<[Double; 4]>,
    exp: E,
) -> bool
    decreases times.len(),
{
    if times.len() == 0 {
        true
    } else {
        let before = run(s, times.drop_last(), decays.drop_last());
        &&& is_run(s, times.drop_last(), decays.drop_last(), exp)
        &&& times.last() - before.last_tick >= 1_000_000
        &&& decays_by(exp, before.exponents(times.last()), decays.last())
    }
}

/// A frame keeps the corners of sound springs within the bound.
proof fn lemma_frame_fades<E: Fn(Double) -> Double>(
    s: SpringState,
    now: u128,
    exp: E,
    decay: [Double; 4],
    size: real,
    n: nat,
    i: int,
)
    requires
        is_sound(s, size),
        s.moving,
        is_exponential(exp),
        decays_by(exp, s.exponents(now), decay),
        1_000_000 <= now - s.last_tick <= 3_000_000_000,
        n < 50_000_000_000,
        corner_fading(s, i, size, n),
        0 <= i < 4,
    ensures
        ({
            let moved = (SpringState { last_tick: now, ..s }).stepped(s.elapsed(now), decay);
            corner_fading(moved, i, size, (n + (now - s.last_tick)) as nat)
        }),
{
    let nanos = (now - s.last_tick) as u128;
    let (c, v, g, o) = (s.current[i], s.velocity[i], s.target[i], s.omega[i]);
    lemma_steps(s, now);
    lemma_exponential_shrinks(s, now, exp, decay);
    lemma_paced_exact(s.omega, i);
    assert(is_steady_corner(s, i, size));
    assert(shrinks(o, s.elapsed(now), decay[i]));
    assert(i == 0 || i == 1 || i == 2 || i == 3);
    lemma_fading_step(c.x, v[0], g.x, o, nanos, exp, decay[i], size, n);
    lemma_fading_step(c.y, v[1], g.y, o, nanos, exp, decay[i], size, n);
}

/// After enough time, the bound is so low that the motion does not show.
proof fn lemma_bound_is_low(b: int, n: nat)
    requires
        0 <= b <= 25,
        n < 100_000_000_000,
        n >= (b + 14) * 200_000_000,
    ensures
        1000real * (4096real * (two(b) * remaining(n)) + two(b) / 400000000real) <= 375real,
{
    let k = (n / 200_000_000) as int;
    let z = (n % 200_000_000) as real / 400000000real;
    assert(k >= b + 14);
    lemma_two_order(-k, -(b + 14));
    lemma_ordered(1real - z, 1real, two(-k));
    lemma_two_order(b, 25);
    lemma_ordered(remaining(n), two(-(b + 14)), two(b));
    lemma_two_adds(b, -(b + 14));
    lemma_two(0);
    lemma_scale(0);
    lemma_scale(10);
    lemma_scale(20);
    lemma_scale(-10);
    lemma_scale(-14);
}

/// What holds of sound springs frame by frame: they stay sound and aimed at their targets, and as
/// long as they move they fade. When they stop, they are at their targets.
proof fn lemma_frames<E: Fn(Double) -> Double>(
    s: SpringState,
    times: Seq<u128>,
    decays: Seq<[Double; 4]>,
    exp: E,
    b: int,
)
    requires
        0 <= b <= 25,
        is_sound(s, two(b)),
        is_exponential(exp),
        is_run(s, times, decays, exp),
    ensures
        ({
            let r = run(s, times, decays);
            let n = r.last_tick - s.last_tick;
            &&& is_sound(r, two(b))
            &&& r.target == s.target
            &&& 0 <= n
            &&& times.len() > 0 ==> r.last_tick == times.last()
            &&& s.moving && !r.moving ==> r == r.stopped()
            &&& !s.moving ==> !r.moving
            &&& r.moving && n < 50_000_000_000 ==> forall|i: int|
                0 <= i < 4 ==> #[trigger] corner_fading(r, i, two(b), n as nat)
            &&& times.len() > 0 && n >= (b + 14) * 200_000_000 ==> !r.moving
        }),
    decreases times.len(),
{
    let size = two(b);
    let r = run(s, times, decays);
    let n = r.last_tick - s.last_tick;
    if times.len() == 0 {
        assert forall|i: int| 0 <= i < 4 implies #[trigger] corner_fading(r, i, size, 0) by {
            let (c, v, g, o) = (s.current[i], s.velocity[i], s.target[i], s.omega[i]);
            assert(is_steady_corner(s, i, size));
            lemma_paced_exact(s.omega, i);
            lemma_fading_begins(c.x, v[0], g.x, o, size);
            lemma_fading_begins(c.y, v[1], g.y, o, size);
        }
    } else {
        let before = run(s, times.drop_last(), decays.drop_last());
        let (now, decay) = (times.last(), decays.last());
        lemma_frames(s, times.drop_last(), decays.drop_last(), exp, b);
        lemma_advance_keeps_sound(before, now, exp, decay, size, size);
        lemma_advanced(before, now, decay);
        lemma_steps(before, now);
        let m = before.last_tick - s.last_tick;
        if before.moving && now - before.last_tick >= 3_000_000_000 {
            lemma_sound_springs_come_to_rest(before, now, exp, decay, b);
        } else if r.moving {
            let moved = (SpringState { last_tick: now, ..before }).stepped(
                before.elapsed(now),
                decay,
            );
            assert(r == moved && !moved.settled());
            if n < 50_000_000_000 {
                assert forall|i: int| 0 <= i < 4 implies #[trigger] corner_fading(
                    r,
                    i,
                    size,
                    n as nat,
                ) by {
                    assert(corner_fading(before, i, size, m as nat));
                    lemma_frame_fades(before, now, exp, decay, size, m as nat, i);
                }
            }
            if n >= (b + 14) * 200_000_000 {
                assert(m < (b + 14) * 200_000_000 || times.len() == 1);
                lemma_bound_is_low(b, n as nat);
                assert forall|i: int| 0 <= i < 4 implies #[trigger] moved.corner_settled(i) by {
                    assert(corner_fading(r, i, size, n as nat));
                    lemma_corner_is_quiet(r, i, b);
                }
            }
        }
    }
}

/// A corner of sound springs with little energy is settled.
proof fn lemma_corner_is_quiet(s: SpringState, i: int, b: int)
    requires
        0 <= b <= 25,
        is_sound(s, two(b)),
        0 <= i < 4,
        ({
            let (c, v, g, o) = (s.current[i], s.velocity[i], s.target[i], s.omega[i]);
            &&& 1000real * energy(c.x, v[0], g.x, o) <= 375real
            &&& 1000real * energy(c.y, v[1], g.y, o) <= 375real
        }),
    ensures
        s.corner_settled(i),
{
    let (c, v, g, o) = (s.current[i], s.velocity[i], s.target[i], s.omega[i]);
    assert(is_steady_corner(s, i, two(b)));
    lemma_paced_exact(s.omega, i);
    lemma_sound_is_tethered(s, b, i);
    lemma_quiet(c.x, v[0], g.x, o);
    lemma_quiet(c.y, v[1], g.y, o);
}

/// Every motion ends, frame by frame, with the exponential function: sound springs whose targets
/// are at most `2^b` stand still at them when `(b + 14) / 5` seconds have passed without a new
/// target, in whatever frames of a millisecond or more each.
pub proof fn lemma_frames_come_to_rest<E: Fn(Double) -> Double>(
    s: SpringState,
    times: Seq<u128>,
    decays: Seq<[Double; 4]>,
    exp: E,
    b: int,
)
    requires
        0 <= b <= 25,
        is_sound(s, two(b)),
        is_exponential(exp),
        is_run(s, times, decays, exp),
        times.len() > 0,
        times.last() - s.last_tick >= (b + 14) * 200_000_000,
    ensures
        ({
            let r = run(s, times, decays);
            &&& !r.moving
            &&& r.target == s.target
            &&& s.moving ==> r == r.stopped()
        }),
{
    lemma_frames(s, times, decays, exp, b);
}

} // verus!
