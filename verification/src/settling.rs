//! What a frame does to the springs, in exact values: they follow the motion of a critically damped
//! spring, and stop just when that does not show any more.
use crate::accuracy::{
    absolute, exact, is_within, lemma_distributes, lemma_product_within, lemma_real_product,
    lemma_rounded_error, lemma_sum_within, lemma_within,
};
use crate::approx::{
    counted, grain, lemma_difference_relative, lemma_exact_negated, lemma_grain,
    lemma_product_relative, lemma_quotient_relative, lemma_sum_relative,
};
use crate::coverage::lemma_order_of_exact;
use crate::double::Double;
use crate::exact::{lemma_negated, lemma_pattern_value};
use crate::frames::{lemma_exact_absolute, lemma_limits, lemma_whole_exact};
use crate::geometry::{POSITION_EPSILON, ZERO};
use crate::motion::{
    exact_displacement, exact_velocity, lemma_step_is_near, position_grains, position_size,
    velocity_grains, velocity_size,
};
use crate::spring::{
    coefficient, decay_exponent, lemma_advanced, lemma_count, lemma_part_of_second, lemma_seconds,
    lemma_steps, seconds, stepped_position, stepped_velocity, still, SpringState, NANOS_PER_SEC,
    VELOCITY_EPSILON,
};
use vstd::arithmetic::power2::{lemma2_to64_rest, lemma_pow2_adds, lemma_pow2_pos, pow2};
use vstd::prelude::*;

verus! {

/// A spring in one direction, in exact values.
pub struct ExactSpring {
    pub position: real,
    pub velocity: real,
    pub target: real,
    pub omega: real,
}

impl ExactSpring {
    pub open spec fn displacement_after(self, t: real, e: real) -> real {
        exact_displacement(self.position - self.target, self.velocity, self.omega, t, e)
    }

    pub open spec fn velocity_after(self, t: real, e: real) -> real {
        exact_velocity(self.position - self.target, self.velocity, self.omega, t, e)
    }

    /// How far off rounding may put the position after a step.
    pub open spec fn position_error(self, t: real, e: real) -> real {
        let d = self.position - self.target;
        (13real * position_size(d, self.velocity, self.target, self.omega, t, e) + grain()
            * position_grains(t, e)) / 9007199254740992real
    }

    /// How far off rounding may put the velocity after a step.
    pub open spec fn velocity_error(self, t: real, e: real) -> real {
        let d = self.position - self.target;
        (13real * velocity_size(d, self.velocity, self.omega, t, e) + grain() * velocity_grains(
            self.omega,
            t,
            e,
        )) / 9007199254740992real
    }

    /// After a step the spring is at `p` with the velocity `u`, up to rounding.
    #[verifier::opaque]
    pub open spec fn leads_to(self, t: real, e: real, p: real, u: real) -> bool {
        &&& absolute(p - (self.target + self.displacement_after(t, e))) <= self.position_error(t, e)
        &&& absolute(u - self.velocity_after(t, e)) <= self.velocity_error(t, e)
    }

    /// After a step the spring is at most a fiftieth of a pixel off its target and not faster than
    /// half a pixel per second, up to rounding.
    #[verifier::opaque]
    pub open spec fn comes_to_rest(self, t: real, e: real) -> bool {
        &&& 1000000000000real * (absolute(self.displacement_after(t, e)) - self.position_error(
            t,
            e,
        )) <= 20000000001real
        &&& 2real * (absolute(self.velocity_after(t, e)) - self.velocity_error(t, e)) <= 1real
    }

    /// After a step the spring is more than that off its target, or faster, up to rounding.
    #[verifier::opaque]
    pub open spec fn goes_on(self, t: real, e: real) -> bool {
        ||| 1000000000000real * (absolute(self.displacement_after(t, e)) + self.position_error(
            t,
            e,
        )) > 19999999999real
        ||| 2real * (absolute(self.velocity_after(t, e)) + self.velocity_error(t, e)) > 1real
    }
}

/// The spring of a corner across.
pub open spec fn across(s: SpringState, i: int) -> ExactSpring {
    ExactSpring {
        position: exact(s.current[i].x),
        velocity: exact(s.velocity[i][0]),
        target: exact(s.target[i].x),
        omega: exact(s.omega[i]),
    }
}

/// The spring of a corner down.
pub open spec fn down(s: SpringState, i: int) -> ExactSpring {
    ExactSpring {
        position: exact(s.current[i].y),
        velocity: exact(s.velocity[i][1]),
        target: exact(s.target[i].y),
        omega: exact(s.omega[i]),
    }
}

/// Nothing about the corner is larger than `2^100`.
pub open spec fn is_moderate(s: SpringState, i: int) -> bool {
    &&& is_within(s.current[i].x, 100) && is_within(s.current[i].y, 100)
    &&& is_within(s.target[i].x, 100) && is_within(s.target[i].y, 100)
    &&& is_within(s.velocity[i][0], 100) && is_within(s.velocity[i][1], 100)
    &&& is_within(s.omega[i], 100)
}

/// A number of nanoseconds in seconds is off by at most `2^-50` of itself.
pub proof fn lemma_seconds_error(nanos: u128)
    ensures
        ({
            let t = nanos as real / 1000000000real;
            &&& seconds(nanos).is_finite()
            &&& counted(exact(seconds(nanos)) - t) <= 6real * t
        }),
{
    let whole = (nanos / NANOS_PER_SEC) as nat;
    let part = (nanos % NANOS_PER_SEC) as nat;
    let (a, b, c) = (
        Double::nearest_to(whole),
        Double::nearest_to(part),
        Double::nearest_to(NANOS_PER_SEC as nat),
    );
    lemma2_to64_rest();
    lemma_pow2_adds(64, 62);
    lemma_count(whole);
    lemma_count(part);
    lemma_count(NANOS_PER_SEC as nat);
    lemma_seconds(nanos);
    lemma_part_of_second(part);
    lemma_count_error(whole);
    lemma_whole_exact(b, part as int);
    lemma_whole_exact(c, NANOS_PER_SEC as int);
    let f = b.div(c);
    lemma_quotient_relative(b, c);
    lemma_grain();
    lemma_sum_relative(a, f);
    assert(exact(c) == 1000000000real);
    let (w, p) = (whole as real, part as real);
    assert(nanos as real == 1000000000real * w + p);
    if part == 0 {
        assert(0 * pow2(1074) == 0);
        lemma_whole_exact(f, 0);
    }
}

/// A count as a number is off by at most half of its last digit.
proof fn lemma_count_error(n: nat)
    requires
        n < pow2(126),
    ensures
        counted(exact(Double::nearest_to(n)) - n as real) <= n as real,
{
    reveal(Double::nearest_to);
    let x = Double::nearest_to(n);
    let w = pow2(1074);
    lemma_count(n);
    lemma_pow2_pos(1074);
    assert(n * w >= 0) by (nonlinear_arith);
    lemma_rounded_error(x, (n * w) as int, 1);
    lemma2_to64_rest();
    lemma_real_product(n as int, w as int);
    let v = x.value();
    let (a, c, z) = (v as real, n as real, w as real);
    assert((v - n * w) as real == a - c * z);
    let d = a - c * z;
    assert(-(c * z) <= 9007199254740992real * d <= c * z);
    assert(a / z - c == d / z) by (nonlinear_arith)
        requires
            d == a - c * z,
            z > 0real,
    ;
    assert(-c <= 9007199254740992real * (d / z) <= c) by (nonlinear_arith)
        requires
            -(c * z) <= 9007199254740992real * d <= c * z,
            z > 0real,
    ;
}

/// Nothing overflows in a step of a moderate spring.
proof fn lemma_moderate_step(
    position: Double,
    velocity: Double,
    target: Double,
    omega: Double,
    dt: Double,
    decay: Double,
)
    requires
        is_within(position, 100),
        is_within(velocity, 100),
        is_within(target, 100),
        is_within(omega, 100),
        is_within(dt, 127),
        is_within(decay, 0),
    ensures
        is_within(stepped_position(position, velocity, target, omega, dt, decay), 332),
        is_within(stepped_velocity(position, velocity, target, omega, dt, decay), 432),
{
    let d = position.sub(target);
    let pull = omega.mul(d);
    let c = coefficient(position, velocity, target, omega);
    lemma_sum_within(position, target, 100);
    lemma_product_within(omega, d, 100, 101);
    lemma_within(velocity, 100, 201);
    lemma_sum_within(velocity, pull, 201);
    lemma_product_within(c, dt, 202, 127);
    lemma_within(d, 101, 329);
    lemma_sum_within(d, c.mul(dt), 329);
    let way = d.add(c.mul(dt));
    lemma_product_within(way, decay, 330, 0);
    lemma_within(target, 100, 331);
    lemma_within(way.mul(decay), 330, 331);
    lemma_sum_within(target, way.mul(decay), 331);
    lemma_product_within(omega, c, 100, 202);
    let brake = omega.mul(c);
    lemma_product_within(brake, dt, 302, 127);
    lemma_within(velocity, 100, 431);
    lemma_within(brake.mul(dt), 429, 431);
    lemma_sum_within(velocity, brake.mul(dt), 431);
    lemma_product_within(velocity.sub(brake.mul(dt)), decay, 432, 0);
}

/// What a step does to a spring in one direction.
proof fn lemma_axis(
    position: Double,
    velocity: Double,
    target: Double,
    omega: Double,
    dt: Double,
    decay: Double,
)
    requires
        is_within(position, 100),
        is_within(velocity, 100),
        is_within(target, 100),
        is_within(omega, 100),
        is_within(dt, 127),
        is_within(decay, 0),
    ensures
        ({
            let x = ExactSpring {
                position: exact(position),
                velocity: exact(velocity),
                target: exact(target),
                omega: exact(omega),
            };
            let (t, e) = (exact(dt), exact(decay));
            let p = stepped_position(position, velocity, target, omega, dt, decay);
            let u = stepped_velocity(position, velocity, target, omega, dt, decay);
            let near = p.sub(target).abs().le(Double::from_bits(POSITION_EPSILON));
            let slow = u.abs().le(Double::from_bits(VELOCITY_EPSILON));
            &&& x.leads_to(t, e, exact(p), exact(u))
            &&& near && slow ==> x.comes_to_rest(t, e)
            &&& !(near && slow) ==> x.goes_on(t, e)
        }),
{
    let (t, e) = (exact(dt), exact(decay));
    let p = stepped_position(position, velocity, target, omega, dt, decay);
    let u = stepped_velocity(position, velocity, target, omega, dt, decay);
    reveal(ExactSpring::leads_to);
    reveal(ExactSpring::comes_to_rest);
    reveal(ExactSpring::goes_on);
    lemma_moderate_step(position, velocity, target, omega, dt, decay);
    lemma_step_is_near(position, velocity, target, omega, dt, decay);
    lemma_within(target, 100, 332);
    lemma_sum_within(p, target, 332);
    let d = p.sub(target);
    lemma_difference_relative(p, target);
    lemma_exact_absolute(d);
    lemma_exact_absolute(u);
    lemma_limits();
    lemma_near_limit();
    lemma_order_of_exact(d.abs(), Double::from_bits(POSITION_EPSILON));
    lemma_order_of_exact(u.abs(), Double::from_bits(VELOCITY_EPSILON));
}

/// A fiftieth of a pixel.
pub proof fn lemma_near_limit()
    ensures
        Double::from_bits(POSITION_EPSILON).is_finite(),
        absolute(
            1000000000000000real * exact(Double::from_bits(POSITION_EPSILON)) - 20000000000000real,
        ) <= 1real,
{
    let near = Double::from_bits(POSITION_EPSILON);
    lemma_pattern_value(near, 0x14_7ae1_47ae_147b, 1016);
    lemma2_to64_rest();
    lemma_pow2_adds(58, 1016);
    lemma_pow2_pos(1016);
    lemma_pow2_pos(1074);
    let (a, w) = (near.value() as real, pow2(1074) as real);
    assert(19_999_999_999_999 * pow2(1074) <= 1_000_000_000_000_000 * near.value()
        <= 20_000_000_000_001 * pow2(1074));
    assert(19999999999999real <= 1000000000000000real * (a / w) <= 20000000000001real)
        by (nonlinear_arith)
        requires
            19999999999999real * w <= 1000000000000000real * a <= 20000000000001real * w,
            w > 0real,
    ;
}

/// What a frame does to springs that move, in exact values. They stop just when every one of them
/// has come to rest, and are then at their targets without velocity. Otherwise they go on, and each
/// of them is where a critically damped spring is after that time, and as fast. Targets and
/// frequencies stay what they are.
pub proof fn lemma_frame(s: SpringState, now: u128, decay: [Double; 4])
    requires
        s.moving,
        now > s.last_tick,
        forall|i: int| 0 <= i < 4 ==> #[trigger] is_moderate(s, i),
        forall|i: int| #![trigger decay[i]] 0 <= i < 4 ==> is_within(decay[i], 0),
    ensures
        ({
            let r = s.advanced(now, decay);
            let t = exact(seconds((now - s.last_tick) as u128));
            &&& r.target == s.target
            &&& r.omega == s.omega
            &&& r.last_tick == now
            &&& !r.moving ==> forall|i: int|
                0 <= i < 4 ==> (#[trigger] across(s, i)).comes_to_rest(t, exact(decay[i]))
            &&& !r.moving ==> forall|i: int|
                0 <= i < 4 ==> (#[trigger] down(s, i)).comes_to_rest(t, exact(decay[i]))
            &&& !r.moving ==> forall|i: int|
                #![trigger r.current[i]]
                0 <= i < 4 ==> r.current[i] == s.target[i] && exact(r.velocity[i][0]) == 0real
                    && exact(r.velocity[i][1]) == 0real
            &&& r.moving ==> forall|i: int|
                0 <= i < 4 ==> (#[trigger] across(s, i)).leads_to(
                    t,
                    exact(decay[i]),
                    exact(r.current[i].x),
                    exact(r.velocity[i][0]),
                )
            &&& r.moving ==> forall|i: int|
                0 <= i < 4 ==> (#[trigger] down(s, i)).leads_to(
                    t,
                    exact(decay[i]),
                    exact(r.current[i].y),
                    exact(r.velocity[i][1]),
                )
            &&& r.moving ==> exists|i: int|
                0 <= i < 4 && ((#[trigger] across(s, i)).goes_on(t, exact(decay[i])) || down(
                    s,
                    i,
                ).goes_on(t, exact(decay[i])))
        }),
{
    let r = s.advanced(now, decay);
    let dt = s.elapsed(now);
    let t = exact(dt);
    lemma_steps(s, now);
    lemma_advanced(s, now, decay);
    lemma_seconds((now - s.last_tick) as u128);
    assert(dt == seconds((now - s.last_tick) as u128));
    let moved = (SpringState { last_tick: now, ..s }).stepped(dt, decay);
    assert forall|i: int| 0 <= i < 4 implies {
        let e = exact(decay[i]);
        let (a, b) = (#[trigger] across(s, i), down(s, i));
        &&& a.leads_to(t, e, exact(moved.current[i].x), exact(moved.velocity[i][0]))
        &&& b.leads_to(t, e, exact(moved.current[i].y), exact(moved.velocity[i][1]))
        &&& moved.corner_settled(i) ==> a.comes_to_rest(t, e) && b.comes_to_rest(t, e)
        &&& !moved.corner_settled(i) ==> a.goes_on(t, e) || b.goes_on(t, e)
    } by {
        assert(is_moderate(s, i));
        let (c, v, g, o) = (s.current[i], s.velocity[i], s.target[i], s.omega[i]);
        lemma_axis(c.x, v[0], g.x, o, dt, decay[i]);
        lemma_axis(c.y, v[1], g.y, o, dt, decay[i]);
        assert(i == 0 || i == 1 || i == 2 || i == 3);
    }
    if moved.settled() {
        assert forall|i: int| 0 <= i < 4 implies (#[trigger] across(s, i)).comes_to_rest(
            t,
            exact(decay[i]),
        ) && down(s, i).comes_to_rest(t, exact(decay[i])) by {
            assert(moved.corner_settled(i));
        }
        assert forall|i: int| 0 <= i < 4 implies (#[trigger] down(s, i)).comes_to_rest(
            t,
            exact(decay[i]),
        ) by {
            assert(across(s, i).comes_to_rest(t, exact(decay[i])));
        }
        let zero = Double::from_bits(ZERO);
        lemma_pattern_value(zero, 0, 0);
        assert(0 * pow2(0) == 0 && 0 * pow2(1074) == 0);
        lemma_whole_exact(zero, 0);
        assert forall|i: int| #![trigger r.current[i]] 0 <= i < 4 implies exact(r.velocity[i][0])
            == 0real && exact(r.velocity[i][1]) == 0real && r.current[i] == s.target[i] by {
            assert(r.velocity[i] == still());
        }
    } else {
        let i = choose|i: int| 0 <= i < 4 && !#[trigger] moved.corner_settled(i);
        assert(across(s, i).goes_on(t, exact(decay[i])) || down(s, i).goes_on(
            t,
            exact(decay[i]),
        ));
        assert forall|i: int| 0 <= i < 4 implies (#[trigger] down(s, i)).leads_to(
            t,
            exact(decay[i]),
            exact(r.current[i].y),
            exact(r.velocity[i][1]),
        ) by {
            assert(across(s, i).leads_to(
                t,
                exact(decay[i]),
                exact(r.current[i].x),
                exact(r.velocity[i][0]),
            ));
        }
    }
}

/// Without a motion, or without time, nothing changes but the time.
pub proof fn lemma_no_frame(s: SpringState, now: u128, decay: [Double; 4])
    requires
        !s.moving || now <= s.last_tick,
    ensures
        ({
            let r = s.advanced(now, decay);
            &&& r.current == s.current && r.target == s.target
            &&& r.velocity == s.velocity && r.omega == s.omega
            &&& r.moving == s.moving
            &&& r.last_tick == now
        }),
{
    lemma_steps(s, now);
}

/// The exponents of the decays are the frequencies times the time that has passed, with the other
/// sign, up to rounding. There are none if there is no motion or no time.
pub proof fn lemma_exponents(s: SpringState, now: u128)
    requires
        forall|i: int| 0 <= i < 4 ==> #[trigger] is_moderate(s, i),
    ensures
        s.exponents(now) is Some <==> s.moving && now > s.last_tick,
        s.exponents(now) matches Some(x) ==> forall|i: int|
            #![trigger x[i]]
            0 <= i < 4 ==> {
                let z = exact(s.omega[i]) * exact(seconds((now - s.last_tick) as u128));
                x[i].is_finite() && counted(exact(x[i]) + z) <= absolute(z) + grain()
            },
{
    lemma_steps(s, now);
    if let Some(x) = s.exponents(now) {
        let dt = s.elapsed(now);
        lemma_seconds((now - s.last_tick) as u128);
        assert forall|i: int| #![trigger x[i]] 0 <= i < 4 implies {
            let z = exact(s.omega[i]) * exact(dt);
            x[i].is_finite() && counted(exact(x[i]) + z) <= absolute(z) + grain()
        } by {
            assert(is_moderate(s, i));
            assert(i == 0 || i == 1 || i == 2 || i == 3);
            let o = s.omega[i];
            assert(x[i] == decay_exponent(o, dt));
            lemma_negated(o);
            lemma_exact_negated(o);
            lemma_product_within(o.neg(), dt, 100, 127);
            lemma_product_relative(o.neg(), dt);
            lemma_distributes(0real, exact(o), exact(dt));
        }
    }
}

} // verus!
