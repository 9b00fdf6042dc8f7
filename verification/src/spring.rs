//! The motion of a caret: each corner owns a critically damped spring.
use crate::accuracy::{
    is_within, lemma_difference_within, lemma_product_within, lemma_rounded_within,
    lemma_sum_is_near, lemma_sum_within, lemma_within,
};
use crate::double::Double;
use crate::exact::{
    is_whole, is_zero, lemma_absolute, lemma_encode_zero, lemma_exact_difference,
    lemma_finite_product, lemma_finite_sum, lemma_negated, lemma_order_of_values,
    lemma_pattern_value, lemma_power_value, lemma_product_is_commutative, lemma_rank_monotone,
    lemma_rank_of_quotient, lemma_rank_of_sum, lemma_rank_of_value, lemma_rank_scaled,
    lemma_scaled_rank, lemma_signs_of_product, lemma_signs_of_sum, lemma_sum_of_nonnegative,
    lemma_value_of_rank, lemma_zero_arithmetic, rank_of,
};
use crate::float::{lemma_zero_units, WIDE};
use crate::geometry::{
    corner_frequencies, corners_equal, corners_finite, corners_within, is_paced,
    lemma_equal_corners, lemma_frequencies_are_paced, lemma_rest_is_paced, movement, points_equal,
    rect_corners, rect_i32_to_f64, Point, Rect, RectF, HALF, ONE, POSITION_EPSILON, SPRING_OMEGA,
    ZERO,
};
use crate::rounding::lemma_encode_exact;
use vstd::arithmetic::power2::{
    lemma2_to64, lemma2_to64_rest, lemma_pow2_adds, lemma_pow2_pos, lemma_pow2_strictly_increases,
    lemma_pow2_unfold, pow2,
};
use vstd::prelude::*;

verus! {

/// Velocities up to half a pixel per second count as none.
pub const VELOCITY_EPSILON: u64 = HALF;

pub const NANOS_PER_SEC: u128 = 1_000_000_000;

pub open spec fn spec_seconds(nanos: u128) -> Double {
    Double::nearest_to((nanos / NANOS_PER_SEC) as nat).add(
        Double::nearest_to((nanos % NANOS_PER_SEC) as nat).div(
            Double::nearest_to(NANOS_PER_SEC as nat),
        ),
    )
}

/// A number of nanoseconds in seconds: whole seconds and the fraction are rounded on their own.
#[verifier::when_used_as_spec(spec_seconds)]
pub fn seconds(nanos: u128) -> (r: Double)
    ensures
        r == seconds(nanos),
{
    proof {
        lemma2_to64_rest();
        lemma_pow2_adds(64, 62);
    }
    Double::from_count(nanos / NANOS_PER_SEC).add(
        Double::from_count(nanos % NANOS_PER_SEC).div(Double::from_count(NANOS_PER_SEC)),
    )
}

/// What carries a spring on: its velocity, and its displacement times `omega`.
pub open spec fn coefficient(
    position: Double,
    velocity: Double,
    target: Double,
    omega: Double,
) -> Double {
    velocity.add(omega.mul(position.sub(target)))
}

/// Where a spring is after a step of `dt` seconds over which its swing shrinks to `decay`.
pub open spec fn stepped_position(
    position: Double,
    velocity: Double,
    target: Double,
    omega: Double,
    dt: Double,
    decay: Double,
) -> Double {
    target.add(
        position.sub(target).add(coefficient(position, velocity, target, omega).mul(dt)).mul(decay),
    )
}

/// How fast a spring is after a step of `dt` seconds over which its swing shrinks to `decay`.
pub open spec fn stepped_velocity(
    position: Double,
    velocity: Double,
    target: Double,
    omega: Double,
    dt: Double,
    decay: Double,
) -> Double {
    velocity.sub(omega.mul(coefficient(position, velocity, target, omega)).mul(dt)).mul(decay)
}

/// Moves a spring with frequency `omega` by `dt` seconds towards its target. `decay` is the
/// exponential of `decay_exponent(omega, dt)`.
pub fn step_critically_damped(
    position: &mut Double,
    velocity: &mut Double,
    target: Double,
    omega: Double,
    dt: Double,
    decay: Double,
)
    ensures
        *final(position) == stepped_position(
            *old(position),
            *old(velocity),
            target,
            omega,
            dt,
            decay,
        ),
        *final(velocity) == stepped_velocity(
            *old(position),
            *old(velocity),
            target,
            omega,
            dt,
            decay,
        ),
{
    let displacement = position.sub(target);
    let coefficient = velocity.add(omega.mul(displacement));
    *position = target.add(displacement.add(coefficient.mul(dt)).mul(decay));
    *velocity = velocity.sub(omega.mul(coefficient).mul(dt)).mul(decay);
}

pub open spec fn spec_decay_exponent(omega: Double, dt: Double) -> Double {
    omega.neg().mul(dt)
}

/// The exponent of the decay over `dt` seconds.
#[verifier::when_used_as_spec(spec_decay_exponent)]
pub fn decay_exponent(omega: Double, dt: Double) -> (r: Double)
    ensures
        r == decay_exponent(omega, dt),
{
    omega.neg().mul(dt)
}

/// The springs of the four corners. Times are nanoseconds of one clock.
#[derive(Clone, Copy, Debug)]
pub struct SpringState {
    pub current: [Point; 4],
    pub target: [Point; 4],
    pub velocity: [[Double; 2]; 4],
    pub omega: [Double; 4],
    pub last_tick: u128,
    pub moving: bool,
}

/// No velocity.
pub open spec fn still() -> [Double; 2] {
    [Double::from_bits(ZERO), Double::from_bits(ZERO)]
}

/// A velocity that counts as motion.
pub open spec fn swift(v: Double) -> bool {
    Double::from_bits(VELOCITY_EPSILON).lt(v.abs())
}

impl SpringState {
    /// Springs at rest at the corners of `rect`.
    pub open spec fn at_rest(rect: RectF, now: u128) -> SpringState {
        let omega = Double::from_bits(SPRING_OMEGA);
        SpringState {
            current: rect_corners(rect),
            target: rect_corners(rect),
            velocity: [still(), still(), still(), still()],
            omega: [omega, omega, omega, omega],
            last_tick: now,
            moving: false,
        }
    }

    pub fn new(rect: RectF, now: u128) -> (r: SpringState)
        ensures
            r == SpringState::at_rest(rect, now),
    {
        let corners = rect_corners(rect);
        let zero = Double::from_bits(ZERO);
        let omega = Double::from_bits(SPRING_OMEGA);
        SpringState {
            current: corners,
            target: corners,
            velocity: [[zero, zero], [zero, zero], [zero, zero], [zero, zero]],
            omega: [omega, omega, omega, omega],
            last_tick: now,
            moving: false,
        }
    }

    /// The time since the last tick, in seconds; none if the clock went back.
    pub open spec fn elapsed(self, now: u128) -> Double {
        seconds(if now > self.last_tick { (now - self.last_tick) as u128 } else { 0 })
    }

    /// Whether the springs take a step when the clock reaches `now`.
    pub open spec fn steps(self, now: u128) -> bool {
        self.moving && !self.elapsed(now).le(Double::from_bits(ZERO))
    }

    pub open spec fn corner_after(self, i: int, dt: Double, decay: [Double; 4]) -> Point {
        let c = self.current[i];
        let t = self.target[i];
        let v = self.velocity[i];
        Point {
            x: stepped_position(c.x, v[0], t.x, self.omega[i], dt, decay[i]),
            y: stepped_position(c.y, v[1], t.y, self.omega[i], dt, decay[i]),
        }
    }

    pub open spec fn velocity_after(self, i: int, dt: Double, decay: [Double; 4]) -> [Double; 2] {
        let c = self.current[i];
        let t = self.target[i];
        let v = self.velocity[i];
        [
            stepped_velocity(c.x, v[0], t.x, self.omega[i], dt, decay[i]),
            stepped_velocity(c.y, v[1], t.y, self.omega[i], dt, decay[i]),
        ]
    }

    /// All springs after a step of `dt` seconds.
    pub open spec fn stepped(self, dt: Double, decay: [Double; 4]) -> SpringState {
        SpringState {
            current: [
                self.corner_after(0, dt, decay),
                self.corner_after(1, dt, decay),
                self.corner_after(2, dt, decay),
                self.corner_after(3, dt, decay),
            ],
            velocity: [
                self.velocity_after(0, dt, decay),
                self.velocity_after(1, dt, decay),
                self.velocity_after(2, dt, decay),
                self.velocity_after(3, dt, decay),
            ],
            ..self
        }
    }

    /// Whether the corner is at its target and has no velocity, up to what does not show.
    pub open spec fn corner_settled(self, i: int) -> bool {
        let near = Double::from_bits(POSITION_EPSILON);
        let slow = Double::from_bits(VELOCITY_EPSILON);
        &&& self.current[i].x.sub(self.target[i].x).abs().le(near)
        &&& self.current[i].y.sub(self.target[i].y).abs().le(near)
        &&& self.velocity[i][0].abs().le(slow)
        &&& self.velocity[i][1].abs().le(slow)
    }

    pub open spec fn settled(self) -> bool {
        forall|i: int| 0 <= i < 4 ==> #[trigger] self.corner_settled(i)
    }

    /// The springs stopped at their targets.
    pub open spec fn stopped(self) -> SpringState {
        SpringState {
            current: self.target,
            velocity: [still(), still(), still(), still()],
            moving: false,
            ..self
        }
    }

    /// The springs when the clock reaches `now`. Over the time since the last tick the swing of
    /// each corner shrinks to `decay`.
    pub open spec fn advanced(self, now: u128, decay: [Double; 4]) -> SpringState {
        let ticked = SpringState { last_tick: now, ..self };
        if self.steps(now) {
            let moved = ticked.stepped(self.elapsed(now), decay);
            if moved.settled() {
                moved.stopped()
            } else {
                moved
            }
        } else {
            ticked
        }
    }

    /// The swing of the corner fades over `dt` seconds, in both directions.
    pub open spec fn corner_fades(
        self,
        i: int,
        dt: Double,
        decay: [Double; 4],
        n: int,
        k: int,
    ) -> bool {
        let c = self.current[i];
        let t = self.target[i];
        let v = self.velocity[i];
        &&& fades(c.x, v[0], t.x, self.omega[i], dt, decay[i], n, k)
        &&& fades(c.y, v[1], t.y, self.omega[i], dt, decay[i], n, k)
    }

    /// The exponents of the decays that `advanced` needs, if it needs any.
    pub open spec fn exponents(self, now: u128) -> Option<[Double; 4]> {
        if self.steps(now) {
            let dt = self.elapsed(now);
            Some(
                [
                    decay_exponent(self.omega[0], dt),
                    decay_exponent(self.omega[1], dt),
                    decay_exponent(self.omega[2], dt),
                    decay_exponent(self.omega[3], dt),
                ],
            )
        } else {
            None
        }
    }

    fn elapsed_seconds(&self, now: u128) -> (r: Double)
        ensures
            r == self.elapsed(now),
    {
        seconds(
            if now > self.last_tick {
                now - self.last_tick
            } else {
                0
            },
        )
    }

    /// The exponents of the decays that the springs need to reach `now`; none if they do not
    /// move.
    pub fn decay_exponents(&self, now: u128) -> (r: Option<[Double; 4]>)
        ensures
            r == self.exponents(now),
    {
        let dt = self.elapsed_seconds(now);
        if !self.moving || dt.le(Double::from_bits(ZERO)) {
            None
        } else {
            Some(
                [
                    decay_exponent(self.omega[0], dt),
                    decay_exponent(self.omega[1], dt),
                    decay_exponent(self.omega[2], dt),
                    decay_exponent(self.omega[3], dt),
                ],
            )
        }
    }

    fn is_settled(&self) -> (r: bool)
        ensures
            r == self.settled(),
    {
        let near = Double::from_bits(POSITION_EPSILON);
        let slow = Double::from_bits(VELOCITY_EPSILON);
        let mut i: usize = 0;
        while i < 4
            invariant
                i <= 4,
                near == Double::from_bits(POSITION_EPSILON),
                slow == Double::from_bits(VELOCITY_EPSILON),
                forall|j: int| 0 <= j < i ==> #[trigger] self.corner_settled(j),
            decreases 4 - i,
        {
            let at = self.current[i];
            let goal = self.target[i];
            let v = self.velocity[i];
            if !(at.x.sub(goal.x).abs().le(near) && at.y.sub(goal.y).abs().le(near)
                && v[0].abs().le(slow) && v[1].abs().le(slow)) {
                assert(!self.corner_settled(i as int));
                return false;
            }
            assert(self.corner_settled(i as int));
            i = i + 1;
        }
        true
    }

    /// Moves the springs on to `now`, with the decays of `decay_exponents`.
    pub fn advance_with(&mut self, now: u128, decay: [Double; 4])
        ensures
            *final(self) == old(self).advanced(now, decay),
    {
        let dt = self.elapsed_seconds(now);
        self.last_tick = now;
        if !self.moving || dt.le(Double::from_bits(ZERO)) {
            return;
        }
        let ghost start = *self;
        let mut i: usize = 0;
        while i < 4
            invariant
                i <= 4,
                self.target == start.target,
                self.omega == start.omega,
                self.last_tick == start.last_tick,
                self.moving == start.moving,
                forall|j: int|
                    0 <= j < i ==> #[trigger] self.current[j] == start.corner_after(j, dt, decay),
                forall|j: int|
                    0 <= j < i ==> #[trigger] self.velocity[j] == start.velocity_after(
                        j,
                        dt,
                        decay,
                    ),
                forall|j: int| i <= j < 4 ==> #[trigger] self.current[j] == start.current[j],
                forall|j: int| i <= j < 4 ==> #[trigger] self.velocity[j] == start.velocity[j],
            decreases 4 - i,
        {
            let mut at = self.current[i];
            let goal = self.target[i];
            let mut v = self.velocity[i];
            let mut vx = v[0];
            let mut vy = v[1];
            step_critically_damped(&mut at.x, &mut vx, goal.x, self.omega[i], dt, decay[i]);
            step_critically_damped(&mut at.y, &mut vy, goal.y, self.omega[i], dt, decay[i]);
            self.current[i] = at;
            self.velocity[i] = [vx, vy];
            assert(self.velocity[i as int] =~= start.velocity_after(i as int, dt, decay));
            i = i + 1;
        }
        assert(self.current =~= start.stepped(dt, decay).current);
        assert(self.velocity =~= start.stepped(dt, decay).velocity);
        if self.is_settled() {
            let zero = Double::from_bits(ZERO);
            self.current = self.target;
            self.velocity = [[zero, zero], [zero, zero], [zero, zero], [zero, zero]];
            self.moving = false;
        }
    }

    /// Moves the springs on to `now`. `exp` is the exponential function.
    pub fn advance_to<E: Fn(Double) -> Double>(&mut self, now: u128, exp: E)
        requires
            forall|x: Double| call_requires(exp, (x,)),
        ensures
            exists|decay: [Double; 4]|
                decays_by(exp, old(self).exponents(now), decay) && *final(self) == old(
                    self,
                ).advanced(now, decay),
    {
        let zero = Double::from_bits(ZERO);
        let decay = match self.decay_exponents(now) {
            None => [zero, zero, zero, zero],
            Some(x) => [exp(x[0]), exp(x[1]), exp(x[2]), exp(x[3])],
        };
        assert(decays_by(exp, self.exponents(now), decay));
        self.advance_with(now, decay);
    }

    /// Whether the springs are off their targets, or fast.
    pub open spec fn off_target(self) -> bool {
        ||| !corners_equal(&self.current, &self.target)
        ||| exists|i: int, k: int|
            0 <= i < 4 && 0 <= k < 2 && #[trigger] swift(self.velocity[i][k])
    }

    /// The targets are finite, and springs that do not move are neither off their targets nor
    /// fast.
    pub open spec fn inv(self) -> bool {
        &&& corners_finite(&self.target)
        &&& !self.moving ==> !self.off_target()
    }

    /// Whether `rect` is a new target.
    pub open spec fn turns(self, rect: RectF) -> bool {
        !corners_equal(&self.target, &rect_corners(rect))
    }

    /// The springs with `rect` as their target; `distance` is how far away its centre is.
    pub open spec fn retargeted(self, rect: RectF, distance: Double) -> SpringState {
        if self.turns(rect) {
            let aimed = SpringState {
                omega: corner_frequencies(&self.current, &rect_corners(rect), distance),
                target: rect_corners(rect),
                ..self
            };
            SpringState { moving: aimed.off_target(), ..aimed }
        } else {
            self
        }
    }

    /// The way to `rect`, if it is a new target.
    pub fn way_to(&self, rect: RectF) -> (r: Option<Point>)
        ensures
            r == if self.turns(rect) {
                Some(movement(&self.current, &rect_corners(rect)))
            } else {
                None
            },
    {
        let target = rect_corners(rect);
        if corners_equal(&self.target, &target) {
            None
        } else {
            Some(movement(&self.current, &target))
        }
    }

    fn is_swift(&self) -> (r: bool)
        ensures
            r == exists|i: int, k: int|
                0 <= i < 4 && 0 <= k < 2 && #[trigger] swift(self.velocity[i][k]),
    {
        let limit = Double::from_bits(VELOCITY_EPSILON);
        let mut i: usize = 0;
        while i < 4
            invariant
                i <= 4,
                limit == Double::from_bits(VELOCITY_EPSILON),
                forall|j: int, k: int|
                    0 <= j < i && 0 <= k < 2 ==> !#[trigger] swift(self.velocity[j][k]),
            decreases 4 - i,
        {
            let v = self.velocity[i];
            if limit.lt(v[0].abs()) {
                assert(swift(self.velocity[i as int][0]));
                return true;
            }
            if limit.lt(v[1].abs()) {
                assert(swift(self.velocity[i as int][1]));
                return true;
            }
            i = i + 1;
        }
        false
    }

    /// Makes `rect` the target, with the length of `way_to`. Velocities stay what they are.
    pub fn retarget_with(&mut self, rect: RectF, distance: Double)
        ensures
            *final(self) == old(self).retargeted(rect, distance),
    {
        let target = rect_corners(rect);
        if corners_equal(&self.target, &target) {
            return;
        }
        self.omega = corner_frequencies(&self.current, &target, distance);
        self.target = target;
        self.moving = !corners_equal(&self.current, &self.target) || self.is_swift();
    }

    /// Moves the springs on to `now`, then makes `rect` their target. `exp` is the exponential
    /// function, `hypot` the length of a way.
    pub fn retarget<E: Fn(Double) -> Double, H: Fn(Double, Double) -> Double>(
        &mut self,
        rect: RectF,
        now: u128,
        exp: E,
        hypot: H,
    )
        requires
            forall|x: Double| call_requires(exp, (x,)),
            forall|x: Double, y: Double| call_requires(hypot, (x, y)),
        ensures
            exists|decay: [Double; 4], distance: Double|
                retargets(*old(self), *final(self), rect, now, exp, hypot, decay, distance),
    {
        let ghost start = *self;
        self.advance_to(now, exp);
        let ghost decay = choose|decay: [Double; 4]|
            decays_by(exp, start.exponents(now), decay) && *self == start.advanced(now, decay);
        let distance = match self.way_to(rect) {
            None => Double::from_bits(ZERO),
            Some(way) => hypot(way.x, way.y),
        };
        self.retarget_with(rect, distance);
        assert(retargets(start, *self, rect, now, exp, hypot, decay, distance));
    }
}

/// `decay` holds what `exp` gives for the exponents.
pub open spec fn decays_by<E: Fn(Double) -> Double>(
    exp: E,
    exponents: Option<[Double; 4]>,
    decay: [Double; 4],
) -> bool {
    exponents matches Some(x) ==> {
        &&& call_ensures(exp, (x[0],), decay[0])
        &&& call_ensures(exp, (x[1],), decay[1])
        &&& call_ensures(exp, (x[2],), decay[2])
        &&& call_ensures(exp, (x[3],), decay[3])
    }
}

/// `after` is `before`, moved on to `now` and aimed at `rect`, with the decays that `exp` gives
/// and the distance that `hypot` gives.
pub open spec fn retargets<E: Fn(Double) -> Double, H: Fn(Double, Double) -> Double>(
    before: SpringState,
    after: SpringState,
    rect: RectF,
    now: u128,
    exp: E,
    hypot: H,
    decay: [Double; 4],
    distance: Double,
) -> bool {
    let mid = before.advanced(now, decay);
    let way = movement(&mid.current, &rect_corners(rect));
    &&& decays_by(exp, before.exponents(now), decay)
    &&& mid.turns(rect) ==> call_ensures(hypot, (way.x, way.y), distance)
    &&& after == mid.retargeted(rect, distance)
}

/// A count as a number.
pub proof fn lemma_count(n: nat)
    requires
        n < pow2(126),
    ensures
        Double::nearest_to(n).is_finite(),
        0 <= Double::nearest_to(n).value() <= pow2(1200),
        n > 0 ==> Double::nearest_to(n).value() > 0,
        n < 0x20_0000_0000_0000 ==> is_whole(Double::nearest_to(n), n as int),
{
    reveal(Double::nearest_to);
    let x = Double::nearest_to(n);
    let w = pow2(1074);
    lemma_pow2_pos(1074);
    assert(n * w >= 0) by (nonlinear_arith);
    assert(n * w <= pow2(126) * w) by (nonlinear_arith)
        requires
            n < pow2(126),
    ;
    lemma_pow2_adds(126, 1074);
    assert(1 * pow2(1200) == pow2(1200));
    lemma2_to64();
    lemma2_to64_rest();
    lemma_encode_exact(1, 1200, 53);
    lemma_rank_monotone((n * w) as int, pow2(1200) as int, 1);
    lemma_value_of_rank(x);
    let most = Double::from_bits(0x47d0_0000_0000_0000);
    lemma_power_value(most, 1200);
    lemma_rank_of_value(most);
    lemma_order_of_values(most, x);
    if n > 0 {
        assert(n * w >= 1 * w) by (nonlinear_arith)
            requires
                n >= 1,
        ;
        lemma_rank_monotone(w as int, (n * w) as int, 1);
        let one = Double::from_bits(ONE);
        lemma_power_value(one, 1074);
        lemma_rank_of_value(one);
        lemma_order_of_values(x, one);
    }
    if n < 0x20_0000_0000_0000 {
        lemma_scaled_rank(x, n as int, 1074);
    }
}

/// A number of nanoseconds below a second, in seconds: at most one, and not much less than it is.
pub proof fn lemma_part_of_second(part: nat)
    requires
        part < NANOS_PER_SEC,
    ensures
        ({
            let f = Double::nearest_to(part).div(Double::nearest_to(NANOS_PER_SEC as nat));
            &&& is_within(f, 0)
            &&& f.value() >= 0
            &&& part == 0 ==> f.value() == 0
            &&& part > 0 ==> f.value() >= pow2(1044)
            &&& part >= 1000 ==> f.value() >= pow2(1054)
        }),
{
    let b = Double::nearest_to(part);
    let c = Double::nearest_to(NANOS_PER_SEC as nat);
    let w = pow2(1074);
    let f = b.div(c);
    lemma2_to64();
    lemma2_to64_rest();
    lemma_pow2_adds(64, 62);
    lemma_count(part);
    lemma_count(NANOS_PER_SEC as nat);
    lemma_pow2_pos(1074);
    lemma_rank_of_quotient(b, c);
    assert((NANOS_PER_SEC * w) as nat == NANOS_PER_SEC as nat * w);
    lemma_rank_scaled((part * w) as int, NANOS_PER_SEC as nat, w);
    assert(f.rank() == rank_of((part * w) as int, NANOS_PER_SEC as nat));
    assert(0 <= part * w <= NANOS_PER_SEC * w) by (nonlinear_arith)
        requires
            0 <= part <= NANOS_PER_SEC,
    ;
    lemma_rank_monotone((part * w) as int, (NANOS_PER_SEC * w) as int, NANOS_PER_SEC as nat);
    assert(w * NANOS_PER_SEC == NANOS_PER_SEC * w && 1 * NANOS_PER_SEC == NANOS_PER_SEC);
    lemma_rank_scaled(w as int, 1, NANOS_PER_SEC as nat);
    let one = Double::from_bits(ONE);
    lemma_power_value(one, 1074);
    lemma_rank_of_value(one);
    lemma_value_of_rank(f);
    lemma_order_of_values(one, f);
    lemma_encode_zero(NANOS_PER_SEC as nat);
    lemma_zero_units(WIDE);
    assert(0 * w == 0);
    if part > 0 {
        // A billionth is more than 2^-30.
        lemma_pow2_adds(30, 1044);
        lemma_part_at_least(f, part, Double::from_bits(0x3e10_0000_0000_0000), 1044);
    }
    if part >= 1000 {
        // A millionth is more than 2^-20.
        lemma_pow2_adds(20, 1054);
        lemma_part_at_least(f, part, Double::from_bits(0x3eb0_0000_0000_0000), 1054);
    }
}

proof fn lemma_part_at_least(f: Double, part: nat, tiny: Double, e: nat)
    requires
        f.is_finite(),
        f.rank() == rank_of((part * pow2(1074)) as int, NANOS_PER_SEC as nat),
        e == 1044 && part >= 1 && pow2(1074) == 0x4000_0000 * pow2(e) || e == 1054 && part >= 1000
            && pow2(1074) == 0x10_0000 * pow2(e),
        tiny.bits == (e - 51) * 0x10_0000_0000_0000,
    ensures
        f.value() >= pow2(e),
{
    let w = pow2(1074);
    let v = pow2(e);
    lemma_power_value(tiny, e);
    lemma_rank_of_value(tiny);
    if e == 1044 {
        assert(v * NANOS_PER_SEC <= part * w) by (nonlinear_arith)
            requires
                w == 0x4000_0000 * v,
                part >= 1,
                NANOS_PER_SEC <= 0x4000_0000,
        ;
    } else {
        assert(v * NANOS_PER_SEC <= part * w) by (nonlinear_arith)
            requires
                w == 0x10_0000 * v,
                part >= 1000,
                NANOS_PER_SEC <= 1000 * 0x10_0000,
        ;
    }
    assert(1 * NANOS_PER_SEC == NANOS_PER_SEC);
    lemma_rank_monotone((v * NANOS_PER_SEC) as int, (part * w) as int, NANOS_PER_SEC as nat);
    lemma_rank_scaled(v as int, 1, NANOS_PER_SEC as nat);
    lemma_order_of_values(f, tiny);
}

/// A positive time stays positive in seconds, and no time is none. A nanosecond is more than
/// `2^-30` seconds, and a microsecond more than `2^-20`.
pub proof fn lemma_seconds(nanos: u128)
    ensures
        seconds(nanos).is_finite(),
        seconds(nanos).value() >= 0,
        seconds(nanos).le(Double::from_bits(ZERO)) <==> nanos == 0,
        is_within(seconds(nanos), 127),
        nanos >= 1 ==> seconds(nanos).value() >= pow2(1044),
        nanos >= 1000 ==> seconds(nanos).value() >= pow2(1054),
{
    let whole = (nanos / NANOS_PER_SEC) as nat;
    let part = (nanos % NANOS_PER_SEC) as nat;
    let a = Double::nearest_to(whole);
    let f = Double::nearest_to(part).div(Double::nearest_to(NANOS_PER_SEC as nat));
    lemma2_to64();
    lemma2_to64_rest();
    lemma_pow2_adds(64, 62);
    lemma_count(whole);
    lemma_part_of_second(part);
    let r = seconds(nanos);
    lemma_within(f, 0, 126);
    lemma_sum_within(a, f, 126);
    lemma_rank_of_sum(a, f);
    lemma_value_of_rank(r);
    lemma_pow2_strictly_increases(1074, 1200);
    lemma_pow2_strictly_increases(1201, 2000);
    lemma_pow2_strictly_increases(1054, 1074);
    lemma_pow2_strictly_increases(1044, 1054);
    lemma_pow2_pos(1044);
    lemma_pow2_unfold(1201);
    lemma_sum_of_nonnegative(a, f);
    lemma_pattern_value(Double::from_bits(ZERO), 0, 0);
    assert(0 * pow2(0) == 0);
    lemma_order_of_values(r, Double::from_bits(ZERO));
    assert(nanos == 0 <==> whole == 0 && part == 0);
    if whole > 0 {
        lemma_count_order(1, whole);
        assert(1 * pow2(1074) == pow2(1074));
    }
}

/// A larger count is not a smaller number.
proof fn lemma_count_order(m: nat, n: nat)
    requires
        m <= n < pow2(126),
        m < 0x20_0000_0000_0000,
    ensures
        Double::nearest_to(n).value() >= m * pow2(1074),
{
    let w = pow2(1074);
    let (x, y) = (Double::nearest_to(m), Double::nearest_to(n));
    lemma_count(m);
    lemma_count(n);
    assert(0 <= m * w <= n * w) by (nonlinear_arith)
        requires
            m <= n,
    ;
    lemma_rank_monotone((m * w) as int, (n * w) as int, 1);
    reveal(Double::nearest_to);
    lemma_order_of_values(y, x);
}

/// A time of at least `low` and less than `2^k` whole seconds.
pub proof fn lemma_seconds_between(nanos: u128, low: nat, k: nat)
    requires
        low <= 1000,
        low <= nanos / NANOS_PER_SEC < pow2(k),
        k <= 126,
    ensures
        seconds(nanos).value() >= low * pow2(1074),
        is_within(seconds(nanos), k as int + 1),
{
    let whole = (nanos / NANOS_PER_SEC) as nat;
    let part = (nanos % NANOS_PER_SEC) as nat;
    let a = Double::nearest_to(whole);
    let f = Double::nearest_to(part).div(Double::nearest_to(NANOS_PER_SEC as nat));
    let w = pow2(1074);
    lemma2_to64_rest();
    lemma_pow2_adds(64, 62);
    lemma_count(whole);
    lemma_part_of_second(part);
    lemma_count_order(low, whole);
    // The whole seconds are at most 2^k.
    assert(whole * w <= pow2(k) * w) by (nonlinear_arith)
        requires
            whole <= pow2(k),
    ;
    assert(whole * w >= 0) by (nonlinear_arith);
    lemma_pow2_adds(k, 1074);
    assert(pow2(1074 + k) * 1 == pow2(1074 + k));
    assert(is_within(a, k as int)) by {
        reveal(Double::nearest_to);
        lemma_rounded_within(a, (whole * w) as int, 1, 1074 + k);
    }
    lemma_within(f, 0, k as int);
    lemma_sum_within(a, f, k as int);
    lemma_pow2_strictly_increases(1201, 2000);
    lemma_pow2_unfold(1201);
    lemma_pow2_strictly_increases(1074, 1200);
    lemma_sum_of_nonnegative(a, f);
}

/// Springs take a step just when they move and time has passed.
pub proof fn lemma_steps(s: SpringState, now: u128)
    ensures
        s.steps(now) <==> s.moving && now > s.last_tick,
{
    lemma_seconds(if now > s.last_tick { (now - s.last_tick) as u128 } else { 0 });
}

/// A clock that stands still or goes back moves nothing.
pub proof fn lemma_no_time_no_motion(s: SpringState, now: u128, decay: [Double; 4])
    requires
        now <= s.last_tick,
    ensures
        s.advanced(now, decay) == (SpringState { last_tick: now, ..s }),
{
    lemma_steps(s, now);
}

/// No velocity is no motion.
pub proof fn lemma_still_is_not_swift()
    ensures
        !swift(Double::from_bits(ZERO)),
{
    let zero = Double::from_bits(ZERO);
    let limit = Double::from_bits(VELOCITY_EPSILON);
    lemma_pattern_value(zero, 0, 0);
    assert(0 * pow2(0) == 0);
    lemma_absolute(zero);
    lemma_power_value(limit, 1073);
    lemma_order_of_values(limit, zero.abs());
}

/// Finite corners equal themselves.
pub proof fn lemma_corners_equal_themselves(c: &[Point; 4])
    requires
        corners_finite(c),
    ensures
        corners_equal(c, c),
{
    let half = Double::from_bits(HALF);
    let zero = Double::from_bits(ZERO);
    lemma_pattern_value(zero, 0, 0);
    assert(0 * pow2(0) == 0);
    lemma_power_value(half, 1073);
    lemma_pow2_pos(1073);
    assert forall|i: int| 0 <= i < 4 implies #[trigger] points_equal(c[i], c[i]) by {
        let p = c[i];
        lemma_zero_arithmetic(zero, p.x);
        lemma_zero_arithmetic(zero, p.y);
        lemma_absolute(p.x.sub(p.x));
        lemma_absolute(p.y.sub(p.y));
        lemma_order_of_values(p.x.sub(p.x).abs(), half);
        lemma_order_of_values(p.y.sub(p.y).abs(), half);
    }
}

/// A caret begins at rest, with all its frequencies in their range.
pub proof fn lemma_at_rest(rect: RectF, now: u128)
    requires
        corners_finite(&rect_corners(rect)),
    ensures
        SpringState::at_rest(rect, now).inv(),
        is_paced(SpringState::at_rest(rect, now).omega),
{
    let s = SpringState::at_rest(rect, now);
    lemma_corners_equal_themselves(&s.target);
    lemma_still_is_not_swift();
    lemma_rest_is_paced(s.omega);
}

/// Time keeps the invariant, the targets and the frequencies. Springs that come to a stop are at
/// their targets, without velocity.
pub proof fn lemma_advanced(s: SpringState, now: u128, decay: [Double; 4])
    ensures
        ({
            let t = s.advanced(now, decay);
            &&& s.inv() ==> t.inv()
            &&& t.target == s.target
            &&& t.omega == s.omega
            &&& t.last_tick == now
            &&& t.moving ==> s.moving
            &&& s.moving && !t.moving ==> t == t.stopped()
        }),
{
    let t = s.advanced(now, decay);
    if s.inv() && !t.moving && s.moving {
        lemma_corners_equal_themselves(&s.target);
        lemma_still_is_not_swift();
    }
}

/// A new target leaves corners and velocities as they are, and the old one leaves everything.
pub proof fn lemma_retargeted(s: SpringState, rect: RectF, distance: Double)
    requires
        corners_finite(&rect_corners(rect)),
    ensures
        ({
            let t = s.retargeted(rect, distance);
            &&& s.inv() ==> t.inv()
            &&& t.current == s.current
            &&& t.velocity == s.velocity
            &&& t.last_tick == s.last_tick
            &&& !t.turns(rect)
            &&& !s.turns(rect) ==> t == s
            &&& s.turns(rect) ==> t.target == rect_corners(rect)
        }),
{
    lemma_corners_equal_themselves(&rect_corners(rect));
}

/// The same target once more changes nothing.
pub proof fn lemma_repeated_target(
    s: SpringState,
    rect: RectF,
    distance: Double,
    distance_again: Double,
)
    requires
        corners_finite(&rect_corners(rect)),
    ensures
        s.retargeted(rect, distance).retargeted(rect, distance_again) == s.retargeted(
            rect,
            distance,
        ),
{
    lemma_retargeted(s, rect, distance);
}

/// The frequencies stay in their range: time does not change them, and a new target gives ones in
/// the range, as long as neither place is too far away and the distance is a number.
pub proof fn lemma_pace_is_kept(
    s: SpringState,
    rect: RectF,
    now: u128,
    decay: [Double; 4],
    distance: Double,
)
    requires
        is_paced(s.omega),
        corners_within(&s.advanced(now, decay).current, 100),
        corners_within(&rect_corners(rect), 100),
        !distance.is_nan(),
    ensures
        is_paced(s.advanced(now, decay).omega),
        is_paced(s.advanced(now, decay).retargeted(rect, distance).omega),
{
    lemma_advanced(s, now, decay);
    lemma_frequencies_are_paced(
        &s.advanced(now, decay).current,
        &rect_corners(rect),
        distance,
    );
}

/// Springs that are aimed at one rectangle of whole pixels turn for every other one.
pub proof fn lemma_turns(s: SpringState, aim: Rect, rect: Rect)
    requires
        s.target == rect_corners(rect_i32_to_f64(aim)),
    ensures
        s.turns(rect_i32_to_f64(rect)) <==> aim != rect,
{
    lemma_equal_corners(aim, rect);
}

/// A spring that is at its target and has no velocity stays there.
pub proof fn lemma_rest_is_kept(
    position: Double,
    velocity: Double,
    target: Double,
    omega: Double,
    dt: Double,
    decay: Double,
)
    requires
        position.is_finite(),
        target.is_finite(),
        position.value() == target.value(),
        is_zero(velocity),
        omega.is_finite(),
        dt.is_finite(),
        decay.is_finite(),
    ensures
        ({
            let p = stepped_position(position, velocity, target, omega, dt, decay);
            let v = stepped_velocity(position, velocity, target, omega, dt, decay);
            &&& p.is_finite() && p.value() == target.value()
            &&& is_zero(v)
        }),
{
    let displacement = position.sub(target);
    assert(0 * pow2(1074) == 0);
    lemma_exact_difference(position, target, 0, 1074);
    lemma_zero_arithmetic(displacement, omega);
    let pull = omega.mul(displacement);
    lemma_zero_arithmetic(velocity, pull);
    let c = coefficient(position, velocity, target, omega);
    lemma_zero_arithmetic(c, dt);
    lemma_zero_arithmetic(c.mul(dt), displacement);
    let swing = displacement.add(c.mul(dt));
    lemma_zero_arithmetic(swing, decay);
    lemma_zero_arithmetic(swing.mul(decay), target);
    lemma_zero_arithmetic(c, omega);
    let brake = omega.mul(c);
    lemma_zero_arithmetic(brake, dt);
    lemma_zero_arithmetic(brake.mul(dt), velocity);
    let rest = velocity.sub(brake.mul(dt));
    lemma_zero_arithmetic(rest, decay);
}

/// The swing of a spring after a step: what is left of its way to the target.
pub open spec fn swing(
    position: Double,
    velocity: Double,
    target: Double,
    omega: Double,
    dt: Double,
    decay: Double,
) -> Double {
    position.sub(target).add(coefficient(position, velocity, target, omega).mul(dt)).mul(decay)
}

/// A spring does not overshoot: one that has not passed its target, and whose coefficient does not
/// carry it there, has not passed the target after a step either, from whichever side it comes.
pub proof fn lemma_no_overshoot(
    position: Double,
    velocity: Double,
    target: Double,
    omega: Double,
    dt: Double,
    decay: Double,
)
    requires
        target.is_finite(),
        dt.is_finite() && dt.value() >= 0,
        decay.is_finite() && decay.value() >= 0,
        swing(position, velocity, target, omega, dt, decay).is_finite(),
    ensures
        ({
            let c = coefficient(position, velocity, target, omega);
            let p = stepped_position(position, velocity, target, omega, dt, decay);
            &&& position.le(target) && c.value() <= 0 ==> p.le(target)
            &&& target.le(position) && c.value() >= 0 ==> target.le(p)
        }),
{
    let d = position.sub(target);
    let c = coefficient(position, velocity, target, omega);
    let way = d.add(c.mul(dt));
    let s = swing(position, velocity, target, omega, dt, decay);
    reveal(Double::spec_le);
    lemma_finite_product(way, decay);
    lemma_finite_sum(d, c.mul(dt));
    lemma_finite_product(c, dt);
    lemma_signs_of_displacement(position, target);
    lemma_signs_of_product(c, dt);
    lemma_signs_of_sum(d, c.mul(dt));
    lemma_signs_of_product(way, decay);
    lemma_rank_of_sum(target, s);
    lemma_rank_of_value(target);
    if s.value() <= 0 {
        lemma_rank_monotone(target.value() + s.value(), target.value(), 1);
    }
    if s.value() >= 0 {
        lemma_rank_monotone(target.value(), target.value() + s.value(), 1);
    }
}

proof fn lemma_signs_of_displacement(position: Double, target: Double)
    requires
        position.sub(target).is_finite(),
    ensures
        position.is_finite(),
        position.le(target) ==> position.sub(target).value() <= 0,
        target.le(position) ==> position.sub(target).value() >= 0,
{
    lemma_finite_sum(position, target.neg());
    assert(target.is_finite()) by {
        reveal(Double::spec_neg);
    }
    lemma_negated(target);
    lemma_order_of_values(position, target);
    lemma_order_of_values(target, position);
    lemma_signs_of_sum(position, target.neg());
}

/// A spring that is let go from rest does not overshoot, from whichever side it comes.
pub proof fn lemma_release_does_not_overshoot(
    position: Double,
    velocity: Double,
    target: Double,
    omega: Double,
    dt: Double,
    decay: Double,
)
    requires
        is_zero(velocity),
        target.is_finite(),
        omega.is_finite() && omega.value() >= 0,
        dt.is_finite() && dt.value() >= 0,
        decay.is_finite() && decay.value() >= 0,
        swing(position, velocity, target, omega, dt, decay).is_finite(),
    ensures
        ({
            let p = stepped_position(position, velocity, target, omega, dt, decay);
            &&& position.le(target) ==> p.le(target)
            &&& target.le(position) ==> target.le(p)
        }),
{
    let d = position.sub(target);
    let pull = omega.mul(d);
    let c = coefficient(position, velocity, target, omega);
    lemma_finite_product(d.add(c.mul(dt)), decay);
    lemma_finite_sum(d, c.mul(dt));
    lemma_finite_product(c, dt);
    lemma_finite_sum(velocity, pull);
    lemma_signs_of_displacement(position, target);
    lemma_product_is_commutative(omega, d);
    lemma_signs_of_product(d, omega);
    lemma_zero_arithmetic(velocity, pull);
    lemma_no_overshoot(position, velocity, target, omega, dt, decay);
}

/// The velocity of a spring that is let go from rest does not point away from its target.
pub proof fn lemma_release_velocity(
    position: Double,
    velocity: Double,
    target: Double,
    omega: Double,
    dt: Double,
    decay: Double,
)
    requires
        is_zero(velocity),
        omega.is_finite() && omega.value() >= 0,
        dt.is_finite() && dt.value() >= 0,
        decay.is_finite() && decay.value() >= 0,
        stepped_velocity(position, velocity, target, omega, dt, decay).is_finite(),
    ensures
        ({
            let u = stepped_velocity(position, velocity, target, omega, dt, decay);
            &&& position.le(target) ==> u.value() >= 0
            &&& target.le(position) ==> u.value() <= 0
        }),
{
    let d = position.sub(target);
    let pull = omega.mul(d);
    let c = coefficient(position, velocity, target, omega);
    let brake = omega.mul(c);
    let slow = brake.mul(dt);
    let rest = velocity.sub(slow);
    lemma_finite_product(rest, decay);
    lemma_finite_sum(velocity, slow.neg());
    lemma_negated(slow);
    lemma_finite_product(brake, dt);
    lemma_finite_product(omega, c);
    lemma_finite_sum(velocity, pull);
    lemma_finite_product(omega, d);
    lemma_signs_of_displacement(position, target);
    lemma_product_is_commutative(omega, d);
    lemma_signs_of_product(d, omega);
    lemma_zero_arithmetic(velocity, pull);
    lemma_product_is_commutative(omega, c);
    lemma_signs_of_product(c, omega);
    lemma_signs_of_product(brake, dt);
    lemma_signs_of_sum(velocity, slow.neg());
    lemma_signs_of_product(rest, decay);
}

/// A spring whose swing fades: it is at most `2^n` pixels off its target and not faster than
/// `2^(n + 5)` pixels per second, its frequency is at most 32, and over a step of at most `2^k`
/// seconds its swing shrinks to `2^-(n + k + 14)` of what it was.
pub open spec fn fades(
    position: Double,
    velocity: Double,
    target: Double,
    omega: Double,
    dt: Double,
    decay: Double,
    n: int,
    k: int,
) -> bool {
    &&& is_within(target, 900)
    &&& is_within(position.sub(target), n)
    &&& is_within(velocity, n + 5)
    &&& is_within(omega, 5)
    &&& is_within(dt, k)
    &&& is_within(decay, -(n + k + 14))
}

/// A spring whose swing fades ends at its target, up to what does not show.
pub proof fn lemma_spring_fades(
    position: Double,
    velocity: Double,
    target: Double,
    omega: Double,
    dt: Double,
    decay: Double,
    n: int,
    k: int,
)
    requires
        fades(position, velocity, target, omega, dt, decay, n, k),
        0 <= n <= 400,
        0 <= k <= 400,
    ensures
        stepped_position(position, velocity, target, omega, dt, decay).sub(target).abs().le(
            Double::from_bits(POSITION_EPSILON),
        ),
        stepped_velocity(position, velocity, target, omega, dt, decay).abs().le(
            Double::from_bits(VELOCITY_EPSILON),
        ),
{
    let d = position.sub(target);
    let pull = omega.mul(d);
    let c = velocity.add(pull);
    let way = d.add(c.mul(dt));
    let s = way.mul(decay);
    let p = target.add(s);
    lemma_product_within(omega, d, 5, n);
    lemma_sum_within(velocity, pull, n + 5);
    lemma_product_within(c, dt, n + 6, k);
    lemma_within(d, n, n + 6 + k);
    lemma_sum_within(d, c.mul(dt), n + 6 + k);
    lemma_product_within(way, decay, n + 7 + k, -(n + k + 14));
    // The position.
    lemma_within(s, -7, 900);
    lemma_sum_within(target, s, 900);
    lemma_sum_is_near(target, s);
    lemma_pow2_unfold(1068);
    lemma_difference_within(p, target, -6);
    let near = Double::from_bits(POSITION_EPSILON);
    lemma_pattern_value(near, 0x14_7ae1_47ae_147b, 1016);
    lemma2_to64_rest();
    lemma_pow2_adds(52, 1016);
    assert(0x14_7ae1_47ae_147b * pow2(1016) >= 0x10_0000_0000_0000 * pow2(1016));
    lemma_absolute(p.sub(target));
    lemma_order_of_values(p.sub(target).abs(), near);
    // The velocity.
    let brake = omega.mul(c);
    lemma_product_within(omega, c, 5, n + 6);
    lemma_product_within(brake, dt, n + 11, k);
    lemma_within(velocity, n + 5, n + 11 + k);
    lemma_sum_within(velocity, brake.mul(dt), n + 11 + k);
    let rest = velocity.sub(brake.mul(dt));
    lemma_product_within(rest, decay, n + 12 + k, -(n + k + 14));
    let v = rest.mul(decay);
    lemma_within(v, -2, -1);
    lemma_absolute(v);
    lemma_power_value(Double::from_bits(VELOCITY_EPSILON), 1073);
    lemma_order_of_values(v.abs(), Double::from_bits(VELOCITY_EPSILON));
}

/// Every motion ends: when the swing of every corner has faded, the springs stop at their targets.
pub proof fn lemma_motion_ends(s: SpringState, now: u128, decay: [Double; 4], n: int, k: int)
    requires
        s.moving,
        now > s.last_tick,
        0 <= n <= 400,
        0 <= k <= 400,
        forall|i: int| 0 <= i < 4 ==> #[trigger] s.corner_fades(i, s.elapsed(now), decay, n, k),
    ensures
        s.advanced(now, decay) == (SpringState { last_tick: now, ..s }).stopped(),
{
    let dt = s.elapsed(now);
    lemma_steps(s, now);
    let moved = (SpringState { last_tick: now, ..s }).stepped(dt, decay);
    assert forall|i: int| 0 <= i < 4 implies #[trigger] moved.corner_settled(i) by {
        assert(s.corner_fades(i, dt, decay, n, k));
        let (c, t, v) = (s.current[i], s.target[i], s.velocity[i]);
        lemma_spring_fades(c.x, v[0], t.x, s.omega[i], dt, decay[i], n, k);
        lemma_spring_fades(c.y, v[1], t.y, s.omega[i], dt, decay[i], n, k);
        assert(i == 0 || i == 1 || i == 2 || i == 3);
    }
}

} // verus!
