//! What a new target does to the springs, in exact values.
use crate::accuracy::{absolute, exact, is_within, lemma_sum_within, lemma_within, two};
use crate::approx::{counted, lemma_difference_relative, lemma_exact_negated, lemma_sum_relative};
use crate::correct::lemma_difference_is_rounded;
use crate::coverage::{lemma_order_of_exact, point_within};
use crate::double::Double;
use crate::exact::{lemma_negated, lemma_pattern_value, lemma_zero_arithmetic};
use crate::float::WIDE;
use crate::frames::{lemma_exact_absolute, lemma_limits, lemma_whole_exact};
use crate::geometry::{
    corner_frequencies, corners_equal, corners_within, lemma_frequency_constants, movement,
    points_equal, rect_corners, Point, RectF, HALF, SPRING_OMEGA, ZERO,
};
use crate::leading::{lemma_movement_error, mean_x, mean_y};
use crate::spring::{decays_by, retargets, still, swift, SpringState, VELOCITY_EPSILON};
use vstd::arithmetic::power2::pow2;
use vstd::prelude::*;

verus! {

/// The two coordinates are less than half a pixel apart, by more than rounding.
pub open spec fn is_close(a: Double, b: Double) -> bool {
    1000000000000real * absolute(exact(a) - exact(b)) <= 499999999999real
}

/// The two coordinates are half a pixel apart or more.
pub open spec fn is_apart(a: Double, b: Double) -> bool {
    2real * absolute(exact(a) - exact(b)) >= 1real
}

/// All corners are close, in both directions.
pub open spec fn all_close(a: &[Point; 4], b: &[Point; 4]) -> bool {
    forall|i: int|
        #![trigger a[i]]
        0 <= i < 4 ==> is_close(a[i].x, b[i].x) && is_close(a[i].y, b[i].y)
}

/// Some corner is apart, in one direction or the other.
pub open spec fn some_apart(a: &[Point; 4], b: &[Point; 4]) -> bool {
    exists|i: int|
        #![trigger a[i]]
        0 <= i < 4 && (is_apart(a[i].x, b[i].x) || is_apart(a[i].y, b[i].y))
}

/// Some corner is faster than half a pixel per second, in one direction or the other.
pub open spec fn some_fast(s: SpringState) -> bool {
    exists|i: int|
        #![trigger s.velocity[i]]
        0 <= i < 4 && (2real * absolute(exact(s.velocity[i][0])) > 1real || 2real * absolute(
            exact(s.velocity[i][1]),
        ) > 1real)
}

/// Corners of which no coordinate is larger than `2^100`.
pub open spec fn all_moderate(c: &[Point; 4]) -> bool {
    forall|i: int| #![trigger c[i]] 0 <= i < 4 ==> point_within(c[i], 100)
}

/// Half a pixel is the limit, in one direction.
proof fn lemma_half_apart(a: Double, b: Double)
    requires
        is_within(a, 100),
        is_within(b, 100),
    ensures
        is_close(a, b) ==> a.sub(b).abs().lt(Double::from_bits(HALF)),
        is_apart(a, b) ==> !a.sub(b).abs().lt(Double::from_bits(HALF)),
{
    lemma_sum_within(a, b, 100);
    lemma_difference_relative(a, b);
    lemma_exact_absolute(a.sub(b));
    lemma_limits();
    lemma_order_of_exact(a.sub(b).abs(), Double::from_bits(HALF));
    // Half a pixel is a number, so that no difference is rounded past it.
    let half = Double::from_bits(HALF);
    lemma_difference_is_rounded(a, b);
    lemma_negated(half);
    lemma_exact_negated(half);
    assert(half.binary().is_finite(WIDE) && half.neg().binary().is_finite(WIDE));
}

/// Corners are equal if all of them are close, and not if one of them is apart.
pub proof fn lemma_equal_or_apart(a: &[Point; 4], b: &[Point; 4])
    requires
        all_moderate(a),
        all_moderate(b),
    ensures
        all_close(a, b) ==> corners_equal(a, b),
        some_apart(a, b) ==> !corners_equal(a, b),
{
    assert forall|i: int| 0 <= i < 4 implies {
        &&& is_close(a[i].x, b[i].x) && is_close(a[i].y, b[i].y) ==> #[trigger] points_equal(
            a[i],
            b[i],
        )
        &&& is_apart(a[i].x, b[i].x) || is_apart(a[i].y, b[i].y) ==> !points_equal(a[i], b[i])
    } by {
        let (p, q) = (a[i], b[i]);
        lemma_half_apart(p.x, q.x);
        lemma_half_apart(p.y, q.y);
    }
    if some_apart(a, b) {
        let i = choose|i: int|
            #![trigger a[i]]
            0 <= i < 4 && (is_apart(a[i].x, b[i].x) || is_apart(a[i].y, b[i].y));
        assert(!points_equal(a[i], b[i]));
    }
}

/// A velocity counts as motion just if it is more than half a pixel per second.
proof fn lemma_swift(v: Double)
    requires
        v.is_finite(),
    ensures
        swift(v) <==> 2real * absolute(exact(v)) > 1real,
{
    lemma_exact_absolute(v);
    lemma_limits();
    lemma_order_of_exact(Double::from_bits(VELOCITY_EPSILON), v.abs());
}

/// What a new target does, in exact values. Corners and velocities stay what they are. If all
/// corners of the target are close to those of the old one, nothing changes; if one is apart, the
/// springs are aimed at the new target, with the frequencies for the way there, and they move just
/// if a corner is not where it is aimed at or is fast.
pub proof fn lemma_new_target(s: SpringState, rect: RectF, distance: Double)
    requires
        all_moderate(&s.current),
        all_moderate(&s.target),
        all_moderate(&rect_corners(rect)),
        forall|i: int|
            #![trigger s.velocity[i]]
            0 <= i < 4 ==> s.velocity[i][0].is_finite() && s.velocity[i][1].is_finite(),
    ensures
        ({
            let t = s.retargeted(rect, distance);
            let g = rect_corners(rect);
            &&& t.current == s.current
            &&& t.velocity == s.velocity
            &&& t.last_tick == s.last_tick
            &&& all_close(&s.target, &g) ==> t.target == s.target && t.omega == s.omega && t.moving
                == s.moving
            &&& some_apart(&s.target, &g) ==> {
                &&& t.target == g
                &&& t.omega == corner_frequencies(&s.current, &g, distance)
                &&& some_apart(&s.current, &g) || some_fast(s) ==> t.moving
                &&& all_close(&s.current, &g) && !some_fast(s) ==> !t.moving
            }
        }),
{
    let t = s.retargeted(rect, distance);
    let g = rect_corners(rect);
    lemma_equal_or_apart(&s.target, &g);
    lemma_equal_or_apart(&s.current, &g);
    assert forall|i: int, k: int| 0 <= i < 4 && 0 <= k < 2 implies (#[trigger] swift(
        s.velocity[i][k],
    ) <==> 2real * absolute(exact(s.velocity[i][k])) > 1real) by {
        let v = s.velocity[i];
        lemma_swift(v[k]);
    }
    if some_fast(s) {
        let i = choose|i: int|
            #![trigger s.velocity[i]]
            0 <= i < 4 && (2real * absolute(exact(s.velocity[i][0])) > 1real || 2real * absolute(
                exact(s.velocity[i][1]),
            ) > 1real);
        assert(swift(s.velocity[i][0]) || swift(s.velocity[i][1]));
    }
    if exists|i: int, k: int| 0 <= i < 4 && 0 <= k < 2 && #[trigger] swift(s.velocity[i][k]) {
        let (i, k) = choose|i: int, k: int|
            0 <= i < 4 && 0 <= k < 2 && #[trigger] swift(s.velocity[i][k]);
        let v = s.velocity[i];
        assert(k == 0 || k == 1);
        assert(some_fast(s));
    }
}

/// The corners of a rectangle, in exact values: clockwise, from the one at its location. A sum is
/// off by at most `2^-53` of itself.
pub proof fn lemma_corners(rect: RectF)
    requires
        point_within(rect.loc, 99),
        is_within(rect.w, 99),
        is_within(rect.h, 99),
    ensures
        ({
            let c = rect_corners(rect);
            let (x, y, w, h) = (
                exact(rect.loc.x),
                exact(rect.loc.y),
                exact(rect.w),
                exact(rect.h),
            );
            &&& all_moderate(&c)
            &&& exact(c[0].x) == x && exact(c[0].y) == y
            &&& counted(exact(c[1].x) - (x + w)) <= absolute(x + w) && exact(c[1].y) == y
            &&& counted(exact(c[2].x) - (x + w)) <= absolute(x + w)
            &&& counted(exact(c[2].y) - (y + h)) <= absolute(y + h)
            &&& exact(c[3].x) == x && counted(exact(c[3].y) - (y + h)) <= absolute(y + h)
        }),
{
    let c = rect_corners(rect);
    let zero = Double::from_bits(ZERO);
    lemma_pattern_value(zero, 0, 0);
    assert(0 * pow2(0) == 0);
    lemma_zero_arithmetic(zero, rect.loc.x);
    lemma_zero_arithmetic(zero, rect.loc.y);
    lemma_sum_within(rect.loc.x, rect.w, 99);
    lemma_sum_within(rect.loc.y, rect.h, 99);
    lemma_sum_relative(rect.loc.x, rect.w);
    lemma_sum_relative(rect.loc.y, rect.h);
    lemma_within(rect.loc.x, 99, 100);
    lemma_within(rect.loc.y, 99, 100);
    assert forall|i: int| #![trigger c[i]] 0 <= i < 4 implies point_within(c[i], 100) by {
        assert(i == 0 || i == 1 || i == 2 || i == 3);
    }
}

/// A caret that begins is at rest, in exact values: every corner is at its target, without a
/// velocity, and has the frequency 26.
pub proof fn lemma_begins_at_rest(rect: RectF, now: u128)
    ensures
        ({
            let s = SpringState::at_rest(rect, now);
            &&& s.current == rect_corners(rect)
            &&& s.target == rect_corners(rect)
            &&& s.last_tick == now
            &&& !s.moving
            &&& forall|i: int|
                #![trigger s.omega[i]]
                0 <= i < 4 ==> s.omega[i].is_finite() && exact(s.omega[i]) == 26real
            &&& forall|i: int|
                #![trigger s.velocity[i]]
                0 <= i < 4 ==> exact(s.velocity[i][0]) == 0real && exact(s.velocity[i][1]) == 0real
        }),
{
    let s = SpringState::at_rest(rect, now);
    let zero = Double::from_bits(ZERO);
    lemma_pattern_value(zero, 0, 0);
    assert(0 * pow2(0) == 0 && 0 * pow2(1074) == 0);
    lemma_whole_exact(zero, 0);
    lemma_frequency_constants();
    lemma_whole_exact(Double::from_bits(SPRING_OMEGA), 26);
    assert forall|i: int| #![trigger s.velocity[i]] 0 <= i < 4 implies exact(s.velocity[i][0])
        == 0real && exact(s.velocity[i][1]) == 0real by {
        assert(s.velocity[i] == still());
    }
    assert forall|i: int| #![trigger s.omega[i]] 0 <= i < 4 implies s.omega[i].is_finite() && exact(
        s.omega[i],
    ) == 26real by {
        assert(i == 0 || i == 1 || i == 2 || i == 3);
    }
}

/// Each corner has the decay that the exponential function gives for its own exponent.
pub proof fn lemma_decays<E: Fn(Double) -> Double>(
    exp: E,
    x: [Double; 4],
    decay: [Double; 4],
    i: int,
)
    requires
        0 <= i < 4,
        decays_by(exp, Some(x), decay),
    ensures
        call_ensures(exp, (x[i],), decay[i]),
{
    assert(i == 0 || i == 1 || i == 2 || i == 3);
}

/// A new target is aimed at from where the springs are at that time. The distance to it is the
/// length that `hypot` gives for the way from the mean of the current corners to that of the new
/// ones, up to rounding.
pub proof fn lemma_aims_from_there<E: Fn(Double) -> Double, H: Fn(Double, Double) -> Double>(
    before: SpringState,
    after: SpringState,
    rect: RectF,
    now: u128,
    exp: E,
    hypot: H,
    decay: [Double; 4],
    distance: Double,
    b: int,
)
    requires
        retargets(before, after, rect, now, exp, hypot, decay, distance),
        0 <= b <= 100,
        corners_within(&before.advanced(now, decay).current, b),
        corners_within(&before.advanced(now, decay).target, b),
        corners_within(&rect_corners(rect), b),
    ensures
        ({
            let s = before.advanced(now, decay);
            let g = rect_corners(rect);
            &&& decays_by(exp, before.exponents(now), decay)
            &&& after == s.retargeted(rect, distance)
            &&& some_apart(&s.target, &g) ==> exists|x: Double, y: Double|
                #![trigger call_ensures(hypot, (x, y), distance)]
                {
                    &&& call_ensures(hypot, (x, y), distance)
                    &&& counted(exact(x) - (mean_x(&g) - mean_x(&s.current))) <= 19real * two(b)
                    &&& counted(exact(y) - (mean_y(&g) - mean_y(&s.current))) <= 19real * two(b)
                }
        }),
{
    let s = before.advanced(now, decay);
    let g = rect_corners(rect);
    lemma_movement_error(&s.current, &g, b);
    if some_apart(&s.target, &g) {
        lemma_moderate(&s.target, b);
        lemma_moderate(&g, b);
        lemma_equal_or_apart(&s.target, &g);
        let way = movement(&s.current, &g);
        assert(call_ensures(hypot, (way.x, way.y), distance));
    }
}

/// Corners within smaller bounds are moderate.
proof fn lemma_moderate(c: &[Point; 4], b: int)
    requires
        corners_within(c, b),
        0 <= b <= 100,
    ensures
        all_moderate(c),
{
    assert forall|i: int| #![trigger c[i]] 0 <= i < 4 implies point_within(c[i], 100) by {
        let p = c[i];
        lemma_within(p.x, b, 100);
        lemma_within(p.y, b, 100);
    }
}

} // verus!
