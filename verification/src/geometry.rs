//! Points and rectangles of the canvas, and the four corners of a caret.
use crate::accuracy::{
    is_within, lemma_pow2_order, lemma_product_within, lemma_quotient_within, lemma_rounded_error,
    lemma_rounded_near, lemma_rounded_within, lemma_sum_within, lemma_within,
};
use crate::double::Double;
use crate::exact::{
    is_whole, lemma_absolute, lemma_exact_i32, lemma_negated, lemma_order_of_values,
    lemma_pattern_value, lemma_power_value, lemma_rank_monotone, lemma_rank_of_product,
    lemma_rank_of_quotient, lemma_rank_of_sum, lemma_rank_of_value, lemma_rank_scaled,
    lemma_value_of_rank, lemma_whole_difference, lemma_whole_sum, lemma_zero_arithmetic,
    magnitude_of, rank_of,
};
use crate::float::{lemma_zero_units, WIDE};
use vstd::arithmetic::power2::{
    lemma2_to64, lemma2_to64_rest, lemma_pow2_adds, lemma_pow2_pos, lemma_pow2_unfold, pow2,
};
use vstd::prelude::*;

verus! {

/// Centre frequency of the critically damped corner springs, in radians/sec: 26.
pub const SPRING_OMEGA: u64 = 0x403a_0000_0000_0000;

/// Leading corners respond faster and trailing corners slower. The projection along the movement
/// direction interpolates across this range: 6.
pub const SPRING_DEFORMATION: u64 = 0x4018_0000_0000_0000;

/// Distances up to 0.02 pixels count as none.
pub const POSITION_EPSILON: u64 = 0x3f94_7ae1_47ae_147b;

/// The least divisor: 1e-9.
pub const EPS: u64 = 0x3e11_2e0b_e826_d695;

pub const ZERO: u64 = 0;

pub const QUARTER: u64 = 0x3fd0_0000_0000_0000;

pub const HALF: u64 = 0x3fe0_0000_0000_0000;

pub const ONE: u64 = 0x3ff0_0000_0000_0000;

pub const MINUS_ONE: u64 = 0xbff0_0000_0000_0000;

pub const INFINITY: u64 = 0x7ff0_0000_0000_0000;

pub const MINUS_INFINITY: u64 = 0xfff0_0000_0000_0000;

/// A point of the canvas, or a way across it.
#[derive(Clone, Copy, PartialEq, Eq, Structural, Debug)]
pub struct Point {
    pub x: Double,
    pub y: Double,
}

/// A rectangle of whole pixels, as carets are reported.
#[derive(Clone, Copy, PartialEq, Eq, Structural, Debug)]
pub struct Rect {
    pub x: i32,
    pub y: i32,
    pub w: i32,
    pub h: i32,
}

/// A rectangle of the canvas.
#[derive(Clone, Copy, PartialEq, Eq, Structural, Debug)]
pub struct RectF {
    pub loc: Point,
    pub w: Double,
    pub h: Double,
}

impl Point {
    pub open spec fn spec_plus(self, other: Point) -> Point {
        Point { x: self.x.add(other.x), y: self.y.add(other.y) }
    }

    #[verifier::when_used_as_spec(spec_plus)]
    pub fn plus(self, other: Point) -> (r: Point)
        ensures
            r == self.plus(other),
    {
        Point { x: self.x.add(other.x), y: self.y.add(other.y) }
    }

    pub open spec fn spec_minus(self, other: Point) -> Point {
        Point { x: self.x.sub(other.x), y: self.y.sub(other.y) }
    }

    #[verifier::when_used_as_spec(spec_minus)]
    pub fn minus(self, other: Point) -> (r: Point)
        ensures
            r == self.minus(other),
    {
        Point { x: self.x.sub(other.x), y: self.y.sub(other.y) }
    }
}

pub open spec fn spec_rect_i32_to_f64(r: Rect) -> RectF {
    RectF {
        loc: Point { x: Double::from_i32(r.x), y: Double::from_i32(r.y) },
        w: Double::from_i32(r.w),
        h: Double::from_i32(r.h),
    }
}

/// A rectangle of whole pixels as a rectangle of the canvas.
#[verifier::when_used_as_spec(spec_rect_i32_to_f64)]
pub fn rect_i32_to_f64(r: Rect) -> (f: RectF)
    ensures
        f == rect_i32_to_f64(r),
{
    RectF {
        loc: Point { x: Double::from_i32(r.x), y: Double::from_i32(r.y) },
        w: Double::from_i32(r.w),
        h: Double::from_i32(r.h),
    }
}

pub open spec fn spec_rect_corners(rect: RectF) -> [Point; 4] {
    let zero = Double::from_bits(ZERO);
    [
        rect.loc,
        rect.loc.plus(Point { x: rect.w, y: zero }),
        rect.loc.plus(Point { x: rect.w, y: rect.h }),
        rect.loc.plus(Point { x: zero, y: rect.h }),
    ]
}

/// The corners of a rectangle: clockwise, from the one at its location.
#[verifier::when_used_as_spec(spec_rect_corners)]
pub fn rect_corners(rect: RectF) -> (r: [Point; 4])
    ensures
        r == rect_corners(rect),
{
    let zero = Double::from_bits(ZERO);
    [
        rect.loc,
        rect.loc.plus(Point { x: rect.w, y: zero }),
        rect.loc.plus(Point { x: rect.w, y: rect.h }),
        rect.loc.plus(Point { x: zero, y: rect.h }),
    ]
}

pub open spec fn spec_points_equal(a: Point, b: Point) -> bool {
    let half = Double::from_bits(HALF);
    a.x.sub(b.x).abs().lt(half) && a.y.sub(b.y).abs().lt(half)
}

/// Whether two points are less than half a pixel apart, in both directions.
#[verifier::when_used_as_spec(spec_points_equal)]
pub fn points_equal(a: Point, b: Point) -> (r: bool)
    ensures
        r == points_equal(a, b),
{
    let half = Double::from_bits(HALF);
    a.x.sub(b.x).abs().lt(half) && a.y.sub(b.y).abs().lt(half)
}

pub open spec fn spec_corners_equal(a: &[Point; 4], b: &[Point; 4]) -> bool {
    forall|i: int| 0 <= i < 4 ==> #[trigger] points_equal(a[i], b[i])
}

/// Whether each corner is less than half a pixel from its counterpart.
#[verifier::when_used_as_spec(spec_corners_equal)]
pub fn corners_equal(a: &[Point; 4], b: &[Point; 4]) -> (r: bool)
    ensures
        r == corners_equal(a, b),
{
    let mut i: usize = 0;
    while i < 4
        invariant
            i <= 4,
            forall|j: int| 0 <= j < i ==> #[trigger] points_equal(a[j], b[j]),
        decreases 4 - i,
    {
        if !points_equal(a[i], b[i]) {
            return false;
        }
        i = i + 1;
    }
    true
}

pub open spec fn spec_corners_center(c: &[Point; 4]) -> Point {
    let zero = Double::from_bits(ZERO);
    let quarter = Double::from_bits(QUARTER);
    Point {
        x: zero.add(c[0].x).add(c[1].x).add(c[2].x).add(c[3].x).mul(quarter),
        y: zero.add(c[0].y).add(c[1].y).add(c[2].y).add(c[3].y).mul(quarter),
    }
}

/// The mean of the corners.
#[verifier::when_used_as_spec(spec_corners_center)]
pub fn corners_center(c: &[Point; 4]) -> (r: Point)
    ensures
        r == corners_center(c),
{
    let zero = Double::from_bits(ZERO);
    let quarter = Double::from_bits(QUARTER);
    Point {
        x: zero.add(c[0].x).add(c[1].x).add(c[2].x).add(c[3].x).mul(quarter),
        y: zero.add(c[0].y).add(c[1].y).add(c[2].y).add(c[3].y).mul(quarter),
    }
}

pub open spec fn spec_movement(current: &[Point; 4], target: &[Point; 4]) -> Point {
    corners_center(target).minus(corners_center(current))
}

/// The way from the centre of the current corners to that of the target.
#[verifier::when_used_as_spec(spec_movement)]
pub fn movement(current: &[Point; 4], target: &[Point; 4]) -> (r: Point)
    ensures
        r == movement(current, target),
{
    corners_center(target).minus(corners_center(current))
}

pub open spec fn spec_projection(corner: Point, center: Point, direction: Point) -> Double {
    corner.x.sub(center.x).mul(direction.x).add(corner.y.sub(center.y).mul(direction.y))
}

/// How far a corner lies before the centre, seen along a direction.
#[verifier::when_used_as_spec(spec_projection)]
pub fn projection(corner: Point, center: Point, direction: Point) -> (r: Double)
    ensures
        r == projection(corner, center, direction),
{
    corner.x.sub(center.x).mul(direction.x).add(corner.y.sub(center.y).mul(direction.y))
}

/// The direction of a movement of the given length.
pub open spec fn direction_of(movement: Point, distance: Double) -> Point {
    Point { x: movement.x.div(distance), y: movement.y.div(distance) }
}

/// The largest projection of a corner, either way, and at least `EPS`.
pub open spec fn max_projection(target: &[Point; 4], direction: Point) -> Double {
    let center = corners_center(target);
    Double::from_bits(ZERO)
        .max(projection(target[0], center, direction).abs())
        .max(projection(target[1], center, direction).abs())
        .max(projection(target[2], center, direction).abs())
        .max(projection(target[3], center, direction).abs())
        .max(Double::from_bits(EPS))
}

pub open spec fn spec_frequency(ratio: Double) -> Double {
    Double::from_bits(SPRING_OMEGA).add(
        Double::from_bits(SPRING_DEFORMATION).mul(
            ratio.clamp(Double::from_bits(MINUS_ONE), Double::from_bits(ONE)),
        ),
    )
}

/// The frequency of a corner whose projection is the given fraction of the largest one.
#[verifier::when_used_as_spec(spec_frequency)]
pub fn frequency(ratio: Double) -> (r: Double)
    ensures
        r == frequency(ratio),
{
    let minus_one = Double::from_bits(MINUS_ONE);
    let one = Double::from_bits(ONE);
    assert(minus_one.le(one)) by {
        reveal(Double::spec_le);
    }
    Double::from_bits(SPRING_OMEGA).add(
        Double::from_bits(SPRING_DEFORMATION).mul(ratio.clamp(minus_one, one)),
    )
}

pub open spec fn spec_corner_frequencies(
    current: &[Point; 4],
    target: &[Point; 4],
    distance: Double,
) -> [Double; 4] {
    if distance.lt(Double::from_bits(POSITION_EPSILON)) {
        [
            Double::from_bits(SPRING_OMEGA),
            Double::from_bits(SPRING_OMEGA),
            Double::from_bits(SPRING_OMEGA),
            Double::from_bits(SPRING_OMEGA),
        ]
    } else {
        let center = corners_center(target);
        let direction = direction_of(movement(current, target), distance);
        let most = max_projection(target, direction);
        [
            frequency(projection(target[0], center, direction).div(most)),
            frequency(projection(target[1], center, direction).div(most)),
            frequency(projection(target[2], center, direction).div(most)),
            frequency(projection(target[3], center, direction).div(most)),
        ]
    }
}

/// The spring frequency of each corner for the way from `current` to `target`, whose length is
/// `distance`.
#[verifier::when_used_as_spec(spec_corner_frequencies)]
pub fn corner_frequencies(
    current: &[Point; 4],
    target: &[Point; 4],
    distance: Double,
) -> (r: [Double; 4])
    ensures
        r == corner_frequencies(current, target, distance),
{
    let omega = Double::from_bits(SPRING_OMEGA);
    if distance.lt(Double::from_bits(POSITION_EPSILON)) {
        return [omega, omega, omega, omega];
    }
    let center = corners_center(target);
    let way = movement(current, target);
    let direction = Point { x: way.x.div(distance), y: way.y.div(distance) };
    let p0 = projection(target[0], center, direction);
    let p1 = projection(target[1], center, direction);
    let p2 = projection(target[2], center, direction);
    let p3 = projection(target[3], center, direction);
    let most = Double::from_bits(ZERO).max(p0.abs()).max(p1.abs()).max(p2.abs()).max(p3.abs()).max(
        Double::from_bits(EPS),
    );
    [
        frequency(p0.div(most)),
        frequency(p1.div(most)),
        frequency(p2.div(most)),
        frequency(p3.div(most)),
    ]
}

/// The least rectangle around some points.
#[derive(Clone, Copy, PartialEq, Eq, Structural, Debug)]
pub struct Bounds {
    pub min_x: Double,
    pub min_y: Double,
    pub max_x: Double,
    pub max_y: Double,
}

pub open spec fn spec_lower(a: Double, b: Double) -> Double {
    if b.lt(a) {
        b
    } else {
        a
    }
}

/// `b` if it is less, else `a`.
#[verifier::when_used_as_spec(spec_lower)]
pub fn lower(a: Double, b: Double) -> (r: Double)
    ensures
        r == lower(a, b),
{
    if b.lt(a) {
        b
    } else {
        a
    }
}

pub open spec fn spec_upper(a: Double, b: Double) -> Double {
    if a.lt(b) {
        b
    } else {
        a
    }
}

/// `b` if it is more, else `a`.
#[verifier::when_used_as_spec(spec_upper)]
pub fn upper(a: Double, b: Double) -> (r: Double)
    ensures
        r == upper(a, b),
{
    if a.lt(b) {
        b
    } else {
        a
    }
}

pub open spec fn spec_bounds(pts: &[Point; 4]) -> Bounds {
    let high = Double::from_bits(INFINITY);
    let low = Double::from_bits(MINUS_INFINITY);
    Bounds {
        min_x: lower(lower(lower(lower(high, pts[0].x), pts[1].x), pts[2].x), pts[3].x),
        min_y: lower(lower(lower(lower(high, pts[0].y), pts[1].y), pts[2].y), pts[3].y),
        max_x: upper(upper(upper(upper(low, pts[0].x), pts[1].x), pts[2].x), pts[3].x),
        max_y: upper(upper(upper(upper(low, pts[0].y), pts[1].y), pts[2].y), pts[3].y),
    }
}

/// The bounds of four points. Coordinates that are not numbers are left out.
#[verifier::when_used_as_spec(spec_bounds)]
pub fn bounds(pts: &[Point; 4]) -> (r: Bounds)
    ensures
        r == bounds(pts),
{
    let high = Double::from_bits(INFINITY);
    let low = Double::from_bits(MINUS_INFINITY);
    Bounds {
        min_x: lower(lower(lower(lower(high, pts[0].x), pts[1].x), pts[2].x), pts[3].x),
        min_y: lower(lower(lower(lower(high, pts[0].y), pts[1].y), pts[2].y), pts[3].y),
        max_x: upper(upper(upper(upper(low, pts[0].x), pts[1].x), pts[2].x), pts[3].x),
        max_y: upper(upper(upper(upper(low, pts[0].y), pts[1].y), pts[2].y), pts[3].y),
    }
}

/// No coordinate that is a number lies outside the bounds, and each bound is such a coordinate
/// or, for want of one, infinite.
pub proof fn lemma_bounds_are_tight(pts: &[Point; 4])
    ensures
        ({
            let b = bounds(pts);
            &&& forall|i: int|
                #![trigger pts[i]]
                0 <= i < 4 ==> {
                    &&& pts[i].x.is_nan() || (b.min_x.le(pts[i].x) && pts[i].x.le(b.max_x))
                    &&& pts[i].y.is_nan() || (b.min_y.le(pts[i].y) && pts[i].y.le(b.max_y))
                }
            &&& b.min_x.bits == INFINITY || exists|i: int| 0 <= i < 4 && b.min_x == pts[i].x
            &&& b.min_y.bits == INFINITY || exists|i: int| 0 <= i < 4 && b.min_y == pts[i].y
            &&& b.max_x.bits == MINUS_INFINITY || exists|i: int| 0 <= i < 4 && b.max_x == pts[i].x
            &&& b.max_y.bits == MINUS_INFINITY || exists|i: int| 0 <= i < 4 && b.max_y == pts[i].y
        }),
{
    reveal(Double::spec_lt);
    reveal(Double::spec_le);
    let (p0, p1, p2, p3) = (pts[0], pts[1], pts[2], pts[3]);
    assert forall|i: int| 0 <= i < 4 implies #[trigger] pts[i] == p0 || pts[i] == p1 || pts[i] == p2
        || pts[i] == p3 by {}
}

/// The corners of a rectangle of whole pixels are exact.
pub proof fn lemma_corners_are_whole(r: Rect)
    ensures
        ({
            let c = rect_corners(rect_i32_to_f64(r));
            &&& is_whole(c[0].x, r.x as int) && is_whole(c[0].y, r.y as int)
            &&& is_whole(c[1].x, r.x + r.w) && is_whole(c[1].y, r.y as int)
            &&& is_whole(c[2].x, r.x + r.w) && is_whole(c[2].y, r.y + r.h)
            &&& is_whole(c[3].x, r.x as int) && is_whole(c[3].y, r.y + r.h)
        }),
{
    lemma_exact_i32(r.x);
    lemma_exact_i32(r.y);
    lemma_exact_i32(r.w);
    lemma_exact_i32(r.h);
    let f = rect_i32_to_f64(r);
    let zero = Double::from_bits(ZERO);
    lemma_pattern_value(zero, 0, 0);
    assert(0 * pow2(0) == 0 && 0 * pow2(1074) == 0);
    lemma_whole_sum(f.loc.x, f.w, r.x as int, r.w as int);
    lemma_whole_sum(f.loc.y, f.h, r.y as int, r.h as int);
    lemma_whole_sum(f.loc.x, zero, r.x as int, 0);
    lemma_whole_sum(f.loc.y, zero, r.y as int, 0);
}

/// The corners of a rectangle of whole pixels are not far away.
pub proof fn lemma_corners_are_near(r: Rect)
    ensures
        corners_finite(&rect_corners(rect_i32_to_f64(r))),
        corners_within(&rect_corners(rect_i32_to_f64(r)), 33),
{
    let c = rect_corners(rect_i32_to_f64(r));
    lemma_corners_are_whole(r);
    lemma2_to64();
    lemma2_to64_rest();
    lemma_pow2_adds(33, 1074);
    assert forall|i: int| #![trigger c[i]] 0 <= i < 4 implies is_within(c[i].x, 33) && is_within(
        c[i].y,
        33,
    ) by {
        let w = pow2(1074);
        assert(i == 0 || i == 1 || i == 2 || i == 3);
        assert forall|n: int| -0x2_0000_0000 <= n <= 0x2_0000_0000 implies magnitude_of(
            #[trigger] (n * w),
        ) <= 0x2_0000_0000 * w by {
            assert(-(0x2_0000_0000 * w) <= n * w <= 0x2_0000_0000 * w) by (nonlinear_arith)
                requires
                    -0x2_0000_0000 <= n <= 0x2_0000_0000,
            ;
        }
    }
}

/// Whole numbers are less than half a pixel apart only if they are the same.
proof fn lemma_whole_near(x: Double, y: Double, a: int, b: int)
    requires
        is_whole(x, a),
        is_whole(y, b),
        -0x2_0000_0000 <= a <= 0x2_0000_0000,
        -0x2_0000_0000 <= b <= 0x2_0000_0000,
    ensures
        x.sub(y).abs().lt(Double::from_bits(HALF)) <==> a == b,
{
    let half = Double::from_bits(HALF);
    lemma_whole_difference(x, y, a, b);
    lemma_absolute(x.sub(y));
    lemma_power_value(half, 1073);
    lemma_order_of_values(x.sub(y).abs(), half);
    lemma_pow2_unfold(1074);
    lemma_pow2_pos(1073);
    let u = pow2(1074);
    if a == b {
        assert((a - b) * u == 0) by (nonlinear_arith)
            requires
                a == b,
        ;
    } else if a > b {
        assert((a - b) * u >= u) by (nonlinear_arith)
            requires
                a - b >= 1,
                u > 0,
        ;
    } else {
        assert((a - b) * u <= -u) by (nonlinear_arith)
            requires
                a - b <= -1,
                u > 0,
        ;
    }
}

/// Two rectangles of whole pixels have equal corners only if they are the same rectangle.
pub proof fn lemma_equal_corners(a: Rect, b: Rect)
    ensures
        corners_equal(&rect_corners(rect_i32_to_f64(a)), &rect_corners(rect_i32_to_f64(b))) <==> a
            == b,
{
    let c = rect_corners(rect_i32_to_f64(a));
    let d = rect_corners(rect_i32_to_f64(b));
    lemma_corners_are_whole(a);
    lemma_corners_are_whole(b);
    lemma_whole_near(c[0].x, d[0].x, a.x as int, b.x as int);
    lemma_whole_near(c[0].y, d[0].y, a.y as int, b.y as int);
    lemma_whole_near(c[1].x, d[1].x, a.x + a.w, b.x + b.w);
    lemma_whole_near(c[1].y, d[1].y, a.y as int, b.y as int);
    lemma_whole_near(c[2].x, d[2].x, a.x + a.w, b.x + b.w);
    lemma_whole_near(c[2].y, d[2].y, a.y + a.h, b.y + b.h);
    lemma_whole_near(c[3].x, d[3].x, a.x as int, b.x as int);
    lemma_whole_near(c[3].y, d[3].y, a.y + a.h, b.y + b.h);
    assert(points_equal(c[0], d[0]) <==> a.x == b.x && a.y == b.y);
    assert(points_equal(c[2], d[2]) <==> a.x + a.w == b.x + b.w && a.y + a.h == b.y + b.h);
    if a == b {
        assert forall|i: int| 0 <= i < 4 implies #[trigger] points_equal(c[i], d[i]) by {
            assert(i == 0 || i == 1 || i == 2 || i == 3);
        }
    }
}

/// The lowest frequency of a corner: 20.
pub const LOWEST_OMEGA: u64 = 0x4034_0000_0000_0000;

/// The highest frequency of a corner: 32.
pub const HIGHEST_OMEGA: u64 = 0x4040_0000_0000_0000;

/// The numbers that the bit patterns stand for.
pub proof fn lemma_frequency_constants()
    ensures
        is_whole(Double::from_bits(SPRING_OMEGA), 26),
        is_whole(Double::from_bits(SPRING_DEFORMATION), 6),
        is_whole(Double::from_bits(ONE), 1),
        is_whole(Double::from_bits(MINUS_ONE), -1),
        is_whole(Double::from_bits(LOWEST_OMEGA), 20),
        is_whole(Double::from_bits(HIGHEST_OMEGA), 32),
{
    lemma2_to64();
    lemma2_to64_rest();
    let one = Double::from_bits(ONE);
    lemma_power_value(one, 1074);
    assert(1 * pow2(1074) == pow2(1074));
    assert(Double::from_bits(MINUS_ONE) == one.neg()) by {
        reveal(Double::spec_neg);
    }
    lemma_negated(one);
    assert(-1 * pow2(1074) == -(pow2(1074) as int));
    lemma_power_value(Double::from_bits(HIGHEST_OMEGA), 1079);
    lemma_pow2_adds(5, 1074);
    lemma_pattern_value(Double::from_bits(SPRING_OMEGA), 0x1a_0000_0000_0000, 1026);
    lemma_pow2_adds(48, 1026);
    assert(0x1a_0000_0000_0000 * pow2(1026) == 26 * (0x1_0000_0000_0000 * pow2(1026)));
    lemma_pattern_value(Double::from_bits(LOWEST_OMEGA), 0x14_0000_0000_0000, 1026);
    assert(0x14_0000_0000_0000 * pow2(1026) == 20 * (0x1_0000_0000_0000 * pow2(1026)));
    lemma_pattern_value(Double::from_bits(SPRING_DEFORMATION), 0x18_0000_0000_0000, 1024);
    lemma_pow2_adds(50, 1024);
    assert(0x18_0000_0000_0000 * pow2(1024) == 6 * (0x4_0000_0000_0000 * pow2(1024)));
}

/// The rank of the frequency, for a clamped ratio.
proof fn lemma_frequency_rank(c: Double)
    requires
        c.is_finite(),
        -pow2(1074) <= c.value() <= pow2(1074),
    ensures
        ({
            let bend = Double::from_bits(SPRING_DEFORMATION).mul(c);
            let f = Double::from_bits(SPRING_OMEGA).add(bend);
            &&& bend.is_finite()
            &&& bend.rank() == rank_of(6 * c.value(), 1)
            &&& -(6 * pow2(1074)) <= bend.value() <= 6 * pow2(1074)
            &&& !f.is_nan()
            &&& f.rank() == rank_of(26 * pow2(1074) + bend.value(), 1)
        }),
{
    let deform = Double::from_bits(SPRING_DEFORMATION);
    let bend = deform.mul(c);
    let w = pow2(1074);
    lemma_pow2_pos(1074);
    lemma_frequency_constants();
    lemma_rank_of_product(deform, c);
    assert((6 * w) * c.value() == (6 * c.value()) * w && 1 * w == w) by (nonlinear_arith);
    lemma_rank_scaled(6 * c.value(), 1, w);
    lemma_rank_monotone(6 * c.value(), (6 * w) as int, 1);
    lemma_rank_monotone(-(6 * w), 6 * c.value(), 1);
    lemma_rank_of_value(deform);
    lemma_negated(deform);
    lemma_rank_of_value(deform.neg());
    lemma_value_of_rank(bend);
    lemma_order_of_values(bend, deform);
    lemma_order_of_values(deform.neg(), bend);
    lemma_order_of_values(deform, bend);
    lemma_order_of_values(bend, deform.neg());
    lemma_rank_of_sum(Double::from_bits(SPRING_OMEGA), bend);
}

proof fn lemma_clamped(ratio: Double)
    requires
        !ratio.is_nan(),
    ensures
        ({
            let c = ratio.clamp(Double::from_bits(MINUS_ONE), Double::from_bits(ONE));
            &&& c.is_finite()
            &&& -pow2(1074) <= c.value() <= pow2(1074)
            &&& ratio.rank() < -(ONE as int) ==> c.rank() == -(ONE as int)
            &&& ratio.rank() > ONE ==> c.rank() == ONE
            &&& -(ONE as int) <= ratio.rank() <= ONE ==> c == ratio
        }),
{
    reveal(Double::spec_lt);
    lemma_frequency_constants();
    assert(1 * pow2(1074) == pow2(1074) && -1 * pow2(1074) == -(pow2(1074) as int));
    let c = ratio.clamp(Double::from_bits(MINUS_ONE), Double::from_bits(ONE));
    lemma_value_of_rank(c);
    lemma_order_of_values(c, Double::from_bits(ONE));
    lemma_order_of_values(Double::from_bits(ONE), c);
    lemma_order_of_values(c, Double::from_bits(MINUS_ONE));
    lemma_order_of_values(Double::from_bits(MINUS_ONE), c);
}

/// Every frequency lies between the lowest and the highest one.
pub proof fn lemma_frequency_range(ratio: Double)
    ensures
        ratio.is_nan() ==> frequency(ratio).is_nan(),
        !ratio.is_nan() ==> Double::from_bits(LOWEST_OMEGA).le(frequency(ratio)),
        !ratio.is_nan() ==> frequency(ratio).le(Double::from_bits(HIGHEST_OMEGA)),
{
    if ratio.is_nan() {
        reveal(Double::spec_lt);
        reveal(Double::spec_mul);
        reveal(Double::spec_add);
    } else {
        reveal(Double::spec_le);
        let c = ratio.clamp(Double::from_bits(MINUS_ONE), Double::from_bits(ONE));
        lemma_clamped(ratio);
        lemma_frequency_rank(c);
        lemma_frequency_constants();
        let bend = Double::from_bits(SPRING_DEFORMATION).mul(c);
        let w = pow2(1074);
        lemma_rank_monotone((20 * w) as int, 26 * w + bend.value(), 1);
        lemma_rank_monotone(26 * w + bend.value(), (32 * w) as int, 1);
        lemma_rank_of_value(Double::from_bits(LOWEST_OMEGA));
        lemma_rank_of_value(Double::from_bits(HIGHEST_OMEGA));
    }
}

/// A corner further ahead is not slower.
pub proof fn lemma_frequency_monotone(behind: Double, ahead: Double)
    requires
        behind.le(ahead),
    ensures
        frequency(behind).le(frequency(ahead)),
{
    reveal(Double::spec_le);
    let minus_one = Double::from_bits(MINUS_ONE);
    let one = Double::from_bits(ONE);
    let a = behind.clamp(minus_one, one);
    let b = ahead.clamp(minus_one, one);
    lemma_clamped(behind);
    lemma_clamped(ahead);
    lemma_order_of_values(b, a);
    lemma_frequency_rank(a);
    lemma_frequency_rank(b);
    let p = Double::from_bits(SPRING_DEFORMATION).mul(a);
    let q = Double::from_bits(SPRING_DEFORMATION).mul(b);
    lemma_rank_monotone(6 * a.value(), 6 * b.value(), 1);
    lemma_order_of_values(q, p);
    lemma_rank_monotone(26 * pow2(1074) + p.value(), 26 * pow2(1074) + q.value(), 1);
}

proof fn lemma_larger(a: Double, b: Double)
    requires
        a.is_finite(),
        b.is_finite(),
    ensures
        a.max(b).is_finite(),
        a.max(b).value() >= a.value(),
        a.max(b).value() >= b.value(),
{
    lemma_order_of_values(a, b);
}

/// The largest projection is a positive number.
pub proof fn lemma_max_projection(target: &[Point; 4], direction: Point)
    requires
        forall|i: int|
            0 <= i < 4 ==> (#[trigger] projection(
                target[i],
                corners_center(target),
                direction,
            )).is_finite(),
    ensures
        max_projection(target, direction).is_finite(),
        max_projection(target, direction).value() > 0,
        forall|i: int|
            0 <= i < 4 ==> magnitude_of(
                (#[trigger] projection(target[i], corners_center(target), direction)).value(),
            ) <= max_projection(target, direction).value(),
{
    let center = corners_center(target);
    let most = max_projection(target, direction);
    let (p0, p1, p2, p3) = (
        projection(target[0], center, direction),
        projection(target[1], center, direction),
        projection(target[2], center, direction),
        projection(target[3], center, direction),
    );
    let zero = Double::from_bits(ZERO);
    let eps = Double::from_bits(EPS);
    lemma_pattern_value(zero, 0, 0);
    lemma_pattern_value(eps, 0x11_2e0b_e826_d695, 992);
    lemma_pow2_pos(992);
    lemma_absolute(p0);
    lemma_absolute(p1);
    lemma_absolute(p2);
    lemma_absolute(p3);
    let m0 = zero.max(p0.abs());
    let m1 = m0.max(p1.abs());
    let m2 = m1.max(p2.abs());
    let m3 = m2.max(p3.abs());
    lemma_larger(zero, p0.abs());
    lemma_larger(m0, p1.abs());
    lemma_larger(m1, p2.abs());
    lemma_larger(m2, p3.abs());
    lemma_larger(m3, eps);
    assert(most == m3.max(eps));
    assert forall|i: int| 0 <= i < 4 implies magnitude_of(
        (#[trigger] projection(target[i], center, direction)).value(),
    ) <= most.value() by {
        assert(i == 0 || i == 1 || i == 2 || i == 3);
    }
}

/// A caret stretches along its way: the frequencies of its corners lie between the lowest and the
/// highest one, and a corner that is further ahead is not slower.
pub proof fn lemma_leading_corners_are_not_slower(
    current: &[Point; 4],
    target: &[Point; 4],
    distance: Double,
    behind: int,
    ahead: int,
)
    requires
        0 <= behind < 4,
        0 <= ahead < 4,
        !distance.lt(Double::from_bits(POSITION_EPSILON)),
        forall|i: int|
            0 <= i < 4 ==> (#[trigger] projection(
                target[i],
                corners_center(target),
                direction_of(movement(current, target), distance),
            )).is_finite(),
        projection(
            target[behind],
            corners_center(target),
            direction_of(movement(current, target), distance),
        ).le(
            projection(
                target[ahead],
                corners_center(target),
                direction_of(movement(current, target), distance),
            ),
        ),
    ensures
        ({
            let omega = corner_frequencies(current, target, distance);
            &&& Double::from_bits(LOWEST_OMEGA).le(omega[behind])
            &&& omega[behind].le(omega[ahead])
            &&& omega[ahead].le(Double::from_bits(HIGHEST_OMEGA))
        }),
{
    let center = corners_center(target);
    let direction = direction_of(movement(current, target), distance);
    let most = max_projection(target, direction);
    lemma_max_projection(target, direction);
    let a = projection(target[behind], center, direction);
    let b = projection(target[ahead], center, direction);
    lemma_order_of_values(a, b);
    lemma_rank_of_quotient(a, most);
    lemma_rank_of_quotient(b, most);
    assert(a.value() * pow2(1074) <= b.value() * pow2(1074)) by (nonlinear_arith)
        requires
            a.value() <= b.value(),
    ;
    lemma_rank_monotone(a.value() * pow2(1074), b.value() * pow2(1074), most.value() as nat);
    assert(a.div(most).le(b.div(most))) by {
        reveal(Double::spec_le);
    }
    lemma_frequency_monotone(a.div(most), b.div(most));
    lemma_frequency_range(a.div(most));
    lemma_frequency_range(b.div(most));
}

/// The corner furthest ahead has the highest frequency and the corner furthest behind the lowest
/// one, unless the caret is all but a point.
pub proof fn lemma_outermost_corners(
    current: &[Point; 4],
    target: &[Point; 4],
    distance: Double,
    i: int,
)
    requires
        0 <= i < 4,
        !distance.lt(Double::from_bits(POSITION_EPSILON)),
        forall|j: int|
            0 <= j < 4 ==> (#[trigger] projection(
                target[j],
                corners_center(target),
                direction_of(movement(current, target), distance),
            )).is_finite(),
        projection(
            target[i],
            corners_center(target),
            direction_of(movement(current, target), distance),
        ).abs() == max_projection(target, direction_of(movement(current, target), distance)),
    ensures
        ({
            let p = projection(
                target[i],
                corners_center(target),
                direction_of(movement(current, target), distance),
            );
            let omega = corner_frequencies(current, target, distance)[i];
            &&& p.value() > 0 ==> omega == Double::from_bits(HIGHEST_OMEGA)
            &&& p.value() < 0 ==> omega == Double::from_bits(LOWEST_OMEGA)
            &&& p.value() != 0
        }),
{
    let center = corners_center(target);
    let direction = direction_of(movement(current, target), distance);
    let most = max_projection(target, direction);
    let p = projection(target[i], center, direction);
    lemma_max_projection(target, direction);
    lemma_absolute(p);
    let w = pow2(1074);
    let v = most.value() as nat;
    lemma_pow2_pos(1074);
    lemma_rank_of_quotient(p, most);
    lemma_rank_scaled(w as int, 1, v);
    lemma_rank_scaled(-w, 1, v);
    assert(w * v == v * w && 1 * v == v && -w * v == -(v as int) * w) by (nonlinear_arith);
    lemma_frequency_constants();
    lemma_rank_of_value(Double::from_bits(ONE));
    lemma_rank_of_value(Double::from_bits(MINUS_ONE));
    let ratio = p.div(most);
    let c = ratio.clamp(Double::from_bits(MINUS_ONE), Double::from_bits(ONE));
    lemma_clamped(ratio);
    lemma_frequency_rank(c);
    lemma_value_of_rank(c);
    lemma_order_of_values(c, Double::from_bits(ONE));
    lemma_order_of_values(Double::from_bits(ONE), c);
    lemma_order_of_values(c, Double::from_bits(MINUS_ONE));
    lemma_order_of_values(Double::from_bits(MINUS_ONE), c);
    let bend = Double::from_bits(SPRING_DEFORMATION).mul(c);
    let deform = Double::from_bits(SPRING_DEFORMATION);
    lemma_rank_of_value(deform);
    lemma_negated(deform);
    lemma_rank_of_value(deform.neg());
    lemma_order_of_values(bend, deform);
    lemma_order_of_values(deform, bend);
    lemma_order_of_values(bend, deform.neg());
    lemma_order_of_values(deform.neg(), bend);
    lemma_rank_of_value(Double::from_bits(LOWEST_OMEGA));
    lemma_rank_of_value(Double::from_bits(HIGHEST_OMEGA));
}

/// Corners of which every coordinate is at most `2^e`.
pub open spec fn corners_within(c: &[Point; 4], e: int) -> bool {
    forall|i: int| #![trigger c[i]] 0 <= i < 4 ==> is_within(c[i].x, e) && is_within(c[i].y, e)
}

/// Corners of which every coordinate is finite.
pub open spec fn corners_finite(c: &[Point; 4]) -> bool {
    forall|i: int| #![trigger c[i]] 0 <= i < 4 ==> c[i].x.is_finite() && c[i].y.is_finite()
}

/// Every frequency lies between the lowest and the highest one.
pub open spec fn is_paced(omega: [Double; 4]) -> bool {
    forall|i: int|
        #![trigger omega[i]]
        0 <= i < 4 ==> Double::from_bits(LOWEST_OMEGA).le(omega[i]) && omega[i].le(
            Double::from_bits(HIGHEST_OMEGA),
        )
}

pub proof fn lemma_direction_within(x: Double, distance: Double, e: int)
    requires
        is_within(x, e),
        0 <= e <= 500,
        !distance.is_nan(),
        !distance.lt(Double::from_bits(POSITION_EPSILON)),
    ensures
        is_within(x.div(distance), e + 6),
{
    let near = Double::from_bits(POSITION_EPSILON);
    lemma_pattern_value(near, 0x14_7ae1_47ae_147b, 1016);
    lemma2_to64_rest();
    lemma_pow2_adds(52, 1016);
    assert(0x14_7ae1_47ae_147b * pow2(1016) >= 0x10_0000_0000_0000 * pow2(1016));
    if distance.is_finite() {
        lemma_order_of_values(distance, near);
        lemma_quotient_within(x, distance, e, -6);
    } else {
        reveal(Double::spec_div);
        lemma_zero_units(WIDE);
    }
}

/// The projections of corners that are not too far away are finite.
proof fn lemma_projection_within(corner: Point, center: Point, direction: Point, e: int)
    requires
        0 <= e <= 200,
        is_within(corner.x, e) && is_within(corner.y, e),
        is_within(center.x, e) && is_within(center.y, e),
        is_within(direction.x, e + 100) && is_within(direction.y, e + 100),
    ensures
        projection(corner, center, direction).is_finite(),
{
    let (x, y) = (corner.x.sub(center.x), corner.y.sub(center.y));
    lemma_sum_within(corner.x, center.x, e);
    lemma_sum_within(corner.y, center.y, e);
    lemma_product_within(x, direction.x, e + 1, e + 100);
    lemma_product_within(y, direction.y, e + 1, e + 100);
    lemma_sum_within(x.mul(direction.x), y.mul(direction.y), 2 * e + 101);
}

/// The way from one place to another is finite, if neither is too far away.
pub proof fn lemma_movement_is_finite(current: &[Point; 4], target: &[Point; 4])
    requires
        corners_within(current, 100),
        corners_within(target, 100),
    ensures
        movement(current, target).x.is_finite(),
        movement(current, target).y.is_finite(),
{
    let (to, from) = (corners_center(target), corners_center(current));
    lemma_mean(target[0].x, target[1].x, target[2].x, target[3].x, 100);
    lemma_mean(target[0].y, target[1].y, target[2].y, target[3].y, 100);
    lemma_mean(current[0].x, current[1].x, current[2].x, current[3].x, 100);
    lemma_mean(current[0].y, current[1].y, current[2].y, current[3].y, 100);
    lemma_sum_within(to.x, from.x, 101);
    lemma_sum_within(to.y, from.y, 101);
}

/// Whatever the way from one place to another, every frequency lies between the lowest and the
/// highest one, as long as the places are not too far away and the distance is a number.
pub proof fn lemma_frequencies_are_paced(
    current: &[Point; 4],
    target: &[Point; 4],
    distance: Double,
)
    requires
        corners_within(current, 100),
        corners_within(target, 100),
        !distance.is_nan(),
    ensures
        is_paced(corner_frequencies(current, target, distance)),
{
    let omega = corner_frequencies(current, target, distance);
    if distance.lt(Double::from_bits(POSITION_EPSILON)) {
        lemma_rest_is_paced(omega);
    } else {
        let center = corners_center(target);
        let from = corners_center(current);
        let way = movement(current, target);
        let direction = direction_of(way, distance);
        let most = max_projection(target, direction);
        lemma_mean(target[0].x, target[1].x, target[2].x, target[3].x, 100);
        lemma_mean(target[0].y, target[1].y, target[2].y, target[3].y, 100);
        lemma_mean(current[0].x, current[1].x, current[2].x, current[3].x, 100);
        lemma_mean(current[0].y, current[1].y, current[2].y, current[3].y, 100);
        lemma_sum_within(center.x, from.x, 101);
        lemma_sum_within(center.y, from.y, 101);
        lemma_direction_within(way.x, distance, 102);
        lemma_direction_within(way.y, distance, 102);
        lemma_within(direction.x, 108, 201);
        lemma_within(direction.y, 108, 201);
        assert forall|i: int| 0 <= i < 4 implies (#[trigger] projection(
            target[i],
            center,
            direction,
        )).is_finite() by {
            lemma_within(target[i].x, 100, 101);
            lemma_within(target[i].y, 100, 101);
            lemma_projection_within(target[i], center, direction, 101);
        }
        lemma_max_projection(target, direction);
        assert forall|i: int| #![trigger omega[i]] 0 <= i < 4 implies Double::from_bits(
            LOWEST_OMEGA,
        ).le(omega[i]) && omega[i].le(Double::from_bits(HIGHEST_OMEGA)) by {
            let p = projection(target[i], center, direction);
            lemma_rank_of_quotient(p, most);
            lemma_frequency_range(p.div(most));
            assert(i == 0 || i == 1 || i == 2 || i == 3);
        }
    }
}

/// The frequency of a caret that is at rest is in the range.
pub proof fn lemma_rest_is_paced(omega: [Double; 4])
    requires
        forall|i: int|
            #![trigger omega[i]]
            0 <= i < 4 ==> omega[i] == Double::from_bits(SPRING_OMEGA),
    ensures
        is_paced(omega),
{
    lemma_frequency_constants();
    let (low, mid, high) = (
        Double::from_bits(LOWEST_OMEGA),
        Double::from_bits(SPRING_OMEGA),
        Double::from_bits(HIGHEST_OMEGA),
    );
    lemma_order_of_values(low, mid);
    lemma_order_of_values(mid, high);
}

/// Ratios that differ by `2^-41` give different frequencies.
proof fn lemma_frequency_strict(a: Double, b: Double)
    requires
        is_within(a, 0),
        is_within(b, 0),
        (b.value() - a.value()) * 0x200_0000_0000 >= pow2(1074),
    ensures
        frequency(a).lt(frequency(b)),
{
    let w = pow2(1074);
    let deform = Double::from_bits(SPRING_DEFORMATION);
    let (p, q) = (deform.mul(a).value(), deform.mul(b).value());
    let (f, g) = (frequency(a), frequency(b));
    lemma_pow2_pos(1074);
    lemma_frequency_error(a);
    lemma_frequency_error(b);
    lemma_four_errors(a.value(), b.value(), p, q, f.value(), g.value(), w as int);
    lemma_order_of_values(f, g);
}

/// How far the frequency for a fraction is from the exact one, step by step.
pub proof fn lemma_frequency_error(a: Double)
    requires
        is_within(a, 0),
    ensures
        ({
            let w = pow2(1074);
            let p = Double::from_bits(SPRING_DEFORMATION).mul(a).value();
            let f = frequency(a);
            &&& f.is_finite()
            &&& -(6 * w) <= p <= 6 * w
            &&& magnitude_of(p - 6 * a.value()) * 0x20_0000_0000_0000 <= magnitude_of(6 * a.value())
            &&& magnitude_of(f.value() - (26 * w + p)) * 0x20_0000_0000_0000 <= magnitude_of(
                26 * w + p,
            )
        }),
{
    let w = pow2(1074);
    let (minus_one, one) = (Double::from_bits(MINUS_ONE), Double::from_bits(ONE));
    lemma_frequency_constants();
    lemma_order_of_values(one, a);
    lemma_order_of_values(a, minus_one);
    assert(1 * w == w && -1 * w == -w);
    assert(a.clamp(minus_one, one) == a);
    lemma_frequency_rank(a);
    let p = Double::from_bits(SPRING_DEFORMATION).mul(a);
    lemma2_to64_rest();
    lemma_rounded_error(p, 6 * a.value(), 1);
    lemma_finite_frequency(a);
    lemma_rounded_error(frequency(a), 26 * w + p.value(), 1);
}

/// Two numbers that are `2^-41` of `w` apart stay apart when six times them, and then 26 times `w`
/// more, are rounded.
proof fn lemma_four_errors(a: int, b: int, p: int, q: int, f: int, g: int, w: int)
    requires
        w > 0,
        -w <= a <= w,
        -w <= b <= w,
        (b - a) * 0x200_0000_0000 >= w,
        -(6 * w) <= p <= 6 * w,
        -(6 * w) <= q <= 6 * w,
        magnitude_of(p - 6 * a) * 0x20_0000_0000_0000 <= magnitude_of(6 * a),
        magnitude_of(q - 6 * b) * 0x20_0000_0000_0000 <= magnitude_of(6 * b),
        magnitude_of(f - (26 * w + p)) * 0x20_0000_0000_0000 <= magnitude_of(26 * w + p),
        magnitude_of(g - (26 * w + q)) * 0x20_0000_0000_0000 <= magnitude_of(26 * w + q),
    ensures
        f < g,
{
    assert((q - p) * 0x20_0000_0000_0000 >= 6 * ((b - a) * 0x20_0000_0000_0000) - 12 * w);
    assert((g - f) * 0x20_0000_0000_0000 >= (q - p) * 0x20_0000_0000_0000 - 64 * w);
}

proof fn lemma_finite_frequency(ratio: Double)
    requires
        !ratio.is_nan(),
    ensures
        frequency(ratio).is_finite(),
{
    lemma_frequency_range(ratio);
    lemma_frequency_constants();
    reveal(Double::spec_le);
    lemma_value_of_rank(frequency(ratio));
}

/// A caret stretches along its way: a corner that is ahead of another one by more than rounding, by
/// a fraction of `2^-40` of the largest projection, is faster.
pub proof fn lemma_leading_corner_is_faster(
    current: &[Point; 4],
    target: &[Point; 4],
    distance: Double,
    behind: int,
    ahead: int,
)
    requires
        0 <= behind < 4,
        0 <= ahead < 4,
        !distance.lt(Double::from_bits(POSITION_EPSILON)),
        forall|i: int|
            0 <= i < 4 ==> (#[trigger] projection(
                target[i],
                corners_center(target),
                direction_of(movement(current, target), distance),
            )).is_finite(),
        ({
            let center = corners_center(target);
            let direction = direction_of(movement(current, target), distance);
            let p = projection(target[behind], center, direction);
            let q = projection(target[ahead], center, direction);
            (q.value() - p.value()) * 0x100_0000_0000 >= max_projection(target, direction).value()
        }),
    ensures
        corner_frequencies(current, target, distance)[behind].lt(
            corner_frequencies(current, target, distance)[ahead],
        ),
{
    let center = corners_center(target);
    let direction = direction_of(movement(current, target), distance);
    let most = max_projection(target, direction);
    let p = projection(target[behind], center, direction);
    let q = projection(target[ahead], center, direction);
    lemma_max_projection(target, direction);
    let m = most.value() as nat;
    let w = pow2(1074);
    lemma_pow2_pos(1074);
    lemma_fraction(p, most);
    lemma_fraction(q, most);
    let (a, b) = (p.div(most), q.div(most));
    lemma_apart(a.value(), b.value(), p.value(), q.value(), m as int, w as int);
    lemma_frequency_strict(a, b);
}

/// A quotient of at most one, and how far it is from the exact one.
pub proof fn lemma_fraction(p: Double, most: Double)
    requires
        p.is_finite(),
        most.is_finite(),
        most.value() > 0,
        magnitude_of(p.value()) <= most.value(),
    ensures
        is_within(p.div(most), 0),
        magnitude_of(p.div(most).value() * most.value() - p.value() * pow2(1074))
            * 0x20_0000_0000_0000 <= 2 * (most.value() * pow2(1074)),
{
    let w = pow2(1074);
    let m = most.value() as nat;
    let x = p.div(most);
    lemma_pow2_pos(1074);
    lemma_rank_of_quotient(p, most);
    lemma_pattern_value(Double::from_bits(ZERO), 0, 0);
    let v = p.value() * w;
    assert(magnitude_of(v) <= m * w) by {
        let n = magnitude_of(p.value());
        assert((-n) * w == -(n * w) && 0 <= n * w <= m * w) by (nonlinear_arith)
            requires
                n <= m,
        ;
    }
    assert(w * m == m * w) by (nonlinear_arith);
    lemma_rounded_within(x, v, m, 1074);
    lemma_rounded_error(x, v, m);
    lemma2_to64_rest();
    lemma_pow2_order(52, 1074);
    assert(m * 0x10_0000_0000_0000 <= m * w) by (nonlinear_arith)
        requires
            0x10_0000_0000_0000 <= w,
    ;
}

proof fn lemma_apart(a: int, b: int, p: int, q: int, m: int, w: int)
    requires
        m > 0,
        w > 0,
        (q - p) * 0x100_0000_0000 >= m,
        magnitude_of(a * m - p * w) * 0x20_0000_0000_0000 <= 2 * (m * w),
        magnitude_of(b * m - q * w) * 0x20_0000_0000_0000 <= 2 * (m * w),
    ensures
        (b - a) * 0x200_0000_0000 >= w,
{
    assert((q * w - p * w) * 0x100_0000_0000 >= m * w) by (nonlinear_arith)
        requires
            (q - p) * 0x100_0000_0000 >= m,
            w > 0,
    ;
    assert((b * m - a * m) * 0x200_0000_0000 >= m * w);
    assert((b - a) * 0x200_0000_0000 >= w) by (nonlinear_arith)
        requires
            (b * m - a * m) * 0x200_0000_0000 >= m * w,
            m > 0,
    ;
}

/// The lesser one.
pub open spec fn least(a: int, b: int) -> int {
    if b < a {
        b
    } else {
        a
    }
}

/// The greater one.
pub open spec fn most(a: int, b: int) -> int {
    if a < b {
        b
    } else {
        a
    }
}

/// The least of four numbers.
pub proof fn lemma_lowest(a: Double, b: Double, c: Double, d: Double)
    requires
        a.is_finite(),
        b.is_finite(),
        c.is_finite(),
        d.is_finite(),
    ensures
        ({
            let m = lower(lower(lower(lower(Double::from_bits(INFINITY), a), b), c), d);
            &&& m.is_finite()
            &&& m.value() == least(least(least(a.value(), b.value()), c.value()), d.value())
        }),
{
    let inf = Double::from_bits(INFINITY);
    assert(a.lt(inf)) by {
        reveal(Double::spec_lt);
    }
    lemma_order_of_values(b, a);
    let m = lower(a, b);
    lemma_order_of_values(c, m);
    lemma_order_of_values(d, lower(m, c));
}

/// The greatest of four numbers.
pub proof fn lemma_highest(a: Double, b: Double, c: Double, d: Double)
    requires
        a.is_finite(),
        b.is_finite(),
        c.is_finite(),
        d.is_finite(),
    ensures
        ({
            let m = upper(upper(upper(upper(Double::from_bits(MINUS_INFINITY), a), b), c), d);
            &&& m.is_finite()
            &&& m.value() == most(most(most(a.value(), b.value()), c.value()), d.value())
        }),
{
    let inf = Double::from_bits(MINUS_INFINITY);
    assert(inf.lt(a)) by {
        reveal(Double::spec_lt);
    }
    lemma_order_of_values(a, b);
    let m = upper(a, b);
    lemma_order_of_values(m, c);
    lemma_order_of_values(upper(m, c), d);
}

/// The bounds of the corners of a rectangle are its sides.
pub proof fn lemma_bounds_of_rectangle(r: RectF)
    requires
        r.loc.x.is_finite() && r.loc.y.is_finite(),
        r.w.is_finite() && r.w.value() >= 0,
        r.h.is_finite() && r.h.value() >= 0,
        r.loc.x.add(r.w).is_finite() && r.loc.y.add(r.h).is_finite(),
    ensures
        ({
            let c = rect_corners(r);
            let b = bounds(&c);
            &&& b.min_x.is_finite() && b.min_x.value() == r.loc.x.value()
            &&& b.min_y.is_finite() && b.min_y.value() == r.loc.y.value()
            &&& b.max_x.is_finite() && b.max_x.value() == r.loc.x.add(r.w).value()
            &&& b.max_y.is_finite() && b.max_y.value() == r.loc.y.add(r.h).value()
            &&& c[1].y.value() == c[0].y.value() && c[2].x == c[1].x
            &&& c[3].x.value() == c[0].x.value() && c[3].y == c[2].y
        }),
{
    let c = rect_corners(r);
    let zero = Double::from_bits(ZERO);
    lemma_pattern_value(zero, 0, 0);
    assert(0 * pow2(0) == 0);
    lemma_zero_arithmetic(zero, r.loc.x);
    lemma_zero_arithmetic(zero, r.loc.y);
    lemma_sum_is_not_less(r.loc.x, r.w);
    lemma_sum_is_not_less(r.loc.y, r.h);
    lemma_lowest(c[0].x, c[1].x, c[2].x, c[3].x);
    lemma_lowest(c[0].y, c[1].y, c[2].y, c[3].y);
    lemma_highest(c[0].x, c[1].x, c[2].x, c[3].x);
    lemma_highest(c[0].y, c[1].y, c[2].y, c[3].y);
}

proof fn lemma_sum_is_not_less(x: Double, y: Double)
    requires
        x.is_finite(),
        y.is_finite(),
        y.value() >= 0,
        x.add(y).is_finite(),
    ensures
        x.add(y).value() >= x.value(),
{
    lemma_rank_of_sum(x, y);
    lemma_rank_of_value(x);
    lemma_rank_monotone(x.value(), x.value() + y.value(), 1);
    lemma_order_of_values(x.add(y), x);
}

/// A quarter of a number of at most `2^e`.
proof fn lemma_quarter(s: Double, e: int)
    requires
        is_within(s, e),
        -900 <= e <= 800,
    ensures
        is_within(s.mul(Double::from_bits(QUARTER)), e - 2),
        magnitude_of(4 * s.mul(Double::from_bits(QUARTER)).value() - s.value()) <= 2 * pow2(
            (1074 + e - 53) as nat,
        ),
{
    let quarter = Double::from_bits(QUARTER);
    let m = s.mul(quarter);
    let q = pow2(1072);
    let f = (1074 + e) as nat;
    lemma_power_value(quarter, 1072);
    lemma_product_within(s, quarter, e, -2);
    lemma_rank_of_product(s, quarter);
    lemma_pow2_pos(1072);
    lemma_pow2_unfold(1073);
    lemma_pow2_unfold(1074);
    lemma_rank_scaled(s.value(), 4, q);
    lemma_rounded_error(m, s.value(), 4);
    lemma2_to64_rest();
    lemma_pow2_adds((f - 53) as nat, 53);
    lemma_pow2_order(2, (f - 53) as nat);
    lemma2_to64();
    let (x, u) = (magnitude_of(m.value() * 4 - s.value()), pow2((f - 53) as nat));
    assert(x * 0x20_0000_0000_0000 <= u * 0x20_0000_0000_0000 + 4 * 0x10_0000_0000_0000);
}

/// The sum of four numbers of at most `2^e`.
proof fn lemma_sum_of_four(a: Double, b: Double, c: Double, d: Double, e: int)
    requires
        is_within(a, e),
        is_within(b, e),
        is_within(c, e),
        is_within(d, e),
        -900 <= e <= 800,
    ensures
        ({
            let s = Double::from_bits(ZERO).add(a).add(b).add(c).add(d);
            &&& is_within(s, e + 3)
            &&& magnitude_of(s.value() - (a.value() + b.value() + c.value() + d.value())) <= 14
                * pow2((1074 + e - 53) as nat)
        }),
{
    let zero = Double::from_bits(ZERO);
    let s1 = zero.add(a);
    let s2 = s1.add(b);
    let s3 = s2.add(c);
    let s4 = s3.add(d);
    let f = (1074 + e) as nat;
    lemma_pattern_value(zero, 0, 0);
    assert(0 * pow2(0) == 0);
    lemma_zero_arithmetic(zero, a);
    lemma_sum_within(s1, b, e);
    lemma_within(c, e, e + 1);
    lemma_sum_within(s2, c, e + 1);
    lemma_within(d, e, e + 2);
    lemma_sum_within(s3, d, e + 2);
    lemma_rank_of_sum(s1, b);
    lemma_rank_of_sum(s2, c);
    lemma_rank_of_sum(s3, d);
    lemma_pow2_unfold(f + 1);
    lemma_pow2_unfold(f + 2);
    lemma_pow2_unfold(f + 3);
    lemma_rounded_near(s2, s1.value() + b.value(), f + 1);
    lemma_rounded_near(s3, s2.value() + c.value(), f + 2);
    lemma_rounded_near(s4, s3.value() + d.value(), f + 3);
    lemma_pow2_unfold((f - 52) as nat);
    lemma_pow2_unfold((f - 51) as nat);
    lemma_pow2_unfold((f - 50) as nat);
}

/// The mean of four numbers of at most `2^e`.
pub proof fn lemma_mean(a: Double, b: Double, c: Double, d: Double, e: int)
    requires
        is_within(a, e),
        is_within(b, e),
        is_within(c, e),
        is_within(d, e),
        -900 <= e <= 700,
    ensures
        ({
            let m = Double::from_bits(ZERO).add(a).add(b).add(c).add(d).mul(
                Double::from_bits(QUARTER),
            );
            &&& is_within(m, e + 1)
            &&& magnitude_of(4 * m.value() - (a.value() + b.value() + c.value() + d.value()))
                <= pow2((1074 + e - 48) as nat)
        }),
{
    let f = (1074 + e) as nat;
    let s = Double::from_bits(ZERO).add(a).add(b).add(c).add(d);
    lemma_sum_of_four(a, b, c, d, e);
    lemma_quarter(s, e + 3);
    lemma_pow2_unfold((f - 52) as nat);
    lemma_pow2_unfold((f - 51) as nat);
    lemma_pow2_unfold((f - 50) as nat);
    lemma_pow2_unfold((f - 49) as nat);
    lemma_pow2_unfold((f - 48) as nat);
}

/// The centre of a rectangle is the middle of its sides, up to rounding: with numbers of at most
/// `2^e`, it is off by at most `2^(e - 49)`.
pub proof fn lemma_center_of_rectangle(r: RectF, e: int)
    requires
        -900 <= e <= 700,
        is_within(r.loc.x, e) && is_within(r.loc.y, e),
        r.w.is_finite() && r.h.is_finite(),
        is_within(r.loc.x.add(r.w), e) && is_within(r.loc.y.add(r.h), e),
    ensures
        ({
            let m = corners_center(&rect_corners(r));
            let slack = pow2((1074 + e - 48) as nat);
            &&& m.x.is_finite() && m.y.is_finite()
            &&& magnitude_of(2 * m.x.value() - (2 * r.loc.x.value() + r.w.value())) <= slack
            &&& magnitude_of(2 * m.y.value() - (2 * r.loc.y.value() + r.h.value())) <= slack
        }),
{
    let c = rect_corners(r);
    let zero = Double::from_bits(ZERO);
    lemma_pattern_value(zero, 0, 0);
    assert(0 * pow2(0) == 0);
    lemma_zero_arithmetic(zero, r.loc.x);
    lemma_zero_arithmetic(zero, r.loc.y);
    lemma_mean(c[0].x, c[1].x, c[2].x, c[3].x, e);
    lemma_mean(c[0].y, c[1].y, c[2].y, c[3].y, e);
    lemma_side(r.loc.x, r.w, e);
    lemma_side(r.loc.y, r.h, e);
}

/// The far side of a rectangle, up to rounding.
proof fn lemma_side(x: Double, w: Double, e: int)
    requires
        -900 <= e <= 700,
        x.is_finite(),
        w.is_finite(),
        is_within(x.add(w), e),
    ensures
        2 * magnitude_of(x.add(w).value() - (x.value() + w.value())) <= pow2(
            (1074 + e - 48) as nat,
        ),
{
    let f = (1074 + e) as nat;
    let v = x.value() + w.value();
    let r = x.add(w);
    lemma_rank_of_sum(x, w);
    lemma_rounded_error(r, v, 1);
    lemma2_to64_rest();
    lemma_pow2_adds((f - 48) as nat, 48);
    lemma_pow2_pos((f - 48) as nat);
}

} // verus!
