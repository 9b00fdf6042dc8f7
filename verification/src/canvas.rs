//! Where the picture of a caret is on the canvas, in exact values.
use crate::accuracy::{
    absolute, exact, is_within, lemma_bounded, lemma_distributes, lemma_exact_within, lemma_ordered,
    lemma_regroups, lemma_scaled_error, lemma_sum_within, lemma_two, lemma_two_adds,
    lemma_two_order, lemma_within, lemma_within_exact, two,
};
use crate::approx::{counted, lemma_difference_relative};
use crate::coverage::{lemma_order_of_exact, lemma_rounds_at, point_within};
use crate::cursor::{
    box_fits, box_of, box_size, box_start, lemma_near_bounds, lemma_near_range, local_points,
    origin_of, picture_pixel, range_fits, solid, CursorView,
};
use crate::double::Double;
use crate::exact::{
    lemma_exact_i32, lemma_negated, lemma_rank_monotone, lemma_rank_of_sum, lemma_rank_of_value,
};
use crate::filling::{lemma_filled, lemma_not_filled};
use crate::frames::lemma_whole_exact;
use crate::geometry::{bounds, lemma_bounds_are_tight, Point, Rect};
use crate::motion::lemma_scale;
use crate::raster::scan_line;
use crate::sides::{
    height_of, lemma_middle_of_row, lemma_sides_come_in_pairs, middle, misses, passes, rises_once,
    row_slack, side_at, spans,
};
use vstd::arithmetic::power2::{lemma_pow2_pos, pow2};
use vstd::prelude::*;

verus! {

/// Each point of a polygon as it is seen from a box is its own point less the start of the box, up
/// to rounding.
pub proof fn lemma_local_points(pts: &[Point; 4], area: Rect, k: int)
    requires
        0 <= k < 4,
        point_within(pts[k], 100),
    ensures
        ({
            let p = local_points(pts, area)[k];
            let (x, y) = (exact(pts[k].x) - area.x as real, exact(pts[k].y) - area.y as real);
            &&& p.x.is_finite() && counted(exact(p.x) - x) <= absolute(x)
            &&& p.y.is_finite() && counted(exact(p.y) - y) <= absolute(y)
        }),
{
    let origin = origin_of(area);
    let p = pts[k];
    assert(k == 0 || k == 1 || k == 2 || k == 3);
    lemma_less_whole(p.x, area.x);
    lemma_less_whole(p.y, area.y);
}

/// A number less an integer.
proof fn lemma_less_whole(x: Double, n: i32)
    requires
        is_within(x, 100),
    ensures
        ({
            let d = x.sub(Double::from_i32(n));
            let e = exact(x) - n as real;
            d.is_finite() && counted(exact(d) - e) <= absolute(e)
        }),
{
    let o = Double::from_i32(n);
    lemma_whole(n);
    lemma_sum_within(x, o, 100);
    lemma_difference_relative(x, o);
}

/// What is at most a number before rounding is so after it.
proof fn lemma_difference_at_most(x: Double, o: Double, m: Double)
    requires
        is_within(x, 100),
        is_within(o, 100),
        m.is_finite(),
        exact(x) - exact(o) <= exact(m),
    ensures
        exact(x.sub(o)) <= exact(m),
{
    lemma_sum_within(x, o, 100);
    lemma_negated(o);
    lemma_rank_of_sum(x, o.neg());
    lemma_rank_of_value(m);
    lemma_pow2_pos(1074);
    let (a, b, c, w) = (
        x.value() as real,
        o.value() as real,
        m.value() as real,
        pow2(1074) as real,
    );
    assert(a - b <= c) by (nonlinear_arith)
        requires
            a / w - b / w <= c / w,
            w > 0real,
    ;
    lemma_rank_monotone(x.value() - o.value(), m.value(), 1);
    lemma_order_of_exact(x.sub(o), m);
    reveal(Double::spec_le);
}

/// The box of a polygon is as small as it can be with a margin of two pixels: its start is two
/// pixels and less than three before the first point, and its end two pixels and less than three
/// after the last one, in both directions.
pub proof fn lemma_box(pts: &[Point; 4])
    requires
        forall|k: int|
            #![trigger pts[k]]
            0 <= k < 4 ==> {
                &&& pts[k].x.is_finite() && exact(pts[k].x) < 2147483646real
                &&& pts[k].y.is_finite() && exact(pts[k].y) < 2147483646real
            },
        box_fits(pts),
    ensures
        ({
            let area = box_of(pts);
            let (x, y) = (area.x as real, area.y as real);
            let (r, s) = (x + area.w as real, y + area.h as real);
            &&& forall|k: int|
                #![trigger pts[k]]
                0 <= k < 4 ==> {
                    &&& x + 2real <= exact(pts[k].x) <= r - 2real
                    &&& y + 2real <= exact(pts[k].y) <= s - 2real
                }
            &&& exists|k: int| #![trigger pts[k]] 0 <= k < 4 && exact(pts[k].x) < x + 3real
            &&& exists|k: int| #![trigger pts[k]] 0 <= k < 4 && exact(pts[k].y) < y + 3real
            &&& exists|k: int| #![trigger pts[k]] 0 <= k < 4 && exact(pts[k].x) > r - 3real
            &&& exists|k: int| #![trigger pts[k]] 0 <= k < 4 && exact(pts[k].y) > s - 3real
        }),
{
    let b = bounds(pts);
    lemma_bounds_are_tight(pts);
    lemma_bounds_are_finite(pts);
    assert forall|k: int| #![trigger pts[k]] 0 <= k < 4 implies {
        &&& exact(b.min_x) <= exact(pts[k].x) <= exact(b.max_x)
        &&& exact(b.min_y) <= exact(pts[k].y) <= exact(b.max_y)
    } by {
        let q = pts[k];
        lemma_order_of_exact(b.min_x, q.x);
        lemma_order_of_exact(q.x, b.max_x);
        lemma_order_of_exact(b.min_y, q.y);
        lemma_order_of_exact(q.y, b.max_y);
    }
    let p = pts[0];
    let i = choose|i: int| 0 <= i < 4 && b.min_x == pts[i].x;
    let j = choose|i: int| 0 <= i < 4 && b.min_y == pts[i].y;
    let m = choose|i: int| 0 <= i < 4 && b.max_x == pts[i].x;
    let n = choose|i: int| 0 <= i < 4 && b.max_y == pts[i].y;
    let (pi, pj, pm, pn) = (pts[i], pts[j], pts[m], pts[n]);
    lemma_box_side(b.min_x, b.max_x);
    lemma_box_side(b.min_y, b.max_y);
}

/// The bounds of finite points are among them.
proof fn lemma_bounds_are_finite(pts: &[Point; 4])
    requires
        forall|k: int|
            #![trigger pts[k]]
            0 <= k < 4 ==> pts[k].x.is_finite() && pts[k].y.is_finite(),
    ensures
        ({
            let b = bounds(pts);
            &&& b.min_x.is_finite() && b.max_x.is_finite()
            &&& b.min_y.is_finite() && b.max_y.is_finite()
            &&& exists|i: int| 0 <= i < 4 && b.min_x == pts[i].x
            &&& exists|i: int| 0 <= i < 4 && b.min_y == pts[i].y
            &&& exists|i: int| 0 <= i < 4 && b.max_x == pts[i].x
            &&& exists|i: int| 0 <= i < 4 && b.max_y == pts[i].y
        }),
{
    let b = bounds(pts);
    let p = pts[0];
    lemma_bounds_are_tight(pts);
    reveal(Double::spec_le);
    assert(b.min_x.le(p.x) && p.x.le(b.max_x) && b.min_y.le(p.y) && p.y.le(b.max_y));
}

/// The box in one direction.
proof fn lemma_box_side(low: Double, high: Double)
    requires
        low.is_finite(),
        high.is_finite(),
        exact(low) <= exact(high) < 2147483646real,
        range_fits(low, high),
    ensures
        ({
            let start = box_start(low) as real;
            let end = start + box_size(low, high) as real;
            &&& start + 2real <= exact(low) < start + 3real
            &&& end - 3real < exact(high) <= end - 2real
        }),
{
    let last: int = 2147483646;
    let (f, c) = (low.floor_i32() as int, high.ceil_i32() as int);
    lemma_rounds_at(low, last);
    lemma_rounds_at(low, f);
    lemma_rounds_at(low, f + 1);
    lemma_rounds_at(high, last);
    lemma_rounds_at(high, f - 1);
    lemma_rounds_at(high, c);
    lemma_rounds_at(high, c - 1);
}

/// How far the point is to the right of the line of a side, times the height of the side.
pub open spec fn beyond(pts: &[Point; 4], i: int, x: real, y: real) -> real {
    height_of(pts, i) * (x - side_at(pts, i, y))
}

/// How far rounding may move a side of the picture, times the height of the side, with corners of
/// at most `2^b`.
pub open spec fn side_slack(pts: &[Point; 4], i: int, b: int) -> real {
    height_of(pts, i) * row_slack(b + 2) + two(2 * b - 45)
}

/// The point is to the right of the side, by more than rounding.
pub open spec fn is_right_of(pts: &[Point; 4], i: int, x: real, y: real, b: int) -> bool {
    beyond(pts, i, x, y) >= side_slack(pts, i, b)
}

/// The point is to the left of the side, by more than rounding.
pub open spec fn is_left_of(pts: &[Point; 4], i: int, x: real, y: real, b: int) -> bool {
    beyond(pts, i, x, y) <= -side_slack(pts, i, b)
}

/// Each vertex is at the height `y` or above it, or below it by more than rounding.
pub open spec fn keeps_clear(pts: &[Point; 4], y: real) -> bool {
    forall|k: int|
        #![trigger pts[k]]
        0 <= k < 4 ==> exact(pts[k].y) <= y || exact(pts[k].y) >= y + two(-20)
}

/// On which side of the line from one point to another a point is.
#[verifier::opaque]
spec fn turn(ax: real, ay: real, bx: real, by_: real, x: real, y: real) -> real {
    (by_ - ay) * (x - ax) - (y - ay) * (bx - ax)
}

/// How far a point is to the right of a side, without a division.
proof fn lemma_beyond(pts: &[Point; 4], i: int, x: real, y: real)
    requires
        0 <= i < 4,
        exact(pts[i].y) != exact(pts[(i + 1) % 4].y),
    ensures
        ({
            let (p, q) = (pts[i], pts[(i + 1) % 4]);
            let t = turn(exact(p.x), exact(p.y), exact(q.x), exact(q.y), x, y);
            beyond(pts, i, x, y) == if exact(p.y) < exact(q.y) {
                t
            } else {
                -t
            }
        }),
{
    reveal(turn);
    let (p, q) = (pts[i], pts[(i + 1) % 4]);
    let (h, u, d, s) = (
        exact(q.y) - exact(p.y),
        y - exact(p.y),
        exact(q.x) - exact(p.x),
        x - exact(p.x),
    );
    let r = u / h;
    assert(h * (s - r * d) == h * s - u * d) by (nonlinear_arith)
        requires
            r == u / h,
            h != 0real,
    {
        assert(r * h == u);
        assert(h * (r * d) == (r * h) * d);
    }
    assert((-h) * (s - r * d) == -(h * (s - r * d))) by (nonlinear_arith);
}

/// A product moves little if its factors do.
proof fn lemma_product_moves(
    p: real,
    q: real,
    p1: real,
    q1: real,
    m: real,
    n: real,
    d: real,
    e: real,
)
    requires
        absolute(p) <= m,
        absolute(q1) <= n,
        absolute(p - p1) <= d,
        absolute(q - q1) <= e,
    ensures
        absolute(p * q - p1 * q1) <= m * e + d * n,
{
    lemma_bounded(p, q - q1, m, e);
    lemma_scaled_error(p, p1, q1, d, n);
    lemma_distributes(q, q1, p);
    lemma_regroups(q, p, 1real);
    lemma_regroups(q1, p, 1real);
    lemma_regroups(q - q1, p, 1real);
}

/// A point stays on its side of a line if the line moves little, wherever it is looked at from.
proof fn lemma_turn_moves(
    a: (real, real),
    b: (real, real),
    from: (real, real),
    a1: (real, real),
    b1: (real, real),
    x: real,
    y: real,
    m: real,
    e: real,
)
    requires
        0real <= a.0 - from.0 <= m && 0real <= a.1 - from.1 <= m,
        0real <= b.0 - from.0 <= m && 0real <= b.1 - from.1 <= m,
        0real <= x <= m && 0real <= y <= m,
        absolute(a.0 - from.0 - a1.0) <= e && absolute(a.1 - from.1 - a1.1) <= e,
        absolute(b.0 - from.0 - b1.0) <= e && absolute(b.1 - from.1 - b1.1) <= e,
        8real * e <= m,
    ensures
        absolute(
            turn(a.0, a.1, b.0, b.1, from.0 + x, from.1 + y) - turn(a1.0, a1.1, b1.0, b1.1, x, y),
        ) <= 8real * (m * e),
{
    reveal(turn);
    let n = m + m / 4real;
    let (u, v) = (from.0 + x - a.0, from.1 + y - a.1);
    lemma_product_moves(b.1 - a.1, u, b1.1 - a1.1, x - a1.0, m, n, 2real * e, e);
    lemma_product_moves(v, b.0 - a.0, y - a1.1, b1.0 - a1.0, m, n, e, 2real * e);
    assert(m * e + (2real * e) * n + (m * (2real * e) + e * n) <= 8real * (m * e))
        by (nonlinear_arith)
        requires
            n == m + m / 4real,
            m >= 0real,
            e >= 0real,
    ;
}

/// The number as it is seen from the start of the box is near what it is on the canvas.
pub open spec fn is_seen(seen: Double, x: real, b: int) -> bool {
    &&& 0real <= x <= two(b + 2)
    &&& is_within(seen, b + 2)
    &&& absolute(x - exact(seen)) <= two(b - 51)
}

/// Where the corners are in their box.
proof fn lemma_corners_in_box(pts: &[Point; 4], b: int)
    requires
        2 <= b <= 28,
        forall|k: int| #![trigger pts[k]] 0 <= k < 4 ==> point_within(pts[k], b),
    ensures
        ({
            let area = box_of(pts);
            let (x, y) = (area.x as real, area.y as real);
            let seen = local_points(pts, area);
            &&& forall|k: int|
                #![trigger seen[k]]
                0 <= k < 4 ==> is_seen(seen[k].x, exact(pts[k].x) - x, b) && is_seen(
                    seen[k].y,
                    exact(pts[k].y) - y,
                    b,
                )
            &&& area.w as real <= two(b + 2)
            &&& area.h as real <= two(b + 2)
        }),
{
    let area = box_of(pts);
    let (x, y) = (area.x as real, area.y as real);
    let seen = local_points(pts, area);
    lemma_two(0);
    lemma_two_order(2, b);
    lemma_scale(0);
    lemma_scale(b);
    assert forall|k: int| #![trigger pts[k]] 0 <= k < 4 implies {
        &&& point_within(pts[k], 28)
        &&& absolute(exact(pts[k].x)) <= two(b)
        &&& absolute(exact(pts[k].y)) <= two(b)
    } by {
        let p = pts[k];
        lemma_within(p.x, b, 28);
        lemma_within(p.y, b, 28);
        lemma_exact_within(p.x, b);
        lemma_exact_within(p.y, b);
    }
    let (lo, first) = (bounds(pts), pts[0]);
    lemma_near_bounds(pts);
    lemma_near_range(lo.min_x, lo.max_x, first.x);
    lemma_near_range(lo.min_y, lo.max_y, first.y);
    lemma_scale(10);
    lemma_scale(20);
    lemma_two_order(b, 28);
    lemma_box(pts);
    let i = choose|k: int| #![trigger pts[k]] 0 <= k < 4 && exact(pts[k].x) < x + 3real;
    let j = choose|k: int| #![trigger pts[k]] 0 <= k < 4 && exact(pts[k].y) < y + 3real;
    let m = choose|k: int|
        #![trigger pts[k]]
        0 <= k < 4 && exact(pts[k].x) > x + area.w as real - 3real;
    let n = choose|k: int|
        #![trigger pts[k]]
        0 <= k < 4 && exact(pts[k].y) > y + area.h as real - 3real;
    let (pi, pj, pm, pn) = (pts[i], pts[j], pts[m], pts[n]);
    assert forall|k: int| #![trigger seen[k]] 0 <= k < 4 implies is_seen(
        seen[k].x,
        exact(pts[k].x) - x,
        b,
    ) && is_seen(seen[k].y, exact(pts[k].y) - y, b) by {
        let p = pts[k];
        lemma_within(p.x, b, 100);
        lemma_within(p.y, b, 100);
        lemma_local_points(pts, area, k);
        lemma_seen(seen[k].x, exact(p.x) - x, b);
        lemma_seen(seen[k].y, exact(p.y) - y, b);
    }
}

/// A number in the box, up to rounding.
proof fn lemma_seen(seen: Double, x: real, b: int)
    requires
        2 <= b <= 28,
        0real <= x <= 2real * two(b) + 3real,
        seen.is_finite(),
        counted(exact(seen) - x) <= absolute(x),
    ensures
        is_seen(seen, x, b),
{
    lemma_two(0);
    lemma_two_order(2, b);
    lemma_scale(0);
    lemma_scale(b - 51);
    lemma_scale(b - 41);
    lemma_scale(b - 31);
    lemma_scale(b - 21);
    lemma_scale(b - 11);
    lemma_scale(b - 1);
    lemma_within_exact(seen, b + 2);
}

/// A corner is above the middle of a row on the canvas as it is in the box.
proof fn lemma_same_height(p: Double, start: i32, py: i32, seen: Double, b: int)
    requires
        2 <= b <= 28,
        is_within(p, b),
        seen == p.sub(Double::from_i32(start)),
        is_seen(seen, exact(p) - start as real, b),
        ({
            let y = start as real + middle(py as int);
            exact(p) <= y || exact(p) >= y + two(-20)
        }),
    ensures
        exact(p) <= start as real + middle(py as int) <==> exact(seen) <= middle(py as int),
        exact(p) >= start as real + middle(py as int) + two(-20) ==> exact(seen) >= middle(
            py as int,
        ) + two(-21),
{
    let o = Double::from_i32(start);
    lemma_middle_of_row(py);
    lemma_whole(start);
    lemma_within(p, b, 100);
    lemma_two_order(b - 51, -23);
    lemma_scale(-23);
    if exact(p) <= start as real + middle(py as int) {
        lemma_difference_at_most(p, o, scan_line(py));
    }
}

/// A whole number.
proof fn lemma_whole(n: i32)
    ensures
        is_within(Double::from_i32(n), 100),
        exact(Double::from_i32(n)) == n as real,
{
    let o = Double::from_i32(n);
    lemma_exact_i32(n);
    lemma_whole_exact(o, n as int);
    lemma_two(0);
    lemma_scale(0);
    lemma_scale(10);
    lemma_scale(20);
    lemma_scale(30);
    lemma_two_order(32, 100);
    lemma_within_exact(o, 100);
}

/// Each coordinate in the box is that on the canvas less that of the start.
proof fn lemma_seen_from_start(pts: &[Point; 4], area: Rect, k: int)
    requires
        0 <= k < 4,
    ensures
        local_points(pts, area)[k].y == pts[k].y.sub(Double::from_i32(area.y)),
{
    assert(k == 0 || k == 1 || k == 2 || k == 3);
}

/// A side that spans a row on the canvas counts there in the box.
proof fn lemma_side_counts(pts: &[Point; 4], i: int, py: i32, b: int)
    requires
        2 <= b <= 28,
        0 <= i < 4,
        forall|k: int| #![trigger pts[k]] 0 <= k < 4 ==> point_within(pts[k], b),
        keeps_clear(pts, box_of(pts).y as real + middle(py as int)),
        spans(pts, i, box_of(pts).y as real + middle(py as int)),
    ensures
        ({
            let seen = local_points(pts, box_of(pts));
            let n = (i + 1) % 4;
            &&& passes(&seen, i, middle(py as int))
            &&& exact(pts[i].y) < exact(pts[n].y) <==> exact(seen[i].y) < exact(seen[n].y)
            &&& exact(pts[i].y) != exact(pts[n].y)
            &&& absolute(height_of(pts, i) - height_of(&seen, i)) <= 2real * two(b - 51)
        }),
{
    let area = box_of(pts);
    let seen = local_points(pts, area);
    let n = (i + 1) % 4;
    let (p, q) = (pts[i], pts[n]);
    let (r, s) = (seen[i], seen[n]);
    lemma_seen_from_start(pts, area, i);
    lemma_seen_from_start(pts, area, n);
    lemma_corners_in_box(pts, b);
    lemma_same_height(p.y, area.y, py, r.y, b);
    lemma_same_height(q.y, area.y, py, s.y, b);
    lemma_small_scale(b);
}

/// A point that is to the right or to the left of a side on the canvas is so in the box.
proof fn lemma_side_in_box(pts: &[Point; 4], i: int, px: int, py: i32, b: int)
    requires
        2 <= b <= 28,
        0 <= i < 4,
        forall|k: int| #![trigger pts[k]] 0 <= k < 4 ==> point_within(pts[k], b),
        0 <= px < box_of(pts).w,
        0 <= py < box_of(pts).h,
        keeps_clear(pts, box_of(pts).y as real + middle(py as int)),
        spans(pts, i, box_of(pts).y as real + middle(py as int)),
    ensures
        ({
            let area = box_of(pts);
            let seen = local_points(pts, area);
            let (x, y) = ((area.x + px) as real, area.y as real + middle(py as int));
            let at = side_at(&seen, i, middle(py as int));
            &&& passes(&seen, i, middle(py as int))
            &&& is_right_of(pts, i, x, y, b) ==> at + row_slack(b + 2) < px as real
            &&& is_left_of(pts, i, x, y, b) ==> px as real + row_slack(b + 2) < at
        }),
{
    let area = box_of(pts);
    let seen = local_points(pts, area);
    let (ox, oy) = (area.x as real, area.y as real);
    let (u, v) = (px as real, middle(py as int));
    let (x, y) = (ox + u, oy + v);
    let n = (i + 1) % 4;
    let (p, q) = (pts[i], pts[n]);
    let (r, s) = (seen[i], seen[n]);
    lemma_corners_in_box(pts, b);
    lemma_side_counts(pts, i, py, b);
    lemma_small_scale(b);
    lemma_beyond(pts, i, x, y);
    lemma_beyond(&seen, i, u, v);
    lemma_turn_moves(
        (exact(p.x), exact(p.y)),
        (exact(q.x), exact(q.y)),
        (ox, oy),
        (exact(r.x), exact(r.y)),
        (exact(s.x), exact(s.y)),
        u,
        v,
        two(b + 2),
        two(b - 51),
    );
    lemma_clear_of_side(
        height_of(pts, i),
        height_of(&seen, i),
        beyond(pts, i, x, y),
        u - side_at(&seen, i, v),
        b,
    );
}

/// What is beyond a side on the canvas by more than rounding is so in the box.
proof fn lemma_clear_of_side(h: real, h1: real, before: real, d: real, b: int)
    requires
        2 <= b <= 28,
        h1 > 0real,
        absolute(h - h1) <= 2real * two(b - 51),
        absolute(before - h1 * d) <= 8real * (two(b + 2) * two(b - 51)),
    ensures
        before >= h * row_slack(b + 2) + two(2 * b - 45) ==> d > row_slack(b + 2),
        before <= -(h * row_slack(b + 2) + two(2 * b - 45)) ==> -d > row_slack(b + 2),
{
    let (e, slack) = (two(b - 51), row_slack(b + 2));
    lemma_small_scale(b);
    lemma_ordered(h1, h + 2real * e, slack);
    lemma_distributes(h, 2real * e, slack);
    lemma_regroups(h, slack, 1real);
    lemma_regroups(h1, slack, 1real);
    lemma_regroups(h + 2real * e, slack, 1real);
    if before >= h * slack + two(2 * b - 45) {
        assert(d > slack) by (nonlinear_arith)
            requires
                h1 * d > h1 * slack,
                h1 > 0real,
        ;
    }
    if before <= -(h * slack + two(2 * b - 45)) {
        assert(-d > slack) by (nonlinear_arith)
            requires
                h1 * d < -(h1 * slack),
                h1 > 0real,
        ;
    }
}

/// Rounding is small against the corners.
proof fn lemma_small_scale(b: int)
    requires
        2 <= b <= 28,
    ensures
        ({
            let (m, e, slack) = (two(b + 2), two(b - 51), row_slack(b + 2));
            &&& 0real < 8real * e <= m
            &&& slack > 0real
            &&& 8real * (m * e) + (2real * e) * slack < two(2 * b - 45)
            &&& 1000000000000000real * two(-21) >= 1000001real
        }),
{
    let (m, e, slack) = (two(b + 2), two(b - 51), row_slack(b + 2));
    lemma_two(0);
    lemma_two_order(2, b);
    lemma_two_order(b - 51, -23);
    lemma_two_order(b - 45, -17);
    lemma_two_order(-29, -17);
    lemma_scale(-29);
    lemma_scale(-21);
    lemma_scale(-20);
    lemma_scale(-10);
    lemma_scale(0);
    lemma_scale(b);
    lemma_two_adds(b + 2, b - 51);
    lemma_scale(2 * b - 49);
    lemma_ordered(slack, m, 2real * e);
    lemma_regroups(2real, e, m);
    lemma_regroups(e, m, 1real);
}

/// The picture on the canvas, on a row that two sides of the caret span. The point of the canvas
/// at the left edge of a pixel and in the middle of its row is in the caret just if it is between
/// the first and the last of these sides: then the pixel has the color of the caret. If it is
/// beyond both of them the pixel is transparent.
pub proof fn lemma_pixel_on_canvas(
    v: CursorView,
    px: int,
    py: int,
    channel: int,
    i: int,
    j: int,
    b: int,
)
    requires
        v.state is Some,
        2 <= b <= 28,
        ({
            let c = &v.state->0.current;
            let area = box_of(c);
            let y = area.y as real + middle(py);
            &&& forall|k: int| #![trigger c[k]] 0 <= k < 4 ==> point_within(c[k], b)
            &&& 0 <= px < area.w
            &&& 0 <= py < area.h
            &&& keeps_clear(c, y)
            &&& 0 <= i < j < 4
            &&& spans(c, i, y)
            &&& spans(c, j, y)
            &&& forall|k: int| 0 <= k < i || j < k < 4 ==> !#[trigger] spans(c, k, y)
        }),
        0 <= channel < 4,
    ensures
        ({
            let c = &v.state->0.current;
            let area = box_of(c);
            let (x, y) = ((area.x + px) as real, area.y as real + middle(py));
            let byte = v.picture()[(4 * area.w) * py + 4 * px + channel];
            &&& is_right_of(c, i, x, y, b) && is_left_of(c, j, x, y, b) ==> byte == v.color[channel]
            &&& is_left_of(c, i, x, y, b) && is_right_of(c, j, x, y, b) ==> byte == v.color[channel]
            &&& is_right_of(c, i, x, y, b) && is_right_of(c, j, x, y, b) ==> byte == 0
            &&& is_left_of(c, i, x, y, b) && is_left_of(c, j, x, y, b) ==> byte == 0
        }),
{
    let c = &v.state->0.current;
    let area = box_of(c);
    let seen = local_points(c, area);
    let row = py as i32;
    lemma_side_in_box(c, i, px, row, b);
    lemma_side_in_box(c, j, px, row, b);
    lemma_rows_in_box(c, row, b);
    let grad = solid(seen[0], v.color);
    lemma_filled(&seen, &grad, area.w, area.h, px, row, channel, i, j, b + 2);
}

/// The sides that span a row on the canvas span it in the box.
proof fn lemma_rows_in_box(pts: &[Point; 4], py: i32, b: int)
    requires
        2 <= b <= 28,
        forall|k: int| #![trigger pts[k]] 0 <= k < 4 ==> point_within(pts[k], b),
        keeps_clear(pts, box_of(pts).y as real + middle(py as int)),
    ensures
        ({
            let area = box_of(pts);
            let seen = local_points(pts, area);
            &&& forall|k: int|
                #![trigger seen[k]]
                0 <= k < 4 ==> point_within(seen[k], b + 2)
            &&& point_within(seen[0], 100)
            &&& forall|k: int|
                0 <= k < 4 && !spans(pts, k, area.y as real + middle(py as int))
                    ==> #[trigger] misses(&seen, k, middle(py as int))
        }),
{
    let area = box_of(pts);
    let seen = local_points(pts, area);
    lemma_corners_in_box(pts, b);
    assert forall|k: int|
        0 <= k < 4 && !spans(pts, k, area.y as real + middle(py as int)) implies #[trigger] misses(
        &seen,
        k,
        middle(py as int),
    ) by {
        let n = (k + 1) % 4;
        let (p, q) = (pts[k], pts[n]);
        let (r, s) = (seen[k], seen[n]);
        lemma_seen_from_start(pts, area, k);
        lemma_seen_from_start(pts, area, n);
        lemma_same_height(p.y, area.y, py, r.y, b);
        lemma_same_height(q.y, area.y, py, s.y, b);
    }
    let first = seen[0];
    lemma_within(first.x, b + 2, 100);
    lemma_within(first.y, b + 2, 100);
}

/// The picture on the canvas, on a row that no side of the caret spans: nothing is shown.
pub proof fn lemma_row_beside_caret(v: CursorView, px: int, py: int, channel: int, b: int)
    requires
        v.state is Some,
        2 <= b <= 28,
        ({
            let c = &v.state->0.current;
            let area = box_of(c);
            let y = area.y as real + middle(py);
            &&& forall|k: int| #![trigger c[k]] 0 <= k < 4 ==> point_within(c[k], b)
            &&& 0 <= px < area.w
            &&& 0 <= py < area.h
            &&& keeps_clear(c, y)
            &&& forall|k: int| 0 <= k < 4 ==> !#[trigger] spans(c, k, y)
        }),
        0 <= channel < 4,
    ensures
        v.picture()[(4 * box_of(&v.state->0.current).w) * py + 4 * px + channel] == 0,
{
    let c = &v.state->0.current;
    let area = box_of(c);
    let seen = local_points(c, area);
    let row = py as i32;
    lemma_rows_in_box(c, row, b);
    let grad = solid(seen[0], v.color);
    assert forall|k: int| 0 <= k < 4 && k != 4 implies #[trigger] misses(
        &seen,
        k,
        middle(row as int),
    ) by {
        assert(!spans(c, k, area.y as real + middle(row as int)));
    }
    lemma_not_filled(&seen, &grad, area.w, area.h, px, row, channel, 4, b + 2);
}

/// What is shown of a convex caret on the canvas, on every row whose middle is between its lowest
/// and its highest corner: the pixels between the two sides that span the row have the color of the
/// caret, and those beyond both of them are transparent. No other side spans the row.
pub proof fn lemma_caret_on_canvas(v: CursorView, py: int, b: int)
    requires
        v.state is Some,
        2 <= b <= 28,
        ({
            let c = &v.state->0.current;
            let area = box_of(c);
            let y = area.y as real + middle(py);
            &&& forall|k: int| #![trigger c[k]] 0 <= k < 4 ==> point_within(c[k], b)
            &&& 0 <= py < area.h
            &&& rises_once(c)
            &&& keeps_clear(c, y)
            &&& exists|k: int| #![trigger c[k]] 0 <= k < 4 && exact(c[k].y) <= y
            &&& exists|k: int| #![trigger c[k]] 0 <= k < 4 && y < exact(c[k].y)
        }),
    ensures
        ({
            let c = &v.state->0.current;
            let area = box_of(c);
            let y = area.y as real + middle(py);
            exists|i: int, j: int|
                #![trigger spans(c, i, y), spans(c, j, y)]
                {
                    &&& 0 <= i < j < 4
                    &&& forall|k: int|
                        0 <= k < 4 ==> (#[trigger] spans(c, k, y) <==> k == i || k == j)
                    &&& forall|px: int, channel: int|
                        0 <= px < area.w && 0 <= channel < 4 ==> {
                            let x = (area.x + px) as real;
                            let byte = #[trigger] picture_pixel(v, px, py, channel);
                            let (right_i, left_i) = (
                                is_right_of(c, i, x, y, b),
                                is_left_of(c, i, x, y, b),
                            );
                            let (right_j, left_j) = (
                                is_right_of(c, j, x, y, b),
                                is_left_of(c, j, x, y, b),
                            );
                            &&& right_i && left_j || left_i && right_j ==> byte == v.color[channel]
                            &&& right_i && right_j || left_i && left_j ==> byte == 0
                        }
                }
        }),
{
    let c = &v.state->0.current;
    let area = box_of(c);
    let y = area.y as real + middle(py);
    lemma_sides_come_in_pairs(c, y);
    let (i, j) = choose|i: int, j: int|
        #![trigger spans(c, i, y), spans(c, j, y)]
        0 <= i < j < 4 && spans(c, i, y) && spans(c, j, y) && forall|k: int|
            0 <= k < 4 && k != i && k != j ==> !#[trigger] spans(c, k, y);
    assert forall|px: int, channel: int| 0 <= px < area.w && 0 <= channel < 4 implies {
        let x = (area.x + px) as real;
        let byte = #[trigger] picture_pixel(v, px, py, channel);
        let (right_i, left_i) = (is_right_of(c, i, x, y, b), is_left_of(c, i, x, y, b));
        let (right_j, left_j) = (is_right_of(c, j, x, y, b), is_left_of(c, j, x, y, b));
        &&& right_i && left_j || left_i && right_j ==> byte == v.color[channel]
        &&& right_i && right_j || left_i && left_j ==> byte == 0
    } by {
        lemma_pixel_on_canvas(v, px, py, channel, i, j, b);
    }
}

} // verus!
