//! Which rows and pixels lie between the sides of a polygon, in exact values.
use crate::accuracy::{
    absolute, exact, is_within, lemma_distributes, lemma_real_product, lemma_sum_within, two,
};
use crate::approx::lemma_difference_relative;
use crate::coverage::{
    exact_crossing, is_colored, lemma_colored_near, lemma_crossed_is_reached, lemma_crossing_error,
    lemma_order_of_exact, lemma_small_error, point_within,
};
use crate::double::Double;
use crate::exact::lemma_pattern_value;
use crate::frames::lemma_exact_absolute;
use crate::geometry::{Point, EPS};
use crate::raster::{
    crossed_at, crossings, edge, ends_of, has_heights, is_crossed, lemma_scan_line, pixel, reached,
    row_ends, rows, scan_line, Gradient, NAN,
};
use vstd::arithmetic::power2::{
    lemma2_to64, lemma2_to64_rest, lemma_pow2_adds, lemma_pow2_pos, lemma_pow2_unfold, pow2,
};
use vstd::prelude::*;

verus! {

/// The height `y` is between the ends of the side from the vertex `i` to the next one: at the upper
/// one or below it, and above the lower one.
pub open spec fn spans(pts: &[Point; 4], i: int, y: real) -> bool {
    let (a, b) = (exact(pts[i].y), exact(pts[(i + 1) % 4].y));
    a <= y < b || b <= y < a
}

/// Where the side from the vertex `i` to the next one is at the height `y`.
pub open spec fn side_at(pts: &[Point; 4], i: int, y: real) -> real {
    let (a, b) = (pts[i], pts[(i + 1) % 4]);
    exact(a.x) + ((y - exact(a.y)) / (exact(b.y) - exact(a.y))) * (exact(b.x) - exact(a.x))
}

/// How high the side from the vertex `i` to the next one is.
pub open spec fn height_of(pts: &[Point; 4], i: int) -> real {
    absolute(exact(pts[(i + 1) % 4].y) - exact(pts[i].y))
}

/// The side counts at the height `y`: it spans it, and is at least a billionth of a pixel high, by
/// more than rounding.
pub open spec fn passes(pts: &[Point; 4], i: int, y: real) -> bool {
    spans(pts, i, y) && 1000000000000000real * height_of(pts, i) >= 1000001real
}

/// The side does not count at the height `y`: it does not span it, or is less than a billionth of a
/// pixel high, by more than rounding.
pub open spec fn misses(pts: &[Point; 4], i: int, y: real) -> bool {
    !spans(pts, i, y) || 1000000000000000real * height_of(pts, i) <= 999999real
}

/// A billionth of a pixel.
pub proof fn lemma_billionth()
    ensures
        Double::from_bits(EPS).is_finite(),
        absolute(1000000000000000real * exact(Double::from_bits(EPS)) - 1000000real) <= 1real
            / 1000real,
{
    let eps = Double::from_bits(EPS);
    lemma_pattern_value(eps, 0x11_2e0b_e826_d695, 992);
    lemma2_to64();
    lemma2_to64_rest();
    lemma_pow2_adds(64, 18);
    lemma_pow2_adds(82, 992);
    lemma_pow2_pos(992);
    lemma_pow2_pos(1074);
    let (a, w) = (eps.value() as real, pow2(1074) as real);
    assert(pow2(82) == 0x4_0000_0000_0000_0000_0000);
    assert(999_999_999 * pow2(1074) <= 1_000_000_000_000_000_000 * eps.value() <= 1_000_000_001
        * pow2(1074));
    assert(999999999real <= 1000000000000000000real * (a / w) <= 1000000001real)
        by (nonlinear_arith)
        requires
            999999999real * w <= 1000000000000000000real * a <= 1000000001real * w,
            w > 0real,
    ;
}

/// A side is crossed if it counts, and not if it does not.
proof fn lemma_crossed_or_not(pts: &[Point; 4], y: Double, i: int, b: int)
    requires
        0 <= i < 4,
        point_within(pts[i], b),
        point_within(pts[(i + 1) % 4], b),
        0 <= b <= 500,
        y.is_finite(),
    ensures
        passes(pts, i, exact(y)) ==> is_crossed(pts, y, i),
        misses(pts, i, exact(y)) ==> !is_crossed(pts, y, i),
        is_crossed(pts, y, i) ==> spans(pts, i, exact(y)),
{
    let (p, q) = (pts[i], pts[(i + 1) % 4]);
    let (lo, hi) = edge(pts, i);
    let eps = Double::from_bits(EPS);
    lemma_order_of_exact(p.y, q.y);
    lemma_order_of_exact(y, lo.y);
    lemma_order_of_exact(hi.y, y);
    lemma_sum_within(hi.y, lo.y, b);
    let dy = hi.y.sub(lo.y);
    lemma_difference_relative(hi.y, lo.y);
    lemma_exact_absolute(dy);
    lemma_billionth();
    lemma_order_of_exact(dy.abs(), eps);
}

/// A side is at the same place from either end.
proof fn lemma_from_either_end(pts: &[Point; 4], y: real, i: int)
    requires
        0 <= i < 4,
        exact(pts[i].y) != exact(pts[(i + 1) % 4].y),
    ensures
        side_at(pts, i, y) == exact_crossing(pts[i], pts[(i + 1) % 4], y),
        side_at(pts, i, y) == exact_crossing(pts[(i + 1) % 4], pts[i], y),
{
    let (p, q) = (pts[i], pts[(i + 1) % 4]);
    let (a, b, c, d) = (exact(p.x), exact(p.y), exact(q.x), exact(q.y));
    let r = (y - b) / (d - b);
    let s = (y - d) / (b - d);
    let h = d - b;
    assert(r * h == y - b && s * (-h) == y - d) by (nonlinear_arith)
        requires
            r == (y - b) / h,
            s == (y - d) / (-h),
            h != 0real,
    {
    }
    assert(s == 1real - r) by (nonlinear_arith)
        requires
            r * h == y - b,
            s * (-h) == y - d,
            h == d - b,
            h != 0real,
    ;
    lemma_distributes(1real, r, a - c);
    assert(r * (c - a) == -(r * (a - c))) by (nonlinear_arith);
}

/// Where a side that counts is crossed.
proof fn lemma_crossed_there(pts: &[Point; 4], y: Double, i: int, b: int)
    requires
        0 <= i < 4,
        point_within(pts[i], b),
        point_within(pts[(i + 1) % 4], b),
        0 <= b <= 500,
        y.is_finite(),
        is_crossed(pts, y, i),
    ensures
        crossed_at(pts, y, i).is_finite(),
        is_within(crossed_at(pts, y, i), b + 1),
        absolute(exact(crossed_at(pts, y, i)) - side_at(pts, i, exact(y))) <= two(b - 48),
{
    let (lo, hi) = edge(pts, i);
    lemma_crossed_or_not(pts, y, i, b);
    lemma_from_either_end(pts, exact(y), i);
    lemma_crossing_error(lo, hi, y, b);
    lemma_small_error(crossed_at(pts, y, i), exact_crossing(lo, hi, exact(y)), b);
}

/// The ends of a row are where the first and the last crossed side are.
proof fn lemma_first_and_last(pts: &[Point; 4], h: i32, py: i32, i: int, j: int)
    requires
        reached(pts, h, py),
        0 <= i < j < 4,
        is_crossed(pts, scan_line(py), i),
        is_crossed(pts, scan_line(py), j),
        forall|k: int| 0 <= k < i || j < k < 4 ==> !#[trigger] is_crossed(pts, scan_line(py), k),
        forall|k: int|
            0 <= k < 4 && is_crossed(pts, scan_line(py), k) ==> !(#[trigger] crossed_at(
                pts,
                scan_line(py),
                k,
            )).is_nan(),
    ensures
        row_ends(pts, h, py) == ends_of(
            crossed_at(pts, scan_line(py), i),
            crossed_at(pts, scan_line(py), j),
        ),
{
    let y = scan_line(py);
    assert(Double::from_bits(NAN).is_nan());
    reveal_with_fuel(crossings, 5);
    let (c0, c1, c2, c3) = (
        is_crossed(pts, y, 0),
        is_crossed(pts, y, 1),
        is_crossed(pts, y, 2),
        is_crossed(pts, y, 3),
    );
    let (x0, x1, x2, x3) = (
        crossed_at(pts, y, 0),
        crossed_at(pts, y, 1),
        crossed_at(pts, y, 2),
        crossed_at(pts, y, 3),
    );
}

/// A row on which fewer than two sides are crossed has no ends.
proof fn lemma_no_ends(pts: &[Point; 4], h: i32, py: i32, i: int)
    requires
        forall|k: int| 0 <= k < 4 && k != i ==> !#[trigger] is_crossed(pts, scan_line(py), k),
    ensures
        row_ends(pts, h, py) is None,
{
    let y = scan_line(py);
    assert(Double::from_bits(NAN).is_nan());
    reveal_with_fuel(crossings, 5);
    let (c0, c1, c2, c3) = (
        is_crossed(pts, y, 0),
        is_crossed(pts, y, 1),
        is_crossed(pts, y, 2),
        is_crossed(pts, y, 3),
    );
}

/// The byte that is shown at a place.
pub open spec fn shown(
    pts: &[Point; 4],
    grad: &Gradient,
    w: i32,
    h: i32,
    px: int,
    py: int,
    channel: int,
) -> u8 {
    rows(pts, grad, w, h, h as int)[(4 * w) * py + 4 * px + channel]
}

/// The heights of the vertices go up once and down once, as those of every convex polygon do.
pub open spec fn rises_once(pts: &[Point; 4]) -> bool {
    let (a, b, c, d) = (
        exact(pts[0].y),
        exact(pts[1].y),
        exact(pts[2].y),
        exact(pts[3].y),
    );
    &&& !(a < b && a < d && c < b && c < d)
    &&& !(b < a && b < c && d < a && d < c)
}

/// The place `x` is between the two places, by more than `slack`.
pub open spec fn lies_between(x: real, a: real, b: real, slack: real) -> bool {
    a + slack <= x && x + slack <= b || b + slack <= x && x + slack <= a
}

/// The place `x` is on the same side of both places, by more than `slack`.
pub open spec fn lies_outside(x: real, a: real, b: real, slack: real) -> bool {
    x + slack < a && x + slack < b || a + slack < x && b + slack < x
}

/// How far rounding may move the end of a row, with numbers of at most `2^b`.
pub open spec fn row_slack(b: int) -> real {
    two(b - 47) + two(-29)
}

/// The first and the last side that counts at the height of a row.
pub open spec fn are_outer_sides(pts: &[Point; 4], y: real, i: int, j: int) -> bool {
    &&& 0 <= i < j < 4
    &&& passes(pts, i, y)
    &&& passes(pts, j, y)
    &&& forall|k: int| 0 <= k < i || j < k < 4 ==> #[trigger] misses(pts, k, y)
}

/// The height of the middle of a row.
pub open spec fn middle(py: int) -> real {
    py as real + 1real / 2real
}

/// The height at which a row is scanned is its middle.
pub proof fn lemma_middle_of_row(py: i32)
    ensures
        scan_line(py).is_finite(),
        exact(scan_line(py)) == middle(py as int),
{
    lemma_scan_line(py);
    lemma_pow2_pos(1073);
    lemma_pow2_unfold(1074);
    let (m, u) = (2 * py + 1, pow2(1073) as int);
    lemma_real_product(m, u);
    let (a, c, z) = (m as real, py as real, u as real);
    let w = pow2(1074) as real;
    assert((a * z) / w == c + 1real / 2real) by (nonlinear_arith)
        requires
            w == 2real * z,
            a == 2real * c + 1real,
            z > 0real,
    ;
}

/// The pixels of a row that are between the outer sides that count at its height are colored, and
/// those that are beyond both of them are not.
pub proof fn lemma_between_sides(
    pts: &[Point; 4],
    w: i32,
    h: i32,
    px: int,
    py: i32,
    i: int,
    j: int,
    b: int,
)
    requires
        forall|k: int| #![trigger pts[k]] 0 <= k < 4 ==> point_within(pts[k], b),
        0 <= b <= 500,
        0 <= px < w,
        0 <= py < h,
        are_outer_sides(pts, middle(py as int), i, j),
    ensures
        ({
            let y = middle(py as int);
            let (l, r) = (side_at(pts, i, y), side_at(pts, j, y));
            &&& lies_between(px as real, l, r, row_slack(b)) ==> is_colored(pts, w, h, px, py)
            &&& lies_outside(px as real, l, r, row_slack(b)) ==> !is_colored(pts, w, h, px, py)
        }),
{
    let y = scan_line(py);
    lemma_middle_of_row(py);
    assert(has_heights(pts)) by {
        assert(point_within(pts[0], b) && point_within(pts[1], b));
        assert(point_within(pts[2], b) && point_within(pts[3], b));
    }
    assert forall|k: int| 0 <= k < 4 implies {
        &&& passes(pts, k, exact(y)) ==> #[trigger] is_crossed(pts, y, k)
        &&& misses(pts, k, exact(y)) ==> !is_crossed(pts, y, k)
        &&& is_crossed(pts, y, k) ==> crossed_at(pts, y, k).is_finite()
    } by {
        let (p, q) = (pts[k], pts[(k + 1) % 4]);
        lemma_crossed_or_not(pts, y, k, b);
        if is_crossed(pts, y, k) {
            lemma_crossed_there(pts, y, k, b);
        }
    }
    assert(is_crossed(pts, y, i) && is_crossed(pts, y, j));
    assert forall|k: int| 0 <= k < i || j < k < 4 implies !#[trigger] is_crossed(pts, y, k) by {
        assert(misses(pts, k, exact(y)));
    }
    lemma_crossed_is_reached(pts, h, py, i);
    lemma_first_and_last(pts, h, py, i, j);
    let (p, q) = (pts[i], pts[(i + 1) % 4]);
    lemma_crossed_there(pts, y, i, b);
    let (r, s) = (pts[j], pts[(j + 1) % 4]);
    lemma_crossed_there(pts, y, j, b);
    lemma_colored_near(
        crossed_at(pts, y, i),
        crossed_at(pts, y, j),
        side_at(pts, i, exact(y)),
        side_at(pts, j, exact(y)),
        w,
        px,
        b,
    );
}

/// A row at whose height fewer than two sides count is transparent.
pub proof fn lemma_without_sides(
    pts: &[Point; 4],
    w: i32,
    h: i32,
    px: int,
    py: i32,
    i: int,
    b: int,
)
    requires
        forall|k: int| #![trigger pts[k]] 0 <= k < 4 ==> point_within(pts[k], b),
        0 <= b <= 500,
        forall|k: int| 0 <= k < 4 && k != i ==> #[trigger] misses(pts, k, middle(py as int)),
    ensures
        !is_colored(pts, w, h, px, py),
{
    let y = scan_line(py);
    lemma_middle_of_row(py);
    assert forall|k: int| 0 <= k < 4 && k != i implies !#[trigger] is_crossed(pts, y, k) by {
        let (p, q) = (pts[k], pts[(k + 1) % 4]);
        assert(misses(pts, k, exact(y)));
        lemma_crossed_or_not(pts, y, k, b);
    }
    lemma_no_ends(pts, h, py, i);
}

/// A height between the lowest and the highest vertex of a polygon is spanned by two sides at
/// least, and by no others if the polygon rises once. Above and below all vertices there are none.
pub proof fn lemma_sides_come_in_pairs(pts: &[Point; 4], y: real)
    ensures
        (exists|k: int| #![trigger pts[k]] 0 <= k < 4 && exact(pts[k].y) <= y) && (exists|k: int|
            #![trigger pts[k]]
            0 <= k < 4 && y < exact(pts[k].y)) ==> exists|i: int, j: int|
            #![trigger spans(pts, i, y), spans(pts, j, y)]
            0 <= i < j < 4 && spans(pts, i, y) && spans(pts, j, y) && (rises_once(pts)
                ==> forall|k: int|
                0 <= k < 4 && k != i && k != j ==> !#[trigger] spans(pts, k, y)),
        (forall|k: int| #![trigger pts[k]] 0 <= k < 4 ==> exact(pts[k].y) <= y) || (forall|k: int|
            #![trigger pts[k]]
            0 <= k < 4 ==> y < exact(pts[k].y)) ==> forall|k: int|
            0 <= k < 4 ==> !#[trigger] spans(pts, k, y),
{
    let (p0, p1, p2, p3) = (pts[0], pts[1], pts[2], pts[3]);
    let (s0, s1, s2, s3) = (
        spans(pts, 0, y),
        spans(pts, 1, y),
        spans(pts, 2, y),
        spans(pts, 3, y),
    );
    let low = |k: int| exact(pts[k].y) <= y;
    assert(low(0) || low(1) || low(2) || low(3) || !(exists|k: int|
        #![trigger pts[k]]
        0 <= k < 4 && exact(pts[k].y) <= y));
    assert(!low(0) || !low(1) || !low(2) || !low(3) || !(exists|k: int|
        #![trigger pts[k]]
        0 <= k < 4 && y < exact(pts[k].y)));
    if !(low(0) && low(1) && low(2) && low(3)) && !(!low(0) && !low(1) && !low(2) && !low(3)) {
        let (i, j) = if s0 && s1 {
            (0int, 1int)
        } else if s0 && s2 {
            (0int, 2int)
        } else if s0 && s3 {
            (0int, 3int)
        } else if s1 && s2 {
            (1int, 2int)
        } else if s1 && s3 {
            (1int, 3int)
        } else {
            (2int, 3int)
        };
        assert(spans(pts, i, y) && spans(pts, j, y));
        if rises_once(pts) {
            assert forall|k: int| 0 <= k < 4 && k != i && k != j implies !#[trigger] spans(
                pts,
                k,
                y,
            ) by {
                assert(k == 0 || k == 1 || k == 2 || k == 3);
            }
        }
    } else {
        assert forall|k: int| 0 <= k < 4 implies !#[trigger] spans(pts, k, y) by {
            assert(k == 0 || k == 1 || k == 2 || k == 3);
            let (p, q) = (pts[k], pts[(k + 1) % 4]);
        }
    }
}

/// A height between the lowest and the highest vertex of a polygon has a first and a last side that
/// counts, if the sides that span it are not too flat.
pub proof fn lemma_outer_sides_exist(pts: &[Point; 4], y: real)
    requires
        exists|k: int| #![trigger pts[k]] 0 <= k < 4 && exact(pts[k].y) <= y,
        exists|k: int| #![trigger pts[k]] 0 <= k < 4 && y < exact(pts[k].y),
        forall|k: int|
            0 <= k < 4 && #[trigger] spans(pts, k, y) ==> 1000000000000000real * height_of(pts, k)
                >= 1000001real,
    ensures
        exists|i: int, j: int| #[trigger] are_outer_sides(pts, y, i, j),
{
    lemma_sides_come_in_pairs(pts, y);
    let (s0, s1, s2, s3) = (
        spans(pts, 0, y),
        spans(pts, 1, y),
        spans(pts, 2, y),
        spans(pts, 3, y),
    );
    let i = if s0 {
        0int
    } else if s1 {
        1int
    } else {
        2int
    };
    let j = if s3 {
        3int
    } else if s2 {
        2int
    } else {
        1int
    };
    let (p, q) = choose|p: int, q: int|
        #![trigger spans(pts, p, y), spans(pts, q, y)]
        0 <= p < q < 4 && spans(pts, p, y) && spans(pts, q, y);
    assert(p == 0 || p == 1 || p == 2);
    assert(q == 1 || q == 2 || q == 3);
    assert(spans(pts, i, y) && spans(pts, j, y));
    assert forall|k: int| 0 <= k < i || j < k < 4 implies #[trigger] misses(pts, k, y) by {
        assert(k == 0 || k == 1 || k == 2 || k == 3);
    }
    assert(are_outer_sides(pts, y, i, j));
}

} // verus!
