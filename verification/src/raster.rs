//! Polygon rasterization into rows of BGRA pixels.
use crate::color::{lemma_mix_ends, mix};
use crate::double::Double;
use crate::exact::{
    is_scaled, is_whole, lemma_absolute, lemma_encode_zero, lemma_exact_difference, lemma_exact_i32,
    lemma_exact_sum, lemma_negated, lemma_order_of_values, lemma_pattern_value, lemma_power_value,
    lemma_rank_monotone, lemma_rank_of_quotient, lemma_rank_of_sum, lemma_rank_of_value,
    lemma_rank_scaled, lemma_rounding_to_i32_monotone, lemma_value_of_rank, lemma_whole_difference,
    lemma_whole_rounding, lemma_zero_arithmetic, rank_of,
};
use crate::float::{lemma_zero_units, WIDE, WIDE_INFINITY};
use crate::geometry::{bounds, lemma_highest, lemma_lowest, Point, EPS, HALF, ONE, ZERO};
use crate::rounding::{
    encode, lemma_encode_closed, lemma_encode_exact, lemma_encode_scaled, lemma_encode_units,
    lemma_units_of_parts, units,
};
use crate::single::{lemma_one_units, single_one, Single};
use vstd::arithmetic::div_mod::lemma_fundamental_div_mod_converse;
use vstd::arithmetic::mul::{lemma_mul_inequality, lemma_mul_is_distributive_add};
use vstd::arithmetic::power2::{
    lemma2_to64, lemma2_to64_rest, lemma_pow2_adds, lemma_pow2_pos, lemma_pow2_strictly_increases,
    lemma_pow2_unfold, pow2,
};
use vstd::prelude::*;

verus! {

/// Not a number.
pub const NAN: u64 = 0x7ff8_0000_0000_0000;

/// A color that runs from one point to another.
#[derive(Clone, Copy, Debug)]
pub struct Gradient {
    pub from: Point,
    pub to: Point,
    pub c_start: [u8; 4],
    pub c_end: [u8; 4],
}

pub open spec fn spec_scan_line(py: i32) -> Double {
    Double::from_i32(py).add(Double::from_bits(HALF))
}

/// The height at which a row is scanned. It is the pixel centre, so that a horizontal edge (two
/// vertices at an integer height) is not crossed.
#[verifier::when_used_as_spec(spec_scan_line)]
pub fn scan_line(py: i32) -> (r: Double)
    ensures
        r == scan_line(py),
{
    Double::from_i32(py).add(Double::from_bits(HALF))
}

/// The edge from the vertex `i` to the next one, its lower end first.
pub open spec fn edge(pts: &[Point; 4], i: int) -> (Point, Point) {
    let a = pts[i];
    let b = pts[(i + 1) % 4];
    if a.y.le(b.y) {
        (a, b)
    } else {
        (b, a)
    }
}

/// Whether the height `y` lies in the half-open range of an edge, so that a vertex belongs to
/// one edge only, and the edge is not horizontal.
pub open spec fn crosses(lo: Point, hi: Point, y: Double) -> bool {
    !y.lt(lo.y) && !hi.y.le(y) && !hi.y.sub(lo.y).abs().lt(Double::from_bits(EPS))
}

/// Where an edge is at the height `y`.
pub open spec fn crossing(lo: Point, hi: Point, y: Double) -> Double {
    lo.x.add(y.sub(lo.y).div(hi.y.sub(lo.y)).mul(hi.x.sub(lo.x)))
}

/// The first crossing of the first `n` edges with the height `y`, and the last other one.
pub open spec fn crossings(pts: &[Point; 4], y: Double, n: int) -> (Double, Double)
    decreases n,
{
    if n <= 0 {
        (Double::from_bits(NAN), Double::from_bits(NAN))
    } else {
        let (first, last) = crossings(pts, y, n - 1);
        let (lo, hi) = edge(pts, n - 1);
        if crosses(lo, hi, y) {
            let x = crossing(lo, hi, y);
            if first.is_nan() {
                (x, last)
            } else {
                (first, x)
            }
        } else {
            (first, last)
        }
    }
}

/// The rows that the polygon reaches, in a buffer of `h` rows.
pub open spec fn reached(pts: &[Point; 4], h: i32, py: i32) -> bool {
    let b = bounds(pts);
    0 <= py <= h - 1 && b.min_y.floor_i32() <= py <= b.max_y.ceil_i32()
}

/// The two ends of the polygon on a row, left before right.
pub open spec fn row_ends(pts: &[Point; 4], h: i32, py: i32) -> Option<(Double, Double)> {
    if reached(pts, h, py) {
        let (first, last) = crossings(pts, scan_line(py), 4);
        if first.is_nan() || last.is_nan() {
            None
        } else if last.lt(first) {
            Some((last, first))
        } else {
            Some((first, last))
        }
    } else {
        None
    }
}

/// `n`, or the nearest end of the range from 0 to `w`.
pub open spec fn clip(n: int, w: int) -> int {
    if n < 0 {
        0
    } else if n > w {
        w
    } else {
        n
    }
}

/// The pixels between two ends, in a row of `w` pixels: from the first one on, up to the second
/// one.
pub open spec fn span_of(ends: Option<(Double, Double)>, w: i32) -> Option<(int, int)> {
    match ends {
        None => None,
        Some((left, right)) => {
            let x0 = clip(left.ceil_i32() as int, w as int);
            let x1 = clip(right.sub(Double::from_bits(EPS)).floor_i32() + 1, w as int);
            if x1 <= x0 {
                None
            } else {
                Some((x0, x1))
            }
        },
    }
}

/// The pixels of a row that lie in the polygon.
pub open spec fn row_span(pts: &[Point; 4], w: i32, h: i32, py: i32) -> Option<(int, int)> {
    span_of(row_ends(pts, h, py), w)
}

/// The right end of the polygon on a row is within the range of pixel numbers.
pub open spec fn row_fits(pts: &[Point; 4], h: i32, py: i32) -> bool {
    row_ends(pts, h, py) matches Some((left, right)) ==> right.sub(
        Double::from_bits(EPS),
    ).floor_i32() < i32::MAX
}

/// The right end of the polygon is within the range of pixel numbers, on every row.
pub open spec fn polygon_fits(pts: &[Point; 4], h: i32) -> bool {
    forall|py: i32| 0 <= py < h ==> #[trigger] row_fits(pts, h, py)
}

/// `w` times `h` pixels fit in `len` bytes, and the bytes before each row can be counted.
pub open spec fn buffer_fits(w: i32, h: i32, len: nat) -> bool {
    h > i32::MIN && (h > 0 ==> {
        &&& 0 <= w
        &&& 4 * w <= i32::MAX
        &&& (4 * w) * (h - 1) <= i32::MAX
        &&& (4 * w) * h <= len
    })
}

impl Gradient {
    pub open spec fn way(self) -> Point {
        self.to.minus(self.from)
    }

    /// The square of the length.
    pub open spec fn length2(self) -> Double {
        self.way().x.mul(self.way().x).add(self.way().y.mul(self.way().y))
    }

    /// Whether the color changes at all.
    pub open spec fn varies(self) -> bool {
        Double::from_bits(EPS).lt(self.length2())
    }

    pub open spec fn inverse2(self) -> Double {
        if self.varies() {
            Double::from_bits(ONE).div(self.length2())
        } else {
            Double::from_bits(ZERO)
        }
    }

    /// How far the color is along its way at the pixel `x0` of a row.
    pub open spec fn start(self, x0: i32, py: i32) -> Double {
        if self.varies() {
            let across = Double::from_i32(x0).add(Double::from_bits(HALF)).sub(self.from.x);
            let down = scan_line(py).sub(self.from.y);
            across.mul(self.way().x).add(down.mul(self.way().y)).mul(self.inverse2())
        } else {
            Double::from_bits(ONE)
        }
    }

    /// How far the color is along its way `n` pixels further.
    pub open spec fn ramp(self, x0: i32, py: i32, n: nat) -> Double
        decreases n,
    {
        if n == 0 {
            self.start(x0, py)
        } else {
            self.ramp(x0, py, (n - 1) as nat).add(self.way().x.mul(self.inverse2()))
        }
    }

    /// The color at the fraction `t` of the way.
    pub open spec fn color_at(self, t: Double) -> [u8; 4] {
        let s = Single::from_double(t.clamp(Double::from_bits(ZERO), Double::from_bits(ONE)));
        [
            mix(self.c_start[0], self.c_end[0], s),
            mix(self.c_start[1], self.c_end[1], s),
            mix(self.c_start[2], self.c_end[2], s),
            mix(self.c_start[3], self.c_end[3], s),
        ]
    }
}

/// The color of the pixel `px` of a row: that of the gradient within the polygon, and transparent
/// elsewhere.
pub open spec fn pixel(
    pts: &[Point; 4],
    grad: &Gradient,
    w: i32,
    h: i32,
    px: int,
    py: i32,
) -> [u8; 4] {
    match row_span(pts, w, h, py) {
        Some((x0, x1)) if x0 <= px < x1 => grad.color_at(
            grad.ramp(x0 as i32, py, (px - x0) as nat),
        ),
        _ => [0, 0, 0, 0],
    }
}

/// The bytes of a row.
pub open spec fn row(pts: &[Point; 4], grad: &Gradient, w: i32, h: i32, py: i32) -> Seq<u8> {
    Seq::new((4 * w) as nat, |j: int| pixel(pts, grad, w, h, j / 4, py)[j % 4])
}

/// The bytes of the first `n` rows.
pub open spec fn rows(pts: &[Point; 4], grad: &Gradient, w: i32, h: i32, n: int) -> Seq<u8>
    decreases n,
{
    if n <= 0 {
        Seq::empty()
    } else {
        rows(pts, grad, w, h, n - 1) + row(pts, grad, w, h, (n - 1) as i32)
    }
}

fn row_edge(pts: &[Point; 4], i: usize) -> (r: (Point, Point))
    requires
        i < 4,
    ensures
        r == edge(pts, i as int),
{
    let a = pts[i];
    let b = pts[(i + 1) % 4];
    if a.y.le(b.y) {
        (a, b)
    } else {
        (b, a)
    }
}

fn find_row_ends(pts: &[Point; 4], h: i32, py: i32, first_row: i32, last_row: i32) -> (r: Option<
    (Double, Double),
>)
    requires
        0 <= py < h,
        first_row <= py <= last_row <==> reached(pts, h, py),
    ensures
        r == row_ends(pts, h, py),
{
    if py < first_row || py > last_row {
        return None;
    }
    let y = scan_line(py);
    let mut x_lo = Double::from_bits(NAN);
    let mut x_hi = Double::from_bits(NAN);
    let mut i: usize = 0;
    while i < 4
        invariant
            i <= 4,
            (x_lo, x_hi) == crossings(pts, y, i as int),
        decreases 4 - i,
    {
        let (lo, hi) = row_edge(pts, i);
        let dy = hi.y.sub(lo.y);
        if !y.lt(lo.y) && !hi.y.le(y) && !dy.abs().lt(Double::from_bits(EPS)) {
            let x = lo.x.add(y.sub(lo.y).div(dy).mul(hi.x.sub(lo.x)));
            if x_lo.is_nan() {
                x_lo = x;
            } else {
                x_hi = x;
            }
        }
        i = i + 1;
    }
    if x_lo.is_nan() || x_hi.is_nan() {
        None
    } else if x_hi.lt(x_lo) {
        Some((x_hi, x_lo))
    } else {
        Some((x_lo, x_hi))
    }
}

fn clip_to(n: i32, w: i32) -> (r: i32)
    requires
        0 <= w,
    ensures
        r == clip(n as int, w as int),
{
    if n < 0 {
        0
    } else if n > w {
        w
    } else {
        n
    }
}

fn find_row_span(pts: &[Point; 4], w: i32, h: i32, py: i32, first_row: i32, last_row: i32) -> (r:
    Option<(i32, i32)>)
    requires
        0 <= w,
        0 <= py < h,
        first_row <= py <= last_row <==> reached(pts, h, py),
        row_fits(pts, h, py),
    ensures
        r is Some <==> row_span(pts, w, h, py) is Some,
        r matches Some((x0, x1)) ==> row_span(pts, w, h, py) == Some((x0 as int, x1 as int)) && 0
            <= x0 < x1 <= w,
{
    match find_row_ends(pts, h, py, first_row, last_row) {
        None => None,
        Some((left, right)) => {
            let x0 = clip_to(left.ceil_i32(), w);
            let x1 = clip_to(right.sub(Double::from_bits(EPS)).floor_i32() + 1, w);
            if x1 <= x0 {
                None
            } else {
                Some((x0, x1))
            }
        },
    }
}

/// The first and the last row that the polygon reaches.
fn reached_rows(pts: &[Point; 4], h: i32) -> (r: (i32, i32))
    requires
        h > i32::MIN,
    ensures
        forall|py: i32|
            0 <= py < h ==> (r.0 <= py <= r.1 <==> #[trigger] reached(pts, h, py)),
{
    let b = bounds(pts);
    let low = b.min_y.floor_i32();
    let high = b.max_y.ceil_i32();
    (
        if low > 0 {
            low
        } else {
            0
        },
        if high < h - 1 {
            high
        } else {
            h - 1
        },
    )
}

/// Whether the right end of the polygon is within the range of pixel numbers, on every row.
pub fn fits_polygon(pts: &[Point; 4], h: i32) -> (r: bool)
    ensures
        r == polygon_fits(pts, h),
{
    if h <= 0 {
        return true;
    }
    let (first_row, last_row) = reached_rows(pts, h);
    let mut py: i32 = 0;
    while py < h
        invariant
            0 <= py <= h,
            forall|q: i32|
                0 <= q < h ==> (first_row <= q <= last_row <==> #[trigger] reached(pts, h, q)),
            forall|q: i32| 0 <= q < py ==> #[trigger] row_fits(pts, h, q),
        decreases h - py,
    {
        assert(reached(pts, h, py) <==> first_row <= py <= last_row);
        if let Some((_, right)) = find_row_ends(pts, h, py, first_row, last_row) {
            if right.sub(Double::from_bits(EPS)).floor_i32() == i32::MAX {
                assert(!row_fits(pts, h, py));
                return false;
            }
        }
        assert(row_fits(pts, h, py));
        py = py + 1;
    }
    true
}

/// Makes the bytes from `start` to `end` zero.
fn clear(data: &mut [u8], start: usize, end: usize)
    requires
        start <= end <= old(data)@.len(),
    ensures
        final(data)@ == Seq::new(
            old(data)@.len(),
            |i: int| if start <= i < end { 0u8 } else { old(data)@[i] },
        ),
{
    let mut i: usize = start;
    while i < end
        invariant
            start <= i <= end <= data@.len(),
            data@ == Seq::new(
                old(data)@.len(),
                |j: int| if start <= j < i { 0u8 } else { old(data)@[j] },
            ),
        decreases end - i,
    {
        data[i] = 0;
        i = i + 1;
        assert(data@ =~= Seq::new(
            old(data)@.len(),
            |j: int| if start <= j < i { 0u8 } else { old(data)@[j] },
        ));
    }
}

/// Writes the bytes of a row at `offset`; `span` is the part of the row that lies in the polygon.
fn fill_row(
    data: &mut [u8],
    offset: usize,
    w: i32,
    span: Option<(i32, i32)>,
    pts: &[Point; 4],
    grad: &Gradient,
    h: i32,
    py: i32,
)
    requires
        0 <= w,
        4 * w <= i32::MAX,
        offset + 4 * w <= old(data)@.len(),
        span is Some <==> row_span(pts, w, h, py) is Some,
        span matches Some((x0, x1)) ==> row_span(pts, w, h, py) == Some((x0 as int, x1 as int)) && 0
            <= x0 < x1 <= w,
    ensures
        final(data)@ == old(data)@.take(offset as int) + row(pts, grad, w, h, py) + old(data)@.skip(
            offset + 4 * w,
        ),
{
    assert(data@.len() == data.len());
    let end: usize = offset + (w * 4) as usize;
    let ghost line = row(pts, grad, w, h, py);
    match span {
        None => {
            clear(data, offset, end);
            assert(forall|px: int| #[trigger] pixel(pts, grad, w, h, px, py) == [0u8, 0, 0, 0]);
        },
        Some((x0, x1)) => {
            let left: usize = offset + (x0 * 4) as usize;
            let right: usize = offset + (x1 * 4) as usize;
            clear(data, offset, left);
            let zero = Double::from_bits(ZERO);
            let one = Double::from_bits(ONE);
            assert(zero.le(one)) by {
                reveal(Double::spec_le);
            }
            let gx = grad.to.x.sub(grad.from.x);
            let gy = grad.to.y.sub(grad.from.y);
            let g_len2 = gx.mul(gx).add(gy.mul(gy));
            let has_grad = Double::from_bits(EPS).lt(g_len2);
            let inv_len2 = if has_grad {
                one.div(g_len2)
            } else {
                zero
            };
            let dt = gx.mul(inv_len2);
            let mut t = if has_grad {
                Double::from_i32(x0).add(Double::from_bits(HALF)).sub(grad.from.x).mul(gx).add(
                    scan_line(py).sub(grad.from.y).mul(gy),
                ).mul(inv_len2)
            } else {
                one
            };
            let mut off: usize = left;
            let mut px: i32 = x0;
            while px < x1
                invariant
                    0 <= x0 <= px <= x1 <= w,
                    4 * w <= i32::MAX,
                    row_span(pts, w, h, py) == Some((x0 as int, x1 as int)),
                    line == row(pts, grad, w, h, py),
                    zero == Double::from_bits(ZERO),
                    one == Double::from_bits(ONE),
                    zero.le(one),
                    dt == grad.way().x.mul(grad.inverse2()),
                    t == grad.ramp(x0, py, (px - x0) as nat),
                    left == offset + 4 * x0,
                    off == offset + 4 * px,
                    offset + 4 * w <= data@.len(),
                    data@.len() == old(data)@.len(),
                    forall|i: int| 0 <= i < offset ==> data@[i] == old(data)@[i],
                    forall|i: int|
                        offset + 4 * w <= i < data@.len() ==> data@[i] == old(data)@[i],
                    forall|i: int| offset <= i < left ==> data@[i] == 0,
                    forall|i: int| left <= i < off ==> data@[i] == #[trigger] line[i - offset],
                decreases x1 - px,
            {
                let tc = Single::from_double(t.clamp(zero, one));
                let ghost before = data@;
                data[off] = mix(grad.c_start[0], grad.c_end[0], tc);
                data[off + 1] = mix(grad.c_start[1], grad.c_end[1], tc);
                data[off + 2] = mix(grad.c_start[2], grad.c_end[2], tc);
                data[off + 3] = mix(grad.c_start[3], grad.c_end[3], tc);
                proof {
                    let color = grad.color_at(t);
                    assert(pixel(pts, grad, w, h, px as int, py) == color);
                    assert forall|i: int| left <= i < off + 4 implies data@[i]
                        == #[trigger] line[i - offset] by {
                        if i < off {
                            assert(before[i] == line[i - offset]);
                        } else {
                            assert((i - offset) / 4 == px);
                        }
                    }
                }
                off = off + 4;
                t = t.add(dt);
                px = px + 1;
            }
            let ghost before = data@;
            clear(data, right, end);
            assert forall|j: int| 0 <= j < 4 * w implies data@[offset + j]
                == #[trigger] line[j] by {
                if j < 4 * x0 {
                    assert(pixel(pts, grad, w, h, j / 4, py) == [0u8, 0, 0, 0]);
                } else if j < 4 * x1 {
                    assert(before[offset + j] == line[(offset + j) - offset]);
                } else {
                    assert(pixel(pts, grad, w, h, j / 4, py) == [0u8, 0, 0, 0]);
                }
            }
        },
    }
    assert(data@ =~= old(data)@.take(offset as int) + line + old(data)@.skip(offset + 4 * w));
}

proof fn lemma_rows_len(pts: &[Point; 4], grad: &Gradient, w: i32, h: i32, n: int)
    requires
        0 <= w,
        0 <= n,
    ensures
        rows(pts, grad, w, h, n).len() == (4 * w) * n,
    decreases n,
{
    if n > 0 {
        lemma_rows_len(pts, grad, w, h, n - 1);
        assert((4 * w) * n == (4 * w) * (n - 1) + 4 * w) by (nonlinear_arith);
    } else {
        assert((4 * w) * 0 == 0);
    }
}

/// Fills a convex quad into a buffer of `w` times `h` BGRA pixels with a linear gradient, row by
/// row. Pixels outside the polygon become transparent.
pub fn fill_polygon_bgra(data: &mut [u8], w: i32, h: i32, pts: &[Point; 4], grad: &Gradient)
    requires
        buffer_fits(w, h, old(data)@.len()),
        polygon_fits(pts, h),
    ensures
        h > 0 ==> final(data)@ == rows(pts, grad, w, h, h as int) + old(data)@.skip((4 * w) * h),
        h <= 0 ==> final(data)@ == old(data)@,
{
    let (first_row, last_row) = reached_rows(pts, h);
    let ghost start = data@;
    let len = data.len();
    let mut py: i32 = 0;
    let mut offset: usize = 0;
    assert(start.skip(0) =~= start);
    assert(Seq::<u8>::empty() + start =~= start);
    while py < h
        invariant
            0 <= py,
            py <= h || h <= 0,
            h <= 0 ==> py == 0,
            start == old(data)@,
            len == start.len(),
            buffer_fits(w, h, start.len()),
            polygon_fits(pts, h),
            forall|q: i32|
                0 <= q < h ==> (first_row <= q <= last_row <==> #[trigger] reached(pts, h, q)),
            h > 0 ==> offset == (4 * w) * py,
            h > 0 ==> data@ == rows(pts, grad, w, h, py as int) + start.skip((4 * w) * py),
            h <= 0 ==> data@ == start,
        decreases h - py,
    {
        proof {
            lemma_rows_len(pts, grad, w, h, py as int);
            lemma_rows_len(pts, grad, w, h, py + 1);
            lemma_mul_is_distributive_add(4 * w as int, py as int, 1);
            lemma_mul_inequality(py + 1, h as int, 4 * w as int);
            assert((py + 1) * (4 * w) == (4 * w) * (py + 1)) by (nonlinear_arith);
            assert(h * (4 * w) == (4 * w) * h) by (nonlinear_arith);
            assert(row_fits(pts, h, py));
            assert(reached(pts, h, py) <==> first_row <= py <= last_row);
        }
        let span = find_row_span(pts, w, h, py, first_row, last_row);
        fill_row(data, offset, w, span, pts, grad, h, py);
        assert(data@ =~= rows(pts, grad, w, h, py + 1) + start.skip((4 * w) * (py + 1)));
        offset = offset + (w * 4) as usize;
        py = py + 1;
    }
}

/// Where the bytes of a pixel are.
pub proof fn lemma_pixel_position(
    pts: &[Point; 4],
    grad: &Gradient,
    w: i32,
    h: i32,
    n: int,
    px: int,
    py: i32,
    channel: int,
)
    requires
        0 <= px < w,
        0 <= py < n,
        0 <= channel < 4,
    ensures
        ({
            let at = (4 * w) * py + 4 * px + channel;
            &&& 0 <= at < rows(pts, grad, w, h, n).len()
            &&& rows(pts, grad, w, h, n)[at] == pixel(pts, grad, w, h, px, py)[channel]
        }),
    decreases n,
{
    lemma_rows_len(pts, grad, w, h, n - 1);
    if py < n - 1 {
        lemma_pixel_position(pts, grad, w, h, n - 1, px, py, channel);
    } else {
        let j = 4 * px + channel;
        assert(j / 4 == px && j % 4 == channel);
    }
}

/// A row that the polygon does not reach is transparent.
pub proof fn lemma_unreached_rows_are_clear(
    pts: &[Point; 4],
    grad: &Gradient,
    w: i32,
    h: i32,
    px: int,
    py: i32,
)
    requires
        !reached(pts, h, py),
    ensures
        pixel(pts, grad, w, h, px, py) == [0u8, 0, 0, 0],
{
}

/// A gradient that does not change gives its last color to the pixels of the polygon. All others
/// are transparent.
pub proof fn lemma_gradient_of_no_length(
    pts: &[Point; 4],
    grad: &Gradient,
    w: i32,
    h: i32,
    px: int,
    py: i32,
)
    requires
        !grad.varies(),
        grad.way().x.is_finite(),
    ensures
        pixel(pts, grad, w, h, px, py) == if row_span(pts, w, h, py) matches Some((x0, x1)) && x0
            <= px < x1 {
            grad.c_end
        } else {
            [0, 0, 0, 0]
        },
{
    if let Some((x0, x1)) = row_span(pts, w, h, py) {
        if x0 <= px < x1 {
            lemma_one_and_zero();
            lemma_flat_ramp(*grad, x0 as i32, py, (px - x0) as nat);
            let t = grad.ramp(x0 as i32, py, (px - x0) as nat);
            lemma_mix_ends(grad.c_start[0], grad.c_end[0]);
            lemma_mix_ends(grad.c_start[1], grad.c_end[1]);
            lemma_mix_ends(grad.c_start[2], grad.c_end[2]);
            lemma_mix_ends(grad.c_start[3], grad.c_end[3]);
            assert(grad.color_at(t) =~= grad.c_end);
        }
    }
}

/// A gradient from a point to the same point does not change.
pub proof fn lemma_gradient_at_a_point(grad: Gradient)
    requires
        grad.from == grad.to,
        grad.from.x.is_finite(),
        grad.from.y.is_finite(),
    ensures
        !grad.varies(),
        grad.way().x.is_finite(),
{
    let zero = Double::from_bits(ZERO);
    lemma_cancels(grad.from.x);
    lemma_cancels(grad.from.y);
    lemma_one_and_zero();
    lemma_pattern_value(zero, 0, 0);
    assert(0 * pow2(0) == 0);
    lemma_pattern_value(Double::from_bits(EPS), 0x11_2e0b_e826_d695, 992);
    lemma_pow2_pos(992);
    lemma_order_of_values(Double::from_bits(EPS), zero);
}

/// `x - x` is zero, without a sign.
proof fn lemma_cancels(x: Double)
    requires
        x.is_finite(),
    ensures
        x.sub(x) == Double::from_bits(ZERO),
{
    reveal(Double::spec_add);
    reveal(Double::spec_neg);
}

proof fn lemma_one_and_zero()
    ensures
        ({
            let one = Double::from_bits(ONE);
            let zero = Double::from_bits(ZERO);
            &&& zero.mul(zero) == zero
            &&& zero.add(zero) == zero
            &&& one.add(zero) == one
            &&& one.clamp(zero, one) == one
            &&& Single::from_double(one) == single_one()
        }),
{
    let one = Double::from_bits(ONE);
    let zero = Double::from_bits(ZERO);
    lemma_zero_units(WIDE);
    lemma_pow2_pos(1074);
    lemma_encode_zero(pow2(1074));
    assert(0 * 0 == 0);
    assert(zero.mul(zero) == zero) by {
        reveal(Double::spec_mul);
    }
    assert(zero.add(zero) == zero) by {
        reveal(Double::spec_add);
    }
    lemma_power_value(one, 1074);
    lemma_encode_units(ONE as nat, 53);
    assert(one.add(zero) == one) by {
        reveal(Double::spec_add);
    }
    assert(one.clamp(zero, one) == one) by {
        reveal(Double::spec_lt);
    }
    assert(Single::from_double(one) == single_one()) by {
        reveal(Single::spec_from_double);
        lemma_one_units();
        lemma_encode_units(0x3f80_0000, 24);
        lemma_pow2_pos(925);
        lemma_pow2_adds(149, 925);
        lemma_encode_scaled(pow2(149), 1, pow2(925), 24);
        assert(1 * pow2(925) == pow2(925));
    }
}

proof fn lemma_flat_ramp(grad: Gradient, x0: i32, py: i32, n: nat)
    requires
        !grad.varies(),
        grad.way().x.is_finite(),
    ensures
        grad.ramp(x0, py, n) == Double::from_bits(ONE),
    decreases n,
{
    if n > 0 {
        lemma_flat_ramp(grad, x0, py, (n - 1) as nat);
        let one = Double::from_bits(ONE);
        let zero = Double::from_bits(ZERO);
        lemma_pattern_value(zero, 0, 0);
        assert(0 * pow2(0) == 0);
        lemma_zero_arithmetic(zero, grad.way().x);
        let step = grad.way().x.mul(zero);
        lemma_power_value(one, 1074);
        lemma_zero_arithmetic(step, one);
        lemma_rank_of_value(one);
        lemma_rank_of_value(one.add(step));
    }
}

/// The four points are the corners of a rectangle of whole pixels, from `(x0, y0)` to
/// `(x1, y1)`.
pub open spec fn is_rectangle(pts: &[Point; 4], x0: int, y0: int, x1: int, y1: int) -> bool {
    &&& is_whole(pts[0].x, x0) && is_whole(pts[0].y, y0)
    &&& is_whole(pts[1].x, x1) && is_whole(pts[1].y, y0)
    &&& is_whole(pts[2].x, x1) && is_whole(pts[2].y, y1)
    &&& is_whole(pts[3].x, x0) && is_whole(pts[3].y, y1)
}

/// The bounds of a rectangle are its sides.
pub proof fn lemma_rectangle_bounds(pts: &[Point; 4], x0: int, y0: int, x1: int, y1: int)
    requires
        is_rectangle(pts, x0, y0, x1, y1),
        x0 <= x1,
        y0 <= y1,
    ensures
        ({
            let b = bounds(pts);
            &&& is_whole(b.min_x, x0) && is_whole(b.max_x, x1)
            &&& is_whole(b.min_y, y0) && is_whole(b.max_y, y1)
        }),
{
    let u = pow2(1074);
    lemma_pow2_pos(1074);
    assert(x0 * u <= x1 * u && y0 * u <= y1 * u) by (nonlinear_arith)
        requires
            x0 <= x1,
            y0 <= y1,
    ;
    lemma_lowest(pts[0].x, pts[1].x, pts[2].x, pts[3].x);
    lemma_lowest(pts[0].y, pts[1].y, pts[2].y, pts[3].y);
    lemma_highest(pts[0].x, pts[1].x, pts[2].x, pts[3].x);
    lemma_highest(pts[0].y, pts[1].y, pts[2].y, pts[3].y);
}

/// A scan line lies halfway between two integers.
pub proof fn lemma_scan_line(py: i32)
    ensures
        is_scaled(scan_line(py), 2 * py + 1, 1073),
{
    let half = Double::from_bits(HALF);
    lemma_exact_i32(py);
    lemma_power_value(half, 1073);
    lemma_pow2_unfold(1074);
    assert(py * (2 * pow2(1073)) + pow2(1073) == (2 * py + 1) * pow2(1073)) by (nonlinear_arith);
    lemma_exact_sum(Double::from_i32(py), half, 2 * py + 1, 1073);
}

proof fn lemma_scan_line_order(py: i32, x: Double, n: int)
    requires
        is_whole(x, n),
    ensures
        scan_line(py).lt(x) <==> py < n,
        x.le(scan_line(py)) <==> n <= py,
{
    lemma_scan_line(py);
    let y = scan_line(py);
    lemma_order_of_values(y, x);
    lemma_order_of_values(x, y);
    let u = pow2(1073);
    lemma_pow2_unfold(1074);
    lemma_pow2_pos(1073);
    assert(n * (2 * u) == (2 * n) * u) by (nonlinear_arith);
    if py < n {
        assert((2 * py + 1) * u < (2 * n) * u) by (nonlinear_arith)
            requires
                2 * py + 1 < 2 * n,
                u > 0,
        ;
    } else {
        assert((2 * py + 1) * u > (2 * n) * u) by (nonlinear_arith)
            requires
                2 * py + 1 > 2 * n,
                u > 0,
        ;
    }
}

/// A vertical edge is where it is at every height.
proof fn lemma_vertical_crossing(lo: Point, hi: Point, x: int, y0: int, y1: int, py: i32)
    requires
        is_whole(lo.x, x),
        is_whole(hi.x, x),
        is_whole(lo.y, y0),
        is_whole(hi.y, y1),
        0 <= y0 <= y1 <= i32::MAX,
    ensures
        crosses(lo, hi, scan_line(py)) <==> y0 <= py < y1,
        y0 <= py < y1 ==> is_whole(crossing(lo, hi, scan_line(py)), x),
{
    let y = scan_line(py);
    let dy = hi.y.sub(lo.y);
    let eps = Double::from_bits(EPS);
    let w = pow2(1074);
    lemma_pow2_pos(1074);
    lemma_scan_line_order(py, lo.y, y0);
    lemma_scan_line_order(py, hi.y, y1);
    lemma_whole_difference(hi.y, lo.y, y1, y0);
    lemma_absolute(dy);
    if y0 < y1 {
        assert((y1 - y0) * w >= w) by (nonlinear_arith)
            requires
                y1 - y0 >= 1,
                w > 0,
        ;
    }
    lemma_eps_value();
    lemma_pow2_strictly_increases(1045, 1074);
    lemma_order_of_values(dy.abs(), eps);
    if y0 <= py < y1 {
        // The height above the lower end.
        let u = pow2(1073);
        lemma_pow2_unfold(1074);
        lemma_pow2_pos(1073);
        lemma_scan_line(py);
        let n = 2 * (py - y0) + 1;
        assert((2 * py + 1) * u - y0 * w == n * u) by (nonlinear_arith)
            requires
                w == 2 * u,
                n == 2 * (py - y0) + 1,
        ;
        lemma_exact_difference(y, lo.y, n, 1073);
        let up = y.sub(lo.y);
        // It is a fraction of the edge, so the quotient is finite.
        assert(0 <= n * u <= (y1 - y0) * w) by (nonlinear_arith)
            requires
                w == 2 * u,
                1 <= n,
                n <= 2 * (y1 - y0),
                u > 0,
        ;
        let part = up.div(dy);
        lemma_rank_of_quotient(up, dy);
        let v = dy.value() as nat;
        lemma_signs_of_scaled(up.value(), v as int, w as int);
        lemma_rank_monotone(up.value() * w, (v * w) as int, v);
        lemma_encode_zero(v);
        lemma_rank_monotone(0, up.value() * w, v);
        lemma_rank_scaled(w as int, 1, v);
        assert(w * v == v * w && 1 * v == v) by (nonlinear_arith);
        let one = Double::from_bits(ONE);
        lemma_power_value(one, 1074);
        lemma_rank_of_value(one);
        lemma_value_of_rank(part);
        // Nothing is added to the lower end.
        assert(0 * w == 0);
        lemma_exact_difference(hi.x, lo.x, 0, 1074);
        let across = hi.x.sub(lo.x);
        lemma_zero_arithmetic(across, part);
        lemma_zero_arithmetic(part.mul(across), lo.x);
    }
}

proof fn lemma_signs_of_scaled(a: int, b: int, w: int)
    requires
        0 <= a <= b,
        0 <= w,
    ensures
        0 <= a * w <= b * w,
{
    assert(0 <= a * w <= b * w) by (nonlinear_arith)
        requires
            0 <= a <= b,
            0 <= w,
    ;
}

/// How large `EPS` is.
pub proof fn lemma_eps_value()
    ensures
        Double::from_bits(EPS).is_finite(),
        pow2(1044) < Double::from_bits(EPS).value() < pow2(1045),
{
    lemma2_to64_rest();
    lemma_pattern_value(Double::from_bits(EPS), 0x11_2e0b_e826_d695, 992);
    lemma_pow2_pos(992);
    lemma_pow2_adds(52, 992);
    lemma_pow2_adds(53, 992);
}

/// What is left of an integer by `EPS` is rounded to a number that is less than the integer, as
/// long as numbers there are dense enough.
proof fn lemma_less_than_whole(n: int, eps: int) -> (high: nat)
    requires
        1 <= n <= 0x100_0000,
        eps == Double::from_bits(EPS).value(),
    ensures
        rank_of(n * pow2(1074) - eps, 1) <= high < WIDE_INFINITY,
        units(high, 53) < n * pow2(1074),
{
    let w = pow2(1074);
    let v = n * w - eps;
    lemma_eps_value();
    lemma2_to64();
    lemma2_to64_rest();
    lemma_pow2_pos(1044);
    lemma_pow2_adds(30, 1044);
    lemma_pow2_unfold(1045);
    assert(n * w >= w) by (nonlinear_arith)
        requires
            n >= 1,
            w >= 0,
    ;
    if n <= 0x80_0000 {
        let step = pow2(1044);
        let m = (n * 0x4000_0000 - 1) as nat;
        assert(m * step == n * w - step) by (nonlinear_arith)
            requires
                m == n * 0x4000_0000 - 1,
                w == 0x4000_0000 * step,
        ;
        lemma_encode_exact(m, 1044, 53);
        lemma_rank_monotone(v, (m * step) as int, 1);
        encode(m * step, 1, 53)
    } else {
        let step = pow2(1045);
        let m = (n * 0x2000_0000 - 1) as nat;
        assert(m * step == n * w - step) by (nonlinear_arith)
            requires
                m == n * 0x2000_0000 - 1,
                w == 0x2000_0000 * step,
        ;
        // The spacing is `step`, and `EPS` is more than half of it.
        lemma_pow2_adds(53, 1045);
        lemma_pow2_adds(52, 1045);
        assert(m * step >= pow2(52) * step && m * step + step <= pow2(53) * step)
            by (nonlinear_arith)
            requires
                m >= 0x10_0000_0000_0000,
                m + 1 <= 0x20_0000_0000_0000,
                pow2(52) == 0x10_0000_0000_0000,
                pow2(53) == 0x20_0000_0000_0000,
        ;
        assert(1 * step == step && 1 * pow2(1097) == pow2(1097) && 1 * pow2(1098) == pow2(1098));
        lemma_encode_closed(v as nat, 1, 53, 1045);
        lemma_fundamental_div_mod_converse(v, step as int, m as int, step - eps);
        lemma_units_of_parts(m, 1045, 53);
        (1045 * pow2(52) + m) as nat
    }
}

/// Just left of an integer lies the pixel before it.
proof fn lemma_left_of_whole(x: Double, n: int)
    requires
        is_whole(x, n),
        1 <= n <= 0x100_0000,
    ensures
        x.sub(Double::from_bits(EPS)).floor_i32() == n - 1,
{
    reveal(Double::spec_floor_i32);
    let eps = Double::from_bits(EPS);
    let r = x.sub(eps);
    let w = pow2(1074);
    lemma_eps_value();
    lemma_negated(eps);
    lemma_rank_of_sum(x, eps.neg());
    lemma_pow2_pos(1074);
    lemma_pow2_strictly_increases(1045, 1074);
    // Not below n - 1.
    let low = Double::from_i32((n - 1) as i32);
    lemma_exact_i32((n - 1) as i32);
    assert((n - 1) * w == n * w - w) by (nonlinear_arith);
    lemma_rank_of_value(low);
    lemma_rank_monotone((n - 1) * w, n * w - eps.value(), 1);
    // Below n.
    let high = lemma_less_than_whole(n, eps.value());
    let top = Double { bits: high as u64 };
    lemma_value_of_rank(top);
    lemma_value_of_rank(r);
    lemma_order_of_values(r, low);
    lemma_order_of_values(top, r);
    // So the floor is n - 1.
    lemma_fundamental_div_mod_converse(r.value(), w as int, n - 1, r.value() - (n - 1) * w);
}

/// A rectangle of whole pixels covers just its own pixels: on each of its rows those from its left
/// side up to its right side, and none on any other row.
pub proof fn lemma_rectangle_span(
    pts: &[Point; 4],
    x0: int,
    y0: int,
    x1: int,
    y1: int,
    w: i32,
    h: i32,
    py: i32,
)
    requires
        is_rectangle(pts, x0, y0, x1, y1),
        0 <= x0 <= x1 <= w,
        0 <= y0 <= y1 <= h,
        1 <= x1 <= 0x100_0000,
    ensures
        row_span(pts, w, h, py) == if y0 <= py < y1 && x0 < x1 {
            Some((x0, x1))
        } else {
            None
        },
        row_fits(pts, h, py),
{
    let y = scan_line(py);
    let b = bounds(pts);
    lemma_rectangle_bounds(pts, x0, y0, x1, y1);
    lemma_whole_rounding(b.min_y, y0);
    lemma_whole_rounding(b.max_y, y1);
    // The two horizontal edges are not crossed.
    lemma_scan_line_order(py, pts[0].y, y0);
    lemma_scan_line_order(py, pts[1].y, y0);
    lemma_scan_line_order(py, pts[2].y, y1);
    lemma_scan_line_order(py, pts[3].y, y1);
    // The two vertical ones are.
    lemma_order_of_values(pts[1].y, pts[2].y);
    lemma_order_of_values(pts[3].y, pts[0].y);
    let u = pow2(1074);
    lemma_pow2_pos(1074);
    assert((y0 < y1 ==> y0 * u < y1 * u) && (x0 < x1 ==> x0 * u < x1 * u)) by (nonlinear_arith)
        requires
            u > 0,
    ;
    lemma_vertical_crossing(pts[1], pts[2], x1, y0, y1, py);
    lemma_vertical_crossing(pts[0], pts[3], x0, y0, y1, py);
    let nan = Double::from_bits(NAN);
    assert(nan.is_nan());
    assert(edge(pts, 1) == (pts[1], pts[2]));
    assert(y0 < y1 ==> edge(pts, 3) == (pts[0], pts[3]));
    assert(crossings(pts, y, 0) == (nan, nan));
    assert(crossings(pts, y, 1) == (nan, nan));
    if y0 <= py < y1 {
        let right = crossing(pts[1], pts[2], y);
        let left = crossing(pts[0], pts[3], y);
        assert(crossings(pts, y, 2) == (right, nan));
        assert(crossings(pts, y, 3) == (right, nan));
        assert(crossings(pts, y, 4) == (right, left));
        lemma_order_of_values(left, right);
        lemma_whole_rounding(left, x0);
        lemma_whole_rounding(right, x1);
        lemma_left_of_whole(right, x1);
        if x0 == x1 {
            lemma_left_of_whole(left, x0);
        }
    } else {
        assert(crossings(pts, y, 2) == (nan, nan));
        assert(crossings(pts, y, 3) == (nan, nan));
        assert(crossings(pts, y, 4) == (nan, nan));
    }
}

/// The polygon with another first vertex.
pub open spec fn turned(pts: &[Point; 4]) -> [Point; 4] {
    [pts[1], pts[2], pts[3], pts[0]]
}

/// The polygon with the other winding.
pub open spec fn reversed(pts: &[Point; 4]) -> [Point; 4] {
    [pts[3], pts[2], pts[1], pts[0]]
}

/// No vertex is without a height.
pub open spec fn has_heights(pts: &[Point; 4]) -> bool {
    !pts[0].y.is_nan() && !pts[1].y.is_nan() && !pts[2].y.is_nan() && !pts[3].y.is_nan()
}

/// The two diagonals have a height in common, as those of every convex polygon have.
pub open spec fn diagonals_meet(pts: &[Point; 4]) -> bool {
    let (a, b, c, d) = (pts[0].y, pts[1].y, pts[2].y, pts[3].y);
    &&& !(a.lt(b) && a.lt(d) && c.lt(b) && c.lt(d))
    &&& !(b.lt(a) && b.lt(c) && d.lt(a) && d.lt(c))
}

/// Whether the height `y` crosses the edge from the vertex `i`.
pub open spec fn is_crossed(pts: &[Point; 4], y: Double, i: int) -> bool {
    let (lo, hi) = edge(pts, i);
    crosses(lo, hi, y)
}

/// Where the height `y` crosses the edge from the vertex `i`.
pub open spec fn crossed_at(pts: &[Point; 4], y: Double, i: int) -> Double {
    let (lo, hi) = edge(pts, i);
    crossing(lo, hi, y)
}

/// An edge is the same one from its other end.
proof fn lemma_edge_from_other_end(a: Point, b: Point, y: Double)
    requires
        !a.y.is_nan(),
        !b.y.is_nan(),
        !y.is_nan(),
    ensures
        ({
            let (lo, hi) = if a.y.le(b.y) {
                (a, b)
            } else {
                (b, a)
            };
            let (lo2, hi2) = if b.y.le(a.y) {
                (b, a)
            } else {
                (a, b)
            };
            &&& crosses(lo, hi, y) == crosses(lo2, hi2, y)
            &&& crosses(lo, hi, y) ==> (lo, hi) == (lo2, hi2)
            &&& crosses(lo, hi, y) ==> (a.y.le(y) && y.lt(b.y)) || (b.y.le(y) && y.lt(a.y))
        }),
{
    reveal(Double::spec_lt);
    reveal(Double::spec_le);
}

/// A height crosses at most two edges of a convex polygon.
pub proof fn lemma_at_most_two(pts: &[Point; 4], y: Double)
    requires
        has_heights(pts),
        diagonals_meet(pts),
        !y.is_nan(),
    ensures
        !(is_crossed(pts, y, 0) && is_crossed(pts, y, 1) && is_crossed(pts, y, 2)),
        !(is_crossed(pts, y, 0) && is_crossed(pts, y, 1) && is_crossed(pts, y, 3)),
        !(is_crossed(pts, y, 0) && is_crossed(pts, y, 2) && is_crossed(pts, y, 3)),
        !(is_crossed(pts, y, 1) && is_crossed(pts, y, 2) && is_crossed(pts, y, 3)),
{
    lemma_edge_from_other_end(pts[0], pts[1], y);
    lemma_edge_from_other_end(pts[1], pts[2], y);
    lemma_edge_from_other_end(pts[2], pts[3], y);
    lemma_edge_from_other_end(pts[3], pts[0], y);
    reveal(Double::spec_lt);
    reveal(Double::spec_le);
}

/// The two ends of a row that two edges are crossed on, whatever their order.
pub open spec fn ends_of(x: Double, y: Double) -> Option<(Double, Double)> {
    if x.is_nan() || y.is_nan() {
        None
    } else if y.lt(x) {
        Some((y, x))
    } else {
        Some((x, y))
    }
}

/// The ends of the polygon, if at most two edges are crossed.
pub open spec fn ends_of_two(pts: &[Point; 4], y: Double) -> Option<(Double, Double)> {
    let (c0, c1, c2, c3) = (
        is_crossed(pts, y, 0),
        is_crossed(pts, y, 1),
        is_crossed(pts, y, 2),
        is_crossed(pts, y, 3),
    );
    let (x0, x1, x2, x3) = (
        crossed_at(pts, y, 0),
        crossed_at(pts, y, 1),
        crossed_at(pts, y, 2),
        crossed_at(pts, y, 3),
    );
    if c0 && c1 {
        ends_of(x0, x1)
    } else if c0 && c2 {
        ends_of(x0, x2)
    } else if c0 && c3 {
        ends_of(x0, x3)
    } else if c1 && c2 {
        ends_of(x1, x2)
    } else if c1 && c3 {
        ends_of(x1, x3)
    } else if c2 && c3 {
        ends_of(x2, x3)
    } else {
        None
    }
}

/// If at most two edges are crossed, a row ends at them.
pub proof fn lemma_ends_of_two(pts: &[Point; 4], h: i32, py: i32)
    requires
        has_heights(pts),
        diagonals_meet(pts),
        reached(pts, h, py),
    ensures
        row_ends(pts, h, py) == ends_of_two(pts, scan_line(py)),
{
    let y = scan_line(py);
    lemma_scan_line(py);
    lemma_at_most_two(pts, y);
    assert(Double::from_bits(NAN).is_nan());
    reveal_with_fuel(crossings, 5);
}

proof fn lemma_ends_in_either_order(x: Double, y: Double, w: i32)
    ensures
        span_of(ends_of(x, y), w) == span_of(ends_of(y, x), w),
{
    reveal(Double::spec_lt);
    if !x.is_nan() && !y.is_nan() && x.rank() == y.rank() {
        let eps = Double::from_bits(EPS);
        if x != y {
            // Zero, with one sign and the other.
            lemma_zero_units(WIDE);
            lemma_eps_value();
            lemma_negated(eps);
            lemma_rank_of_sum(x, eps.neg());
            lemma_rank_of_sum(y, eps.neg());
            assert(x.sub(eps).le(y.sub(eps)) && y.sub(eps).le(x.sub(eps))) by {
                reveal(Double::spec_le);
            }
            lemma_rounding_to_i32_monotone(x.sub(eps), y.sub(eps));
            lemma_rounding_to_i32_monotone(y.sub(eps), x.sub(eps));
        }
        assert(x.le(y) && y.le(x)) by {
            reveal(Double::spec_le);
        }
        lemma_rounding_to_i32_monotone(x, y);
        lemma_rounding_to_i32_monotone(y, x);
    }
}

/// Polygons with the same heights reach the same rows.
proof fn lemma_reached_by_both(a: &[Point; 4], b: &[Point; 4], h: i32, py: i32)
    requires
        has_heights(a),
        *b == turned(a) || *b == reversed(a),
    ensures
        reached(a, h, py) == reached(b, h, py),
{
    let (p, q) = (bounds(a), bounds(b));
    assert(p.min_y.le(q.min_y) && q.min_y.le(p.min_y) && p.max_y.le(q.max_y) && q.max_y.le(p.max_y))
        by {
        reveal(Double::spec_lt);
        reveal(Double::spec_le);
    }
    lemma_rounding_to_i32_monotone(p.min_y, q.min_y);
    lemma_rounding_to_i32_monotone(q.min_y, p.min_y);
    lemma_rounding_to_i32_monotone(p.max_y, q.max_y);
    lemma_rounding_to_i32_monotone(q.max_y, p.max_y);
}

proof fn lemma_all_orders(pts: &[Point; 4], y: Double, w: i32)
    ensures
        forall|i: int, j: int|
            span_of(ends_of(#[trigger] crossed_at(pts, y, i), #[trigger] crossed_at(pts, y, j)), w)
                == span_of(ends_of(crossed_at(pts, y, j), crossed_at(pts, y, i)), w),
{
    assert forall|i: int, j: int|
        span_of(ends_of(#[trigger] crossed_at(pts, y, i), #[trigger] crossed_at(pts, y, j)), w)
            == span_of(ends_of(crossed_at(pts, y, j), crossed_at(pts, y, i)), w) by {
        lemma_ends_in_either_order(crossed_at(pts, y, i), crossed_at(pts, y, j), w);
    }
}

/// The pixels of a row do not depend on which vertex is the first one.
pub proof fn lemma_any_vertex_can_be_first(pts: &[Point; 4], w: i32, h: i32, py: i32)
    requires
        has_heights(pts),
        diagonals_meet(pts),
    ensures
        row_span(&turned(pts), w, h, py) == row_span(pts, w, h, py),
        has_heights(&turned(pts)) && diagonals_meet(&turned(pts)),
{
    let other = turned(pts);
    let y = scan_line(py);
    lemma_reached_by_both(pts, &other, h, py);
    if reached(pts, h, py) {
        lemma_ends_of_two(pts, h, py);
        lemma_ends_of_two(&other, h, py);
        lemma_scan_line(py);
        lemma_at_most_two(pts, y);
        assert(edge(&other, 0) == edge(pts, 1));
        assert(edge(&other, 1) == edge(pts, 2));
        assert(edge(&other, 2) == edge(pts, 3));
        assert(edge(&other, 3) == edge(pts, 0));
        lemma_all_orders(pts, y, w);
        assert(span_of(row_ends(pts, h, py), w) == span_of(row_ends(&other, h, py), w));
    }
}

/// The pixels of a row do not depend on the winding.
pub proof fn lemma_either_winding(pts: &[Point; 4], w: i32, h: i32, py: i32)
    requires
        has_heights(pts),
        diagonals_meet(pts),
    ensures
        row_span(&reversed(pts), w, h, py) == row_span(pts, w, h, py),
        has_heights(&reversed(pts)) && diagonals_meet(&reversed(pts)),
{
    let other = reversed(pts);
    let y = scan_line(py);
    lemma_reached_by_both(pts, &other, h, py);
    if reached(pts, h, py) {
        lemma_ends_of_two(pts, h, py);
        lemma_ends_of_two(&other, h, py);
        lemma_scan_line(py);
        lemma_at_most_two(pts, y);
        lemma_edge_from_other_end(pts[0], pts[1], y);
        lemma_edge_from_other_end(pts[1], pts[2], y);
        lemma_edge_from_other_end(pts[2], pts[3], y);
        lemma_edge_from_other_end(pts[3], pts[0], y);
        lemma_all_orders(pts, y, w);
        assert(is_crossed(&other, y, 0) == is_crossed(pts, y, 2));
        assert(is_crossed(&other, y, 1) == is_crossed(pts, y, 1));
        assert(is_crossed(&other, y, 2) == is_crossed(pts, y, 0));
        assert(is_crossed(&other, y, 3) == is_crossed(pts, y, 3));
        assert(is_crossed(pts, y, 2) ==> edge(&other, 0) == edge(pts, 2));
        assert(is_crossed(pts, y, 1) ==> edge(&other, 1) == edge(pts, 1));
        assert(is_crossed(pts, y, 0) ==> edge(&other, 2) == edge(pts, 0));
        assert(is_crossed(pts, y, 3) ==> edge(&other, 3) == edge(pts, 3));
        assert(span_of(row_ends(pts, h, py), w) == span_of(row_ends(&other, h, py), w));
    }
}

/// The picture of a convex polygon depends neither on which vertex is the first one nor on the
/// winding.
pub proof fn lemma_same_picture(pts: &[Point; 4], grad: &Gradient, w: i32, h: i32, n: int)
    requires
        has_heights(pts),
        diagonals_meet(pts),
        n <= i32::MAX,
    ensures
        rows(&turned(pts), grad, w, h, n) == rows(pts, grad, w, h, n),
        rows(&reversed(pts), grad, w, h, n) == rows(pts, grad, w, h, n),
    decreases n,
{
    if n > 0 {
        let py = (n - 1) as i32;
        lemma_same_picture(pts, grad, w, h, n - 1);
        lemma_any_vertex_can_be_first(pts, w, h, py);
        lemma_either_winding(pts, w, h, py);
        assert(row(&turned(pts), grad, w, h, py) =~= row(pts, grad, w, h, py));
        assert(row(&reversed(pts), grad, w, h, py) =~= row(pts, grad, w, h, py));
    }
}

} // verus!
