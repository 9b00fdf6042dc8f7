//! The caret: where it is, how it moves, and how it is drawn.
use crate::accuracy::{
    absolute, exact, is_within, lemma_exact_within, lemma_sum_within, lemma_two, lemma_two_order,
    lemma_within, two,
};
use crate::color::{hex_color, is_color, parse_hex_color, writes};
use crate::coverage::{
    exact_crossing, lemma_covers_what_lies_in_it, lemma_near_polygon_fits, lemma_rounds_at,
    point_within,
};
use crate::double::Double;
use crate::exact::{
    lemma_exact_i32, lemma_rounding_to_i32_monotone, lemma_whole_difference, lemma_whole_rounding,
    magnitude_of,
};
use crate::geometry::{
    bounds, corners_within, is_paced, lemma_bounds_are_tight, lemma_corners_are_near,
    lemma_corners_are_whole, lemma_equal_corners, rect_corners, rect_i32_to_f64, Point, Rect, ZERO,
};
use crate::motion::lemma_scale;
use crate::raster::{
    buffer_fits, diagonals_meet, edge, fill_polygon_bgra, fits_polygon, is_crossed, is_rectangle,
    lemma_gradient_at_a_point, lemma_gradient_of_no_length, lemma_pixel_position,
    lemma_rectangle_bounds, lemma_rectangle_span, polygon_fits, row_fits, row_span, rows, scan_line,
    Gradient,
};
use crate::spring::{
    decays_by, lemma_advanced, lemma_at_rest, lemma_motion_ends, lemma_no_time_no_motion,
    lemma_pace_is_kept, lemma_retargeted, lemma_turns, retargets, SpringState,
};
use crate::steady::{
    corners_at_most, gives_numbers, is_exponential, is_sound, lemma_advance_keeps_sound,
    lemma_retarget_keeps_sound, lemma_sound_at_rest, lemma_sound_springs_come_to_rest, ticks,
};
use vstd::arithmetic::power2::{lemma2_to64, lemma_pow2_adds, pow2};
use vstd::prelude::*;

verus! {

/// Default color (BGRA): Catppuccin Mocha sky #89dceb.
pub const DEFAULT_COLOR_SOLID: [u8; 4] = [0xeb, 0xdc, 0x89, 0xc8];

/// Safety margin around the polygon, in pixels. Prevents rounding from clipping the edge at
/// fractional scale.
pub const BBOX_PAD: i32 = 2;

/// Where the caret stands in the chain of effects.
pub const CHAIN_POSITION: u8 = 77;

/// The first pixel of the box around a polygon that begins at `low`, in one direction.
pub open spec fn box_start(low: Double) -> int {
    low.floor_i32() - BBOX_PAD
}

/// The size of the box around a polygon from `low` to `high`, in one direction.
pub open spec fn box_size(low: Double, high: Double) -> int {
    let n = high.ceil_i32() - box_start(low) + BBOX_PAD;
    if n > 1 {
        n
    } else {
        1
    }
}

/// The pixels of the box can be counted, in one direction.
pub open spec fn range_fits(low: Double, high: Double) -> bool {
    &&& i32::MIN <= box_start(low)
    &&& i32::MIN <= high.ceil_i32() - box_start(low)
    &&& high.ceil_i32() - box_start(low) + BBOX_PAD <= i32::MAX
}

pub open spec fn box_fits(pts: &[Point; 4]) -> bool {
    let b = bounds(pts);
    range_fits(b.min_x, b.max_x) && range_fits(b.min_y, b.max_y)
}

/// The box of pixels around a polygon.
pub open spec fn box_of(pts: &[Point; 4]) -> Rect {
    let b = bounds(pts);
    Rect {
        x: box_start(b.min_x) as i32,
        y: box_start(b.min_y) as i32,
        w: box_size(b.min_x, b.max_x) as i32,
        h: box_size(b.min_y, b.max_y) as i32,
    }
}

fn fits_range(low: Double, high: Double) -> (r: bool)
    ensures
        r == range_fits(low, high),
{
    let start: i64 = low.floor_i32() as i64 - BBOX_PAD as i64;
    let size: i64 = high.ceil_i32() as i64 - start;
    i32::MIN as i64 <= start && i32::MIN as i64 <= size && size + BBOX_PAD as i64 <= i32::MAX as i64
}

/// Whether the box around a polygon can be counted in pixels.
pub fn fits_box(pts: &[Point; 4]) -> (r: bool)
    ensures
        r == box_fits(pts),
{
    let b = bounds(pts);
    fits_range(b.min_x, b.max_x) && fits_range(b.min_y, b.max_y)
}

/// The box of pixels around a polygon.
pub fn bounding_box(pts: &[Point; 4]) -> (r: Rect)
    requires
        box_fits(pts),
    ensures
        r == box_of(pts),
        r.w >= 1,
        r.h >= 1,
{
    let b = bounds(pts);
    let x = b.min_x.floor_i32() - BBOX_PAD;
    let y = b.min_y.floor_i32() - BBOX_PAD;
    let w = b.max_x.ceil_i32() - x + BBOX_PAD;
    let h = b.max_y.ceil_i32() - y + BBOX_PAD;
    Rect {
        x,
        y,
        w: if w > 1 {
            w
        } else {
            1
        },
        h: if h > 1 {
            h
        } else {
            1
        },
    }
}

/// The corner of a box at which its pixels begin.
pub open spec fn origin_of(area: Rect) -> Point {
    Point { x: Double::from_i32(area.x), y: Double::from_i32(area.y) }
}

pub open spec fn spec_local_points(pts: &[Point; 4], area: Rect) -> [Point; 4] {
    let origin = origin_of(area);
    [
        pts[0].minus(origin),
        pts[1].minus(origin),
        pts[2].minus(origin),
        pts[3].minus(origin),
    ]
}

/// A polygon as it is seen from the origin of a box.
#[verifier::when_used_as_spec(spec_local_points)]
pub fn local_points(pts: &[Point; 4], area: Rect) -> (r: [Point; 4])
    ensures
        r == local_points(pts, area),
{
    let origin = Point { x: Double::from_i32(area.x), y: Double::from_i32(area.y) };
    [
        pts[0].minus(origin),
        pts[1].minus(origin),
        pts[2].minus(origin),
        pts[3].minus(origin),
    ]
}

/// One color everywhere.
pub open spec fn solid(at: Point, color: [u8; 4]) -> Gradient {
    Gradient { from: at, to: at, c_start: color, c_end: color }
}

/// The springs are aimed at the corners of `rect`.
pub open spec fn aims_at(s: SpringState, rect: Rect) -> bool {
    s.target == rect_corners(rect_i32_to_f64(rect))
}

/// What a caret is.
pub struct CursorView {
    /// Whether reports are followed.
    pub enabled: bool,
    /// The springs of the caret; none while there is no caret.
    pub state: Option<SpringState>,
    /// The color (BGRA).
    pub color: [u8; 4],
}

impl CursorView {
    /// A caret that is not followed has no springs. Those of others keep their invariant, and are
    /// aimed at a rectangle of whole pixels.
    pub open spec fn inv(self) -> bool {
        &&& !self.enabled ==> self.state is None
        &&& self.state matches Some(s) ==> s.inv() && exists|a: Rect| aims_at(s, a)
    }

    /// The springs of the caret are bounded, with their frequencies in the range, and those that do
    /// not move are at their targets and slow.
    pub open spec fn is_sound(self) -> bool {
        self.state matches Some(s) ==> is_sound(s, two(33))
    }

    /// Either no time has passed, or a microsecond or more.
    pub open spec fn ticks(self, now: u128) -> bool {
        self.state matches Some(s) ==> ticks(s, now)
    }

    /// The caret with the color of `hex`, if that is one.
    pub open spec fn colored(self, hex: Seq<char>) -> CursorView {
        match hex_color(hex) {
            Some(color) => CursorView { color, ..self },
            None => self,
        }
    }

    /// The caret after the report that it is at `rect`. `decay` and `distance` are those of
    /// `retargets`.
    pub open spec fn updated(
        self,
        rect: Option<Rect>,
        now: u128,
        decay: [Double; 4],
        distance: Double,
    ) -> CursorView {
        if !self.enabled {
            self
        } else {
            match rect {
                None => CursorView { state: None, ..self },
                Some(r) => {
                    let target = rect_i32_to_f64(r);
                    CursorView {
                        state: Some(
                            match self.state {
                                Some(s) => s.advanced(now, decay).retargeted(target, distance),
                                None => SpringState::at_rest(target, now),
                            },
                        ),
                        ..self
                    }
                },
            }
        }
    }

    /// The caret when the clock reaches `now`.
    pub open spec fn advanced(self, now: u128, decay: [Double; 4]) -> CursorView {
        CursorView {
            state: match self.state {
                Some(s) => Some(s.advanced(now, decay)),
                None => None,
            },
            ..self
        }
    }

    /// The caret can be drawn: its box and its rows can be counted in pixels and bytes.
    pub open spec fn drawable(self) -> bool {
        self.state matches Some(s) ==> {
            let area = box_of(&s.current);
            &&& box_fits(&s.current)
            &&& buffer_fits(area.w, area.h, ((4 * area.w) * area.h) as nat)
            &&& polygon_fits(&local_points(&s.current, area), area.h)
        }
    }

    /// The bytes of the pixels of the box around the caret.
    pub open spec fn picture(self) -> Seq<u8> {
        match self.state {
            Some(s) => {
                let area = box_of(&s.current);
                let pts = local_points(&s.current, area);
                rows(&pts, &solid(pts[0], self.color), area.w, area.h, area.h as int)
            },
            None => Seq::empty(),
        }
    }
}

/// A caret that follows the reports of where the text cursor is.
#[derive(Debug)]
pub struct JellyCursor {
    enabled: bool,
    state: Option<SpringState>,
    color_solid: [u8; 4],
}

impl View for JellyCursor {
    type V = CursorView;

    closed spec fn view(&self) -> CursorView {
        CursorView { enabled: self.enabled, state: self.state, color: self.color_solid }
    }
}

impl Default for JellyCursor {
    fn default() -> (r: JellyCursor)
        ensures
            r@ == (CursorView { enabled: false, state: None, color: DEFAULT_COLOR_SOLID }),
            r@.color@ == seq![0xebu8, 0xdcu8, 0x89u8, 0xc8u8],
    {
        JellyCursor::new()
    }
}

impl JellyCursor {
    /// A caret that is not followed yet.
    pub fn new() -> (r: JellyCursor)
        ensures
            r@ == (CursorView { enabled: false, state: None, color: DEFAULT_COLOR_SOLID }),
            r@.color@ == seq![0xebu8, 0xdcu8, 0x89u8, 0xc8u8],
            r@.inv(),
            r@.is_sound(),
    {
        JellyCursor { enabled: false, state: None, color_solid: DEFAULT_COLOR_SOLID }
    }

    /// Begins or ends to follow reports. Without reports there is no caret.
    pub fn set_enabled(&mut self, enabled: bool)
        ensures
            final(self)@ == (CursorView {
                enabled,
                state: if enabled {
                    old(self)@.state
                } else {
                    None
                },
                ..old(self)@
            }),
            old(self)@.inv() ==> final(self)@.inv(),
            old(self)@.is_sound() ==> final(self)@.is_sound(),
    {
        self.enabled = enabled;
        if !enabled {
            self.state = None;
        }
    }

    /// Parse a CSS-style hex color (`#RRGGBB` or `#RRGGBBAA`) and use it as the color. Silently
    /// ignores malformed input.
    pub fn set_color_hex(&mut self, hex: &str)
        ensures
            final(self)@ == old(self)@.colored(hex@),
            !is_color(hex@) ==> final(self)@ == old(self)@,
            forall|color: [u8; 4]| #[trigger] writes(hex@, color) ==> final(self)@ == (CursorView {
                color,
                ..old(self)@
            }),
            (forall|color: [u8; 4]| !#[trigger] writes(hex@, color)) ==> final(self)@ == old(self)@,
            old(self)@.inv() ==> final(self)@.inv(),
            old(self)@.is_sound() ==> final(self)@.is_sound(),
    {
        if let Some(bgra) = parse_hex_color(hex) {
            self.color_solid = bgra;
        }
    }

    /// Push the current caret rect (in canvas coordinates) into the animation state machine.
    /// `None` takes the caret away. `exp` is the exponential function, `hypot` the length of a
    /// way.
    pub fn update<E: Fn(Double) -> Double, H: Fn(Double, Double) -> Double>(
        &mut self,
        rect: Option<Rect>,
        now: u128,
        exp: E,
        hypot: H,
    )
        requires
            forall|x: Double| call_requires(exp, (x,)),
            forall|x: Double, y: Double| call_requires(hypot, (x, y)),
        ensures
            exists|decay: [Double; 4], distance: Double|
                #![trigger old(self)@.updated(rect, now, decay, distance)]
                final(self)@ == old(self)@.updated(rect, now, decay, distance) && (old(
                    self,
                )@.enabled && rect is Some && old(self)@.state is Some ==> retargets(
                    old(self)@.state->0,
                    final(self)@.state->0,
                    rect_i32_to_f64(rect->0),
                    now,
                    exp,
                    hypot,
                    decay,
                    distance,
                )),
            final(self)@.enabled == old(self)@.enabled,
            final(self)@.color == old(self)@.color,
            !old(self)@.enabled ==> final(self)@.state == old(self)@.state,
            old(self)@.enabled ==> match (rect, old(self)@.state) {
                (None, _) => final(self)@.state is None,
                (Some(r), None) => final(self)@.state == Some(
                    SpringState::at_rest(rect_i32_to_f64(r), now),
                ),
                (Some(r), Some(s)) => final(self)@.state matches Some(t) && exists|
                    decay: [Double; 4],
                    distance: Double,
                |
                    retargets(s, t, rect_i32_to_f64(r), now, exp, hypot, decay, distance),
            },
            old(self)@.inv() ==> final(self)@.inv(),
            old(self)@.inv() && old(self)@.enabled ==> match rect {
                Some(r) => final(self)@.state matches Some(s) && aims_at(s, r),
                None => final(self)@.state is None,
            },
            old(self)@.is_sound() && old(self)@.ticks(now) && is_exponential(exp) && gives_numbers(
                hypot,
            ) ==> final(self)@.is_sound(),
    {
        let ghost start = self@;
        let ghost nothing = Double::from_bits(ZERO);
        let ghost none = [nothing, nothing, nothing, nothing];
        if !self.enabled {
            assert(self@ == start.updated(rect, now, none, nothing));
            return;
        }
        let r = match rect {
            None => {
                self.state = None;
                assert(self@ == start.updated(rect, now, none, nothing));
                return;
            },
            Some(r) => r,
        };
        let target = rect_i32_to_f64(r);
        match self.state {
            Some(s) => {
                let mut springs = s;
                springs.retarget(target, now, exp, hypot);
                self.state = Some(springs);
                proof {
                    let (decay, distance) = choose|decay: [Double; 4], distance: Double|
                        retargets(s, springs, target, now, exp, hypot, decay, distance);
                    assert(self@ == start.updated(rect, now, decay, distance));
                    if start.inv() {
                        lemma_updated_keeps_invariant(start, rect, now, decay, distance);
                    }
                    if start.is_sound() && start.ticks(now) && is_exponential(exp)
                        && gives_numbers(hypot) {
                        lemma_whole_at_most(r);
                        lemma_retarget_keeps_sound(
                            s,
                            springs,
                            target,
                            now,
                            exp,
                            hypot,
                            decay,
                            distance,
                            two(33),
                            two(33),
                        );
                    }
                }
            },
            None => {
                self.state = Some(SpringState::new(target, now));
                assert(self@ == start.updated(rect, now, none, nothing));
                proof {
                    if start.inv() {
                        lemma_updated_keeps_invariant(start, rect, now, none, nothing);
                    }
                    lemma_whole_at_most(r);
                    lemma_sound_at_rest(target, now, two(33));
                }
            },
        }
    }

    /// The name of the effect.
    pub fn name(&self) -> (r: &'static str)
        ensures
            r@ == "jelly_cursor"@,
    {
        "jelly_cursor"
    }

    /// Whether reports are followed.
    pub fn is_active(&self) -> (r: bool)
        ensures
            r == self@.enabled,
    {
        self.enabled
    }

    /// Where the caret stands in the chain of effects.
    pub fn chain_position(&self) -> (r: u8)
        ensures
            r == CHAIN_POSITION,
            r == 77,
    {
        CHAIN_POSITION
    }

    /// The springs of the caret, if there is one.
    pub fn state(&self) -> (r: Option<SpringState>)
        ensures
            r == self@.state,
    {
        self.state
    }

    /// The color (BGRA).
    pub fn color_solid(&self) -> (r: [u8; 4])
        ensures
            r == self@.color,
    {
        self.color_solid
    }

    /// Moves the caret on to the time at which the next frame is shown. `exp` is the exponential
    /// function.
    pub fn pre_paint<E: Fn(Double) -> Double>(&mut self, present_time: u128, exp: E)
        requires
            forall|x: Double| call_requires(exp, (x,)),
        ensures
            exists|decay: [Double; 4]|
                #![trigger old(self)@.advanced(present_time, decay)]
                final(self)@ == old(self)@.advanced(present_time, decay) && (old(
                    self,
                )@.state matches Some(s) ==> decays_by(exp, s.exponents(present_time), decay)),
            final(self)@.enabled == old(self)@.enabled,
            final(self)@.color == old(self)@.color,
            old(self)@.state is None ==> final(self)@.state is None,
            old(self)@.state matches Some(s) ==> (final(self)@.state matches Some(t) && exists|
                decay: [Double; 4],
            |
                decays_by(exp, s.exponents(present_time), decay) && t == #[trigger] s.advanced(
                    present_time,
                    decay,
                )),
            old(self)@.inv() ==> final(self)@.inv(),
            old(self)@.is_sound() && old(self)@.ticks(present_time) && is_exponential(exp)
                ==> final(self)@.is_sound(),
    {
        let ghost start = self@;
        if let Some(s) = self.state {
            let mut springs = s;
            springs.advance_to(present_time, exp);
            self.state = Some(springs);
            proof {
                let decay = choose|decay: [Double; 4]|
                    decays_by(exp, s.exponents(present_time), decay) && springs == s.advanced(
                        present_time,
                        decay,
                    );
                assert(self@ == start.advanced(present_time, decay));
                lemma_advanced_stays(start, present_time, decay);
                if start.is_sound() && start.ticks(present_time) && is_exponential(exp) {
                    lemma_advance_keeps_sound(s, present_time, exp, decay, two(33), two(33));
                }
            }
        } else {
            let ghost nothing = Double::from_bits(ZERO);
            let ghost none = [nothing, nothing, nothing, nothing];
            assert(self@ == start.advanced(present_time, none));
        }
    }

    /// Whether another frame is needed.
    pub fn post_paint(&self) -> (r: bool)
        ensures
            r == (self@.state matches Some(s) && s.moving),
    {
        match self.state {
            Some(s) => s.moving,
            None => false,
        }
    }

    /// Whether the caret can be drawn.
    pub fn is_drawable(&self) -> (r: bool)
        ensures
            r == self@.drawable(),
    {
        match self.state {
            None => true,
            Some(s) => {
                if !fits_box(&s.current) {
                    return false;
                }
                let area = bounding_box(&s.current);
                let stride: i64 = 4 * area.w as i64;
                if stride > i32::MAX as i64 {
                    return false;
                }
                assert(0 <= stride * (area.h - 1) <= 0x8000_0000 * 0x8000_0000)
                    by (nonlinear_arith)
                    requires
                        0 <= stride <= 0x8000_0000,
                        0 <= area.h - 1 <= 0x8000_0000,
                ;
                let pts = local_points(&s.current, area);
                assert((4 * area.w) * area.h >= 0) by (nonlinear_arith)
                    requires
                        area.w >= 0,
                        area.h >= 0,
                ;
                stride * (area.h as i64 - 1) <= i32::MAX as i64 && fits_polygon(&pts, area.h)
            },
        }
    }

    /// The box of pixels around the caret, if there is one.
    pub fn area(&self) -> (r: Option<Rect>)
        requires
            self@.drawable(),
        ensures
            r == match self@.state {
                Some(s) => Some(box_of(&s.current)),
                None => None,
            },
    {
        match self.state {
            Some(s) => Some(bounding_box(&s.current)),
            None => None,
        }
    }

    /// Draws the caret into the pixels of its box.
    pub fn paint(&self, data: &mut [u8])
        requires
            self@.drawable(),
            self@.state matches Some(s) ==> old(data)@.len() == (4 * box_of(&s.current).w) * box_of(
                &s.current,
            ).h,
        ensures
            self@.state is Some ==> final(data)@ == self@.picture(),
            self@.state matches Some(s) ==> {
                let area = box_of(&s.current);
                let pts = local_points(&s.current, area);
                let grad = Gradient {
                    from: pts[0],
                    to: pts[0],
                    c_start: self@.color,
                    c_end: self@.color,
                };
                final(data)@ == rows(&pts, &grad, area.w, area.h, area.h as int)
            },
            self@.state is None ==> final(data)@ == old(data)@,
    {
        if let Some(s) = self.state {
            let area = bounding_box(&s.current);
            let pts = local_points(&s.current, area);
            let grad = Gradient {
                from: pts[0],
                to: pts[0],
                c_start: self.color_solid,
                c_end: self.color_solid,
            };
            fill_polygon_bgra(data, area.w, area.h, &pts, &grad);
            assert(data@ =~= self@.picture());
        }
    }
}

/// Reports keep the invariant, and aim the caret at the rectangle that is reported.
pub proof fn lemma_updated_keeps_invariant(
    v: CursorView,
    rect: Option<Rect>,
    now: u128,
    decay: [Double; 4],
    distance: Double,
)
    requires
        v.inv(),
    ensures
        v.updated(rect, now, decay, distance).inv(),
        v.enabled && rect is Some ==> (v.updated(rect, now, decay, distance).state matches Some(t)
            && aims_at(t, rect->0)),
{
    if let Some(r) = rect {
        let f = rect_i32_to_f64(r);
        lemma_corners_are_near(r);
        lemma_at_rest(f, now);
        if v.enabled {
            let t = v.updated(rect, now, decay, distance).state->0;
            if let Some(s) = v.state {
                let mid = s.advanced(now, decay);
                lemma_advanced(s, now, decay);
                lemma_retargeted(mid, f, distance);
                let a = choose|a: Rect| aims_at(s, a);
                lemma_turns(mid, a, r);
            }
            assert(aims_at(t, r));
        }
    }
}

/// Time keeps the invariant, and a caret that is there stays there, settled or not.
pub proof fn lemma_advanced_stays(v: CursorView, now: u128, decay: [Double; 4])
    ensures
        v.inv() ==> v.advanced(now, decay).inv(),
        v.advanced(now, decay).state is Some <==> v.state is Some,
        v.advanced(now, decay).enabled == v.enabled,
        v.advanced(now, decay).color == v.color,
{
    if let Some(s) = v.state {
        lemma_advanced(s, now, decay);
        assert forall|a: Rect| aims_at(s, a) implies aims_at(s.advanced(now, decay), a) by {}
    }
}

/// When the swing of a caret that moves has faded, it stands still where it was last reported, and
/// no frame is needed any more.
pub proof fn lemma_caret_comes_to_rest(
    v: CursorView,
    now: u128,
    decay: [Double; 4],
    n: int,
    k: int,
)
    requires
        v.state matches Some(s) && s.moving && now > s.last_tick && forall|i: int|
            0 <= i < 4 ==> #[trigger] s.corner_fades(i, s.elapsed(now), decay, n, k),
        0 <= n <= 400,
        0 <= k <= 400,
    ensures
        ({
            let later = v.advanced(now, decay);
            &&& later.state matches Some(s) && !s.moving && s.current == s.target && s.target
                == v.state->0.target
            &&& forall|rect: Rect|
                aims_at(v.state->0, rect) ==> later.state->0.current == #[trigger] rect_corners(
                    rect_i32_to_f64(rect),
                )
        }),
{
    lemma_motion_ends(v.state->0, now, decay, n, k);
}

/// Whatever was reported before, a caret stands still where it was last reported after four seconds
/// without a report, with the exponential function.
pub proof fn lemma_caret_rests_after_four_seconds<E: Fn(Double) -> Double>(
    v: CursorView,
    now: u128,
    exp: E,
    decay: [Double; 4],
)
    requires
        v.is_sound(),
        is_exponential(exp),
        v.state matches Some(s) ==> now - s.last_tick >= 4_000_000_000 && decays_by(
            exp,
            s.exponents(now),
            decay,
        ),
    ensures
        v.advanced(now, decay).state matches Some(s) ==> !s.moving,
        v.state matches Some(s) ==> s.moving ==> v.advanced(now, decay).state == Some(
            (SpringState { last_tick: now, ..s }).stopped(),
        ),
{
    if let Some(s) = v.state {
        lemma_sound_springs_come_to_rest(s, now, exp, decay, 33);
    }
}

/// The corners of a rectangle of whole pixels are at most `2^33`.
proof fn lemma_whole_at_most(r: Rect)
    ensures
        corners_at_most(&rect_corners(rect_i32_to_f64(r)), two(33)),
        1real <= two(33) <= two(97),
{
    let c = rect_corners(rect_i32_to_f64(r));
    lemma_corners_are_near(r);
    lemma_two(0);
    lemma_two_order(0, 33);
    lemma_two_order(33, 97);
    assert forall|i: int| #![trigger c[i]] 0 <= i < 4 implies absolute(exact(c[i].x)) <= two(33)
        && absolute(exact(c[i].y)) <= two(33) by {
        lemma_exact_within(c[i].x, 33);
        lemma_exact_within(c[i].y, 33);
    }
}

/// As long as no frame is needed, time changes nothing that can be seen.
pub proof fn lemma_no_frame_needed(v: CursorView, now: u128, decay: [Double; 4])
    requires
        !(v.state matches Some(s) && s.moving),
    ensures
        ({
            let later = v.advanced(now, decay);
            &&& !(later.state matches Some(s) && s.moving)
            &&& v.state matches Some(s) ==> later.state == Some(SpringState { last_tick: now, ..s })
            &&& v.state is None ==> later == v
            &&& later.drawable() == v.drawable()
            &&& later.picture() == v.picture()
        }),
{
}

/// Reports do nothing to a caret that is not followed, and there is nothing to see of it.
pub proof fn lemma_disabled(
    v: CursorView,
    rect: Option<Rect>,
    now: u128,
    decay: [Double; 4],
    distance: Double,
)
    requires
        v.inv(),
        !v.enabled,
    ensures
        v.updated(rect, now, decay, distance) == v,
        v.state is None,
{
}

/// A caret that comes back after it was taken away is at rest at its new place, wherever it was
/// before.
pub proof fn lemma_return_is_at_rest(
    v: CursorView,
    rect: Rect,
    gone: u128,
    back: u128,
    decay: [Double; 4],
    distance: Double,
)
    requires
        v.enabled,
    ensures
        ({
            let away = v.updated(None, gone, decay, distance);
            let there = away.updated(Some(rect), back, decay, distance);
            &&& away.state is None
            &&& there.state == Some(SpringState::at_rest(rect_i32_to_f64(rect), back))
            &&& !there.state->0.moving
            &&& there.color == v.color
        }),
{
}

/// A report aims the springs at its corners and discards nothing: corners and velocities are
/// those that the springs have at that time.
pub proof fn lemma_report_keeps_motion(
    v: CursorView,
    rect: Rect,
    now: u128,
    decay: [Double; 4],
    distance: Double,
)
    requires
        v.inv(),
        v.enabled,
        v.state is Some,
    ensures
        ({
            let s = v.state->0.advanced(now, decay);
            let t = v.updated(Some(rect), now, decay, distance).state;
            &&& t is Some
            &&& t->0.current == s.current
            &&& t->0.velocity == s.velocity
            &&& t->0.last_tick == now
            &&& aims_at(t->0, rect)
        }),
{
    let s = v.state->0;
    lemma_corners_are_near(rect);
    lemma_advanced(s, now, decay);
    lemma_retargeted(s.advanced(now, decay), rect_i32_to_f64(rect), distance);
    lemma_updated_keeps_invariant(v, Some(rect), now, decay, distance);
}

/// Reports keep the frequencies in their range, as long as the caret is not too far away and the
/// distance is a number.
pub proof fn lemma_report_keeps_pace(
    v: CursorView,
    rect: Rect,
    now: u128,
    decay: [Double; 4],
    distance: Double,
)
    requires
        v.enabled,
        v.state matches Some(s) ==> is_paced(s.omega) && corners_within(
            &s.advanced(now, decay).current,
            100,
        ),
        !distance.is_nan(),
    ensures
        v.updated(Some(rect), now, decay, distance).state matches Some(t) && is_paced(t.omega),
{
    let f = rect_i32_to_f64(rect);
    let c = rect_corners(f);
    lemma_corners_are_near(rect);
    match v.state {
        Some(s) => {
            assert forall|i: int| #![trigger c[i]] 0 <= i < 4 implies is_within(c[i].x, 100)
                && is_within(c[i].y, 100) by {
                lemma_within(c[i].x, 33, 100);
                lemma_within(c[i].y, 33, 100);
            }
            lemma_pace_is_kept(s, f, now, decay, distance);
        },
        None => {
            lemma_at_rest(f, now);
        },
    }
}

/// A report of a new place sets a caret at rest in motion, from where it is to where it is
/// reported; a report of the place where it is does not.
pub proof fn lemma_new_place_starts_motion(
    v: CursorView,
    here: Rect,
    there: Rect,
    now: u128,
    decay: [Double; 4],
    distance: Double,
)
    requires
        v.enabled,
        v.state is Some,
        v.state->0.current == rect_corners(rect_i32_to_f64(here)),
        v.state->0.target == rect_corners(rect_i32_to_f64(here)),
        !v.state->0.moving,
    ensures
        ({
            let s = v.updated(Some(there), now, decay, distance).state->0;
            &&& s.moving <==> here != there
            &&& s.current == rect_corners(rect_i32_to_f64(here))
            &&& s.target == rect_corners(rect_i32_to_f64(there))
        }),
{
    let s = v.state->0;
    lemma_advanced(s, now, decay);
    lemma_equal_corners(here, there);
}

/// The same report at the same time changes nothing more.
pub proof fn lemma_repeated_report(
    v: CursorView,
    rect: Option<Rect>,
    now: u128,
    decay: [Double; 4],
    distance: Double,
    decay_again: [Double; 4],
    distance_again: Double,
)
    ensures
        v.updated(rect, now, decay, distance).updated(rect, now, decay_again, distance_again)
            == v.updated(rect, now, decay, distance),
{
    if let Some(r) = rect {
        if v.enabled {
            let once = v.updated(rect, now, decay, distance).state->0;
            let f = rect_i32_to_f64(r);
            match v.state {
                Some(s) => {
                    lemma_advanced(s, now, decay);
                    lemma_corners_are_near(r);
                    lemma_retargeted(s.advanced(now, decay), f, distance);
                },
                None => {
                    lemma_equal_corners(r, r);
                },
            }
            assert(!once.turns(f) && once.last_tick == now);
            lemma_no_time_no_motion(once, now, decay_again);
        }
    }
}

/// The box of the caret leaves a margin around each of its corners.
pub proof fn lemma_margin(pts: &[Point; 4], i: int)
    requires
        box_fits(pts),
        0 <= i < 4,
        !pts[i].x.is_nan(),
        !pts[i].y.is_nan(),
    ensures
        ({
            let area = box_of(pts);
            &&& area.x + BBOX_PAD <= pts[i].x.floor_i32()
            &&& pts[i].x.ceil_i32() + BBOX_PAD <= area.x + area.w
            &&& area.y + BBOX_PAD <= pts[i].y.floor_i32()
            &&& pts[i].y.ceil_i32() + BBOX_PAD <= area.y + area.h
        }),
{
    let b = bounds(pts);
    lemma_bounds_are_tight(pts);
    let p = pts[i];
    lemma_rounding_to_i32_monotone(b.min_x, p.x);
    lemma_rounding_to_i32_monotone(p.x, b.max_x);
    lemma_rounding_to_i32_monotone(b.min_y, p.y);
    lemma_rounding_to_i32_monotone(p.y, b.max_y);
}

/// A pixel of the picture of a caret.
pub open spec fn picture_pixel(v: CursorView, px: int, py: int, channel: int) -> u8 {
    v.picture()[(4 * box_of(&v.state->0.current).w) * py + 4 * px + channel]
}

/// The picture of a caret shows its color between the ends of each row, and nothing elsewhere.
pub proof fn lemma_picture(v: CursorView, px: int, py: int, channel: int)
    requires
        v.state is Some,
        0 <= px < box_of(&v.state->0.current).w,
        0 <= py < box_of(&v.state->0.current).h,
        0 <= channel < 4,
        local_points(&v.state->0.current, box_of(&v.state->0.current))[0].x.is_finite(),
        local_points(&v.state->0.current, box_of(&v.state->0.current))[0].y.is_finite(),
    ensures
        ({
            let area = box_of(&v.state->0.current);
            let pts = local_points(&v.state->0.current, area);
            picture_pixel(v, px, py, channel) == if row_span(
                &pts,
                area.w,
                area.h,
                py as i32,
            ) matches Some((x0, x1)) && x0 <= px < x1 {
                v.color[channel]
            } else {
                0
            }
        }),
{
    let area = box_of(&v.state->0.current);
    let pts = local_points(&v.state->0.current, area);
    let grad = solid(pts[0], v.color);
    lemma_pixel_position(
        &pts,
        &grad,
        area.w,
        area.h,
        area.h as int,
        px,
        py as i32,
        channel,
    );
    lemma_gradient_at_a_point(grad);
    lemma_gradient_of_no_length(&pts, &grad, area.w, area.h, px, py as i32);
}

/// The box of a caret at rest, and where its corners are in it.
proof fn lemma_box_at_rest(c: &[Point; 4], rect: Rect)
    requires
        *c == rect_corners(rect_i32_to_f64(rect)),
        i32::MIN + BBOX_PAD <= rect.x,
        i32::MIN + BBOX_PAD <= rect.y,
        rect.x + rect.w <= i32::MAX,
        rect.y + rect.h <= i32::MAX,
        0 <= rect.w <= i32::MAX - 2 * BBOX_PAD,
        0 <= rect.h <= i32::MAX - 2 * BBOX_PAD,
    ensures
        box_fits(c),
        box_of(c) == (Rect {
            x: (rect.x - BBOX_PAD) as i32,
            y: (rect.y - BBOX_PAD) as i32,
            w: (rect.w + 2 * BBOX_PAD) as i32,
            h: (rect.h + 2 * BBOX_PAD) as i32,
        }),
        is_rectangle(&local_points(c, box_of(c)), 2, 2, rect.w + 2, rect.h + 2),
{
    let (x, y, w, h) = (rect.x as int, rect.y as int, rect.w as int, rect.h as int);
    lemma_corners_are_whole(rect);
    lemma_rectangle_bounds(c, x, y, x + w, y + h);
    let b = bounds(c);
    lemma_whole_rounding(b.min_x, x);
    lemma_whole_rounding(b.min_y, y);
    lemma_whole_rounding(b.max_x, x + w);
    lemma_whole_rounding(b.max_y, y + h);
    let area = box_of(c);
    let pts = local_points(c, area);
    let origin = origin_of(area);
    lemma_exact_i32(area.x);
    lemma_exact_i32(area.y);
    lemma_whole_difference(c[0].x, origin.x, x, x - 2);
    lemma_whole_difference(c[0].y, origin.y, y, y - 2);
    lemma_whole_difference(c[1].x, origin.x, x + w, x - 2);
    lemma_whole_difference(c[1].y, origin.y, y, y - 2);
    lemma_whole_difference(c[2].x, origin.x, x + w, x - 2);
    lemma_whole_difference(c[2].y, origin.y, y + h, y - 2);
    lemma_whole_difference(c[3].x, origin.x, x, x - 2);
    lemma_whole_difference(c[3].y, origin.y, y + h, y - 2);
}

/// A caret at rest shows just the rectangle that was reported: its pixels have the color of the
/// caret, and the margin around it is transparent.
pub proof fn lemma_picture_at_rest(v: CursorView, rect: Rect, px: int, py: int, channel: int)
    requires
        v.state is Some,
        v.state->0.current == rect_corners(rect_i32_to_f64(rect)),
        i32::MIN + BBOX_PAD <= rect.x,
        i32::MIN + BBOX_PAD <= rect.y,
        rect.x + rect.w <= i32::MAX,
        rect.y + rect.h <= i32::MAX,
        0 <= rect.w <= 0x100_0000 - BBOX_PAD,
        0 <= rect.h <= i32::MAX - 2 * BBOX_PAD,
        -BBOX_PAD <= px < rect.w + BBOX_PAD,
        -BBOX_PAD <= py < rect.h + BBOX_PAD,
        0 <= channel < 4,
    ensures
        box_of(&v.state->0.current) == (Rect {
            x: (rect.x - BBOX_PAD) as i32,
            y: (rect.y - BBOX_PAD) as i32,
            w: (rect.w + 2 * BBOX_PAD) as i32,
            h: (rect.h + 2 * BBOX_PAD) as i32,
        }),
        box_fits(&v.state->0.current),
        picture_pixel(v, px + BBOX_PAD, py + BBOX_PAD, channel) == if 0 <= px < rect.w && 0 <= py
            < rect.h {
            v.color[channel]
        } else {
            0
        },
{
    let c = v.state->0.current;
    let area = box_of(&c);
    let pts = local_points(&c, area);
    lemma_box_at_rest(&c, rect);
    lemma_rectangle_span(
        &pts,
        2,
        2,
        rect.w + 2,
        rect.h + 2,
        area.w,
        area.h,
        (py + 2) as i32,
    );
    lemma_picture(v, px + 2, py + 2, channel);
}

/// A caret at rest can be drawn, if its pixels can be counted.
pub proof fn lemma_rest_is_drawable(v: CursorView, rect: Rect)
    requires
        v.state is Some,
        v.state->0.current == rect_corners(rect_i32_to_f64(rect)),
        i32::MIN + BBOX_PAD <= rect.x,
        i32::MIN + BBOX_PAD <= rect.y,
        rect.x + rect.w <= i32::MAX,
        rect.y + rect.h <= i32::MAX,
        0 <= rect.w <= 0x100_0000 - BBOX_PAD,
        0 <= rect.h <= i32::MAX - 2 * BBOX_PAD,
        (4 * (rect.w + 2 * BBOX_PAD)) * (rect.h + 2 * BBOX_PAD - 1) <= i32::MAX,
    ensures
        v.drawable(),
{
    let c = v.state->0.current;
    let area = box_of(&c);
    let pts = local_points(&c, area);
    lemma_box_at_rest(&c, rect);
    assert forall|py: i32| 0 <= py < area.h implies #[trigger] row_fits(&pts, area.h, py) by {
        lemma_rectangle_span(
            &pts,
            2,
            2,
            rect.w + 2,
            rect.h + 2,
            area.w,
            area.h,
            py,
        );
    }
    assert((4 * area.w) * area.h >= 0) by (nonlinear_arith)
        requires
            area.w >= 0,
            area.h >= 0,
    ;
}

/// The box in one direction, for a polygon that is at most `2^28` away, and how far a point of it
/// is from the start of the box.
pub proof fn lemma_near_range(low: Double, high: Double, x: Double)
    requires
        is_within(low, 28),
        is_within(high, 28),
        is_within(x, 28),
    ensures
        range_fits(low, high),
        is_within(x.sub(Double::from_i32(box_start(low) as i32)), 30),
{
    let far: int = 0x1000_0000;
    lemma_two(0);
    lemma_scale(0);
    lemma_scale(10);
    lemma_scale(20);
    lemma_exact_within(low, 28);
    lemma_exact_within(high, 28);
    lemma_rounds_at(low, -far);
    lemma_rounds_at(low, far + 1);
    lemma_rounds_at(high, far);
    lemma_rounds_at(high, -far - 1);
    let start = box_start(low) as i32;
    let origin = Double::from_i32(start);
    lemma_exact_i32(start);
    lemma2_to64();
    lemma_pow2_adds(29, 1074);
    assert(is_within(origin, 29)) by {
        let w = pow2(1074);
        let m = magnitude_of(origin.value());
        assert((-start) * w == -(start * w)) by (nonlinear_arith);
        assert(m <= 0x2000_0000 * w) by (nonlinear_arith)
            requires
                m == start * w || m == (-start) * w,
                -0x2000_0000 <= start <= 0x2000_0000,
                w >= 0,
        ;
    }
    lemma_within(x, 28, 29);
    lemma_sum_within(x, origin, 29);
}

/// The bounds of a polygon that is not far away are not far away either.
pub proof fn lemma_near_bounds(pts: &[Point; 4])
    requires
        forall|k: int| #![trigger pts[k]] 0 <= k < 4 ==> point_within(pts[k], 28),
    ensures
        ({
            let b = bounds(pts);
            &&& is_within(b.min_x, 28) && is_within(b.max_x, 28)
            &&& is_within(b.min_y, 28) && is_within(b.max_y, 28)
        }),
{
    let b = bounds(pts);
    lemma_bounds_are_tight(pts);
    let p = pts[0];
    reveal(Double::spec_le);
    assert(b.min_x.le(p.x) && p.x.le(b.max_x) && b.min_y.le(p.y) && p.y.le(b.max_y));
}

/// A caret that is not far away can be drawn, in whatever shape it is, if its pixels can be
/// counted.
pub proof fn lemma_near_caret_is_drawable(v: CursorView)
    requires
        v.state matches Some(s) && {
            let area = box_of(&s.current);
            &&& forall|k: int|
                #![trigger s.current[k]]
                0 <= k < 4 ==> point_within(s.current[k], 28)
            &&& 4 * area.w <= i32::MAX
            &&& (4 * area.w) * (area.h - 1) <= i32::MAX
        },
    ensures
        v.drawable(),
{
    let c = v.state->0.current;
    let area = box_of(&c);
    let b = bounds(&c);
    let pts = local_points(&c, area);
    lemma_near_bounds(&c);
    assert forall|k: int| #![trigger pts[k]] 0 <= k < 4 implies point_within(pts[k], 30) by {
        let p = c[k];
        lemma_near_range(b.min_x, b.max_x, p.x);
        lemma_near_range(b.min_y, b.max_y, p.y);
        assert(pts[k] == p.minus(origin_of(area)));
    }
    let p = c[0];
    lemma_near_range(b.min_x, b.max_x, p.x);
    lemma_near_range(b.min_y, b.max_y, p.y);
    lemma_near_polygon_fits(&pts, area.h);
    assert((4 * area.w) * area.h >= 0) by (nonlinear_arith)
        requires
            area.w >= 0,
            area.h >= 0,
    ;
}

/// The picture of a caret in motion shows its color where the caret is, and nothing elsewhere, up
/// to rounding: a pixel lies in a convex polygon if it is between the two sides that are crossed at
/// its height.
pub proof fn lemma_picture_in_motion(
    v: CursorView,
    px: int,
    py: int,
    channel: int,
    i: int,
    j: int,
    b: int,
)
    requires
        v.state is Some,
        0 <= px < box_of(&v.state->0.current).w,
        0 <= py < box_of(&v.state->0.current).h,
        0 <= channel < 4,
        0 <= i < j < 4,
        0 <= b <= 500,
        ({
            let pts = local_points(&v.state->0.current, box_of(&v.state->0.current));
            &&& forall|k: int| #![trigger pts[k]] 0 <= k < 4 ==> point_within(pts[k], b)
            &&& diagonals_meet(&pts)
            &&& is_crossed(&pts, scan_line(py as i32), i)
            &&& is_crossed(&pts, scan_line(py as i32), j)
        }),
    ensures
        ({
            let pts = local_points(&v.state->0.current, box_of(&v.state->0.current));
            let (e, f) = (edge(&pts, i), edge(&pts, j));
            let y = exact(scan_line(py as i32));
            let (first, second) = (exact_crossing(e.0, e.1, y), exact_crossing(f.0, f.1, y));
            let (l, r) = if second < first {
                (second, first)
            } else {
                (first, second)
            };
            let slack = two(b - 47) + two(-29);
            let x = px as real;
            &&& l + slack <= x && x + slack <= r ==> picture_pixel(v, px, py, channel)
                == v.color[channel]
            &&& x + slack < l || r + slack < x ==> picture_pixel(v, px, py, channel) == 0
        }),
{
    let area = box_of(&v.state->0.current);
    let pts = local_points(&v.state->0.current, area);
    assert(point_within(pts[0], b));
    lemma_picture(v, px, py, channel);
    lemma_covers_what_lies_in_it(&pts, area.w, area.h, px, py as i32, b, i, j);
}

} // verus!
