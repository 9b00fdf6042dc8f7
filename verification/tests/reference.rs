//! The caret against the same formulas on the machine's own numbers.
use jelly_cursor::cursor::{bounding_box, fits_box, local_points, JellyCursor};
use jelly_cursor::double::Double;
use jelly_cursor::geometry::{Point, Rect};
use jelly_cursor::raster::{fill_polygon_bgra, fits_polygon, Gradient};

type Corners = [(f64, f64); 4];

fn d(x: f64) -> Double {
    Double::from_bits(x.to_bits())
}

fn f(x: Double) -> f64 {
    f64::from_bits(x.bits)
}

fn exp(x: Double) -> Double {
    d(f(x).exp())
}

fn hypot(x: Double, y: Double) -> Double {
    d(f(x).hypot(f(y)))
}

fn point(p: (f64, f64)) -> Point {
    Point { x: d(p.0), y: d(p.1) }
}

struct Numbers {
    state: u64,
}

impl Numbers {
    fn next(&mut self) -> u64 {
        self.state ^= self.state << 13;
        self.state ^= self.state >> 7;
        self.state ^= self.state << 17;
        self.state
    }

    fn below(&mut self, n: u64) -> u64 {
        self.next() % n
    }

    fn fraction(&mut self) -> f64 {
        (self.next() >> 11) as f64 / (1u64 << 53) as f64
    }
}

#[derive(Clone, Copy)]
struct Springs {
    current: Corners,
    target: Corners,
    velocity: [[f64; 2]; 4],
    omega: [f64; 4],
    last: u128,
    moving: bool,
}

fn corners(r: Rect) -> Corners {
    let (x, y, w, h) = (r.x as f64, r.y as f64, r.w as f64, r.h as f64);
    [(x, y), (x + w, y + 0.0), (x + w, y + h), (x + 0.0, y + h)]
}

fn equal(a: &Corners, b: &Corners) -> bool {
    a.iter()
        .zip(b.iter())
        .all(|(a, b)| (a.0 - b.0).abs() < 0.5 && (a.1 - b.1).abs() < 0.5)
}

fn center(c: &Corners) -> (f64, f64) {
    let (x, y) = c.iter().fold((0.0, 0.0), |(x, y), p| (x + p.0, y + p.1));
    (x * 0.25, y * 0.25)
}

fn frequencies(current: &Corners, target: &Corners) -> [f64; 4] {
    let from = center(current);
    let to = center(target);
    let (dx, dy) = (to.0 - from.0, to.1 - from.1);
    let distance = dx.hypot(dy);
    if distance < 0.02 {
        return [26.0; 4];
    }
    let (ux, uy) = (dx / distance, dy / distance);
    let p = target.map(|c| (c.0 - to.0) * ux + (c.1 - to.1) * uy);
    let most = p.iter().map(|x| x.abs()).fold(0.0_f64, f64::max).max(1e-9);
    p.map(|x| 26.0 + 6.0 * (x / most).clamp(-1.0, 1.0))
}

fn step(p: &mut f64, v: &mut f64, target: f64, omega: f64, dt: f64) {
    let displacement = *p - target;
    let coefficient = *v + omega * displacement;
    let decay = (-omega * dt).exp();
    *p = target + (displacement + coefficient * dt) * decay;
    *v = (*v - omega * coefficient * dt) * decay;
}

fn advance(s: &mut Springs, now: u128) {
    let elapsed = now.saturating_sub(s.last);
    let dt = (elapsed / 1_000_000_000) as f64 + (elapsed % 1_000_000_000) as f64 / 1e9;
    s.last = now;
    if !s.moving || dt <= 0.0 {
        return;
    }
    for i in 0..4 {
        step(&mut s.current[i].0, &mut s.velocity[i][0], s.target[i].0, s.omega[i], dt);
        step(&mut s.current[i].1, &mut s.velocity[i][1], s.target[i].1, s.omega[i], dt);
    }
    let settled = (0..4).all(|i| {
        (s.current[i].0 - s.target[i].0).abs() <= 0.02
            && (s.current[i].1 - s.target[i].1).abs() <= 0.02
            && s.velocity[i].iter().all(|v| v.abs() <= 0.5)
    });
    if settled {
        s.current = s.target;
        s.velocity = [[0.0; 2]; 4];
        s.moving = false;
    }
}

fn retarget(s: &mut Springs, r: Rect, now: u128) {
    advance(s, now);
    let target = corners(r);
    if equal(&s.target, &target) {
        return;
    }
    s.omega = frequencies(&s.current, &target);
    s.target = target;
    s.moving =
        !equal(&s.current, &s.target) || s.velocity.iter().flatten().any(|v| v.abs() > 0.5);
}

fn same(a: &[Point; 4], b: &Corners) -> bool {
    a.iter()
        .zip(b.iter())
        .all(|(a, b)| a.x.bits == b.0.to_bits() && a.y.bits == b.1.to_bits())
}

#[test]
fn motion_agrees_with_the_machine() {
    let mut n = Numbers { state: 0x1234_5678_9abc_def1 };
    for _ in 0..60 {
        let mut jc = JellyCursor::new();
        jc.set_enabled(true);
        let mut now: u128 = n.below(1_000_000_000) as u128;
        let mut rect = || Rect {
            x: n.below(4000) as i32 - 500,
            y: n.below(3000) as i32 - 500,
            w: n.below(30) as i32,
            h: n.below(40) as i32,
        };
        let first = rect();
        let mut s = Springs {
            current: corners(first),
            target: corners(first),
            velocity: [[0.0; 2]; 4],
            omega: [26.0; 4],
            last: now,
            moving: false,
        };
        jc.update(Some(first), now, exp, hypot);
        for k in 0..60 {
            now += 1_000_000 * (1 + (k * 7) % 23);
            if k % 9 == 0 {
                let r = rect();
                retarget(&mut s, r, now);
                jc.update(Some(r), now, exp, hypot);
            } else {
                advance(&mut s, now);
                jc.pre_paint(now, exp);
            }
            let t = jc.state().unwrap();
            assert!(same(&t.current, &s.current));
            assert!(same(&t.target, &s.target));
            for i in 0..4 {
                assert_eq!(t.omega[i].bits, s.omega[i].to_bits());
                for j in 0..2 {
                    assert_eq!(t.velocity[i][j].bits, s.velocity[i][j].to_bits());
                }
            }
            assert_eq!(t.moving, s.moving);
            assert_eq!(jc.post_paint(), s.moving);
        }
    }
}

fn mix(a: u8, b: u8, t: f32) -> u8 {
    (a as f32 * (1.0 - t) + b as f32 * t).round() as u8
}

fn fill(w: i32, h: i32, pts: &Corners, from: (f64, f64), to: (f64, f64), c: [[u8; 4]; 2]) -> Vec<u8> {
    let mut data = vec![0u8; (w * h * 4) as usize];
    let low = pts.iter().map(|p| p.1).fold(f64::INFINITY, f64::min);
    let high = pts.iter().map(|p| p.1).fold(f64::NEG_INFINITY, f64::max);
    let (gx, gy) = (to.0 - from.0, to.1 - from.1);
    let len2 = gx * gx + gy * gy;
    let varies = len2 > 1e-9;
    let inv = if varies { 1.0 / len2 } else { 0.0 };
    for py in 0..h {
        if py < low.floor() as i32 || py > high.ceil() as i32 {
            continue;
        }
        let y = py as f64 + 0.5;
        let mut xs = Vec::new();
        for i in 0..4 {
            let (a, b) = (pts[i], pts[(i + 1) % 4]);
            let (lo, hi) = if a.1 <= b.1 { (a, b) } else { (b, a) };
            if y < lo.1 || y >= hi.1 || (hi.1 - lo.1).abs() < 1e-9 {
                continue;
            }
            xs.push(lo.0 + (y - lo.1) / (hi.1 - lo.1) * (hi.0 - lo.0));
        }
        if xs.len() < 2 {
            continue;
        }
        let (mut l, mut r) = (xs[0], xs[xs.len() - 1]);
        if l > r {
            std::mem::swap(&mut l, &mut r);
        }
        let x0 = (l.ceil() as i32).clamp(0, w);
        let x1 = ((r - 1e-9).floor() as i32 + 1).clamp(0, w);
        let mut t = if varies {
            ((x0 as f64 + 0.5 - from.0) * gx + (y - from.1) * gy) * inv
        } else {
            1.0
        };
        for px in x0..x1 {
            let tc = t.clamp(0.0, 1.0) as f32;
            for k in 0..4 {
                data[((py * w + px) * 4) as usize + k] = mix(c[0][k], c[1][k], tc);
            }
            t += gx * inv;
        }
    }
    data
}

#[test]
fn pictures_agree_with_the_machine() {
    let mut n = Numbers { state: 0xfeed_beef_1234_5679 };
    for round in 0..120 {
        let (w, h) = (1 + n.below(24) as i32, 1 + n.below(24) as i32);
        let mut coordinate = |size: i32| {
            let x = n.fraction() * (size as f64 + 8.0) - 4.0;
            if round % 3 == 0 {
                x.floor()
            } else {
                x
            }
        };
        let mut pts: Corners = [(0.0, 0.0); 4];
        for p in pts.iter_mut() {
            *p = (coordinate(w), coordinate(h));
        }
        let from = (coordinate(w), coordinate(h));
        let to = if round % 5 == 0 { from } else { (coordinate(w), coordinate(h)) };
        let colors = [[255, 0, 10, 255], [0, 200, 255, 17]];
        let expected = fill(w, h, &pts, from, to, colors);
        let grad = Gradient {
            from: point(from),
            to: point(to),
            c_start: colors[0],
            c_end: colors[1],
        };
        let mut data = vec![0x55u8; expected.len() + 3];
        let points = pts.map(point);
        assert!(fits_polygon(&points, h));
        fill_polygon_bgra(&mut data, w, h, &points, &grad);
        assert_eq!(data[..expected.len()], expected[..]);
        assert_eq!(data[expected.len()..], [0x55, 0x55, 0x55]);
    }
}

#[test]
fn boxes_agree_with_the_machine() {
    let mut n = Numbers { state: 0x0dd_ba11_cafe_f00d };
    for _ in 0..200 {
        let mut pts: Corners = [(0.0, 0.0); 4];
        for p in pts.iter_mut() {
            *p = (n.fraction() * 2000.0 - 1000.0, n.fraction() * 2000.0 - 1000.0);
        }
        let points = pts.map(point);
        assert!(fits_box(&points));
        let area = bounding_box(&points);
        let min = |k: fn(&(f64, f64)) -> f64| pts.iter().map(k).fold(f64::INFINITY, f64::min);
        let max = |k: fn(&(f64, f64)) -> f64| pts.iter().map(k).fold(f64::NEG_INFINITY, f64::max);
        let x = min(|p| p.0).floor() as i32 - 2;
        let y = min(|p| p.1).floor() as i32 - 2;
        assert_eq!(area.x, x);
        assert_eq!(area.y, y);
        assert_eq!(area.w, max(|p| p.0).ceil() as i32 - x + 2);
        assert_eq!(area.h, max(|p| p.1).ceil() as i32 - y + 2);
        let local = local_points(&points, area);
        for i in 0..4 {
            assert_eq!(local[i].x.bits, (pts[i].0 - x as f64).to_bits());
            assert_eq!(local[i].y.bits, (pts[i].1 - y as f64).to_bits());
        }
    }
}
