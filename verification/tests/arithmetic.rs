use jelly_cursor::double::Double;
use jelly_cursor::single::Single;

fn d(x: f64) -> Double {
    Double { bits: x.to_bits() }
}

fn f(x: Double) -> f64 {
    f64::from_bits(x.bits)
}

fn same(x: Double, y: f64) -> bool {
    (f(x).is_nan() && y.is_nan()) || x.bits == y.to_bits()
}

/// A small generator of bit patterns.
struct Patterns {
    state: u64,
}

impl Patterns {
    fn next(&mut self) -> u64 {
        self.state ^= self.state << 13;
        self.state ^= self.state >> 7;
        self.state ^= self.state << 17;
        self.state
    }

    /// A number whose exponent is near that of 1, so that sums and differences interact.
    fn moderate(&mut self) -> f64 {
        let bits = self.next();
        let exponent = 1023 - 60 + (self.next() % 120);
        f64::from_bits((bits & 0x800f_ffff_ffff_ffff) | (exponent << 52))
    }

    fn any(&mut self) -> f64 {
        f64::from_bits(self.next())
    }

    fn tiny(&mut self) -> f64 {
        f64::from_bits(self.next() & 0x803f_ffff_ffff_ffff)
    }
}

fn special() -> Vec<f64> {
    let mut v = vec![
        0.0,
        1.0,
        2.0,
        0.5,
        3.0,
        0.1,
        0.02,
        1e-9,
        26.0,
        6.0,
        1e9,
        2147483647.0,
        2147483648.0,
        4294967296.0,
        9007199254740992.0,
        9007199254740993.0,
        1e308,
        f64::MAX,
        f64::MIN_POSITIVE,
        f64::INFINITY,
        f64::NAN,
        f64::from_bits(1),
        f64::from_bits(0x000f_ffff_ffff_ffff),
        f64::from_bits(0x0010_0000_0000_0001),
    ];
    let n = v.len();
    for i in 0..n {
        v.push(-v[i]);
    }
    v
}

fn check_all(a: f64, b: f64) {
    assert!(same(d(a).add(d(b)), a + b), "{a:e} + {b:e}");
    assert!(same(d(a).sub(d(b)), a - b), "{a:e} - {b:e}");
    assert!(same(d(a).mul(d(b)), a * b), "{a:e} * {b:e}");
    assert!(same(d(a).div(d(b)), a / b), "{a:e} / {b:e}");
    assert_eq!(d(a).lt(d(b)), a < b, "{a:e} < {b:e}");
    assert_eq!(d(a).le(d(b)), a <= b, "{a:e} <= {b:e}");
}

fn check_one(a: f64) {
    assert_eq!(d(a).floor_i32(), a.floor() as i32, "floor {a:e}");
    assert_eq!(d(a).ceil_i32(), a.ceil() as i32, "ceil {a:e}");
    assert_eq!(d(a).abs().bits, a.abs().to_bits());
    assert_eq!(d(a).neg().bits, (-a).to_bits());
    assert_eq!(d(a).is_nan(), a.is_nan());
    let s = Single::from_double(d(a));
    let t = a as f32;
    assert!(
        s.bits == t.to_bits() || (t.is_nan() && f32::from_bits(s.bits).is_nan()),
        "single {a:e}"
    );
}

#[test]
fn arithmetic_agrees_on_special_numbers() {
    for &a in special().iter() {
        check_one(a);
        for &b in special().iter() {
            check_all(a, b);
        }
    }
}

#[test]
fn arithmetic_agrees_on_many_numbers() {
    let mut p = Patterns { state: 0x9e37_79b9_7f4a_7c15 };
    for _ in 0..40000 {
        let a = p.moderate();
        let b = p.moderate();
        check_all(a, b);
        check_one(a);
        let a = p.any();
        let b = p.any();
        check_all(a, b);
        check_one(a);
        let a = p.tiny();
        let b = p.tiny();
        check_all(a, b);
        check_all(a, p.moderate());
        check_all(p.any(), b);
    }
}

#[test]
fn integers_become_numbers() {
    for n in [0, 1, -1, 7, -2, 300, i32::MAX, i32::MIN, 123456789, -987654321] {
        assert_eq!(Double::from_i32(n).bits, (n as f64).to_bits());
        assert_eq!(Double::from_i32(n).floor_i32(), n);
        assert_eq!(Double::from_i32(n).ceil_i32(), n);
    }
}

#[test]
fn halfway_sums_go_to_the_even_neighbour() {
    // 2^53 + 1 lies between 2^53 and 2^53 + 2.
    let x = d(9007199254740992.0);
    assert_eq!(f(x.add(d(1.0))), 9007199254740992.0);
    assert_eq!(f(x.add(d(2.0)).add(d(1.0))), 9007199254740996.0);
}

#[test]
fn single_precision_agrees() {
    let mut p = Patterns { state: 0x2545_f491_4f6c_dd1d };
    for _ in 0..100000 {
        let a = f32::from_bits(p.next() as u32);
        let b = f32::from_bits(p.next() as u32);
        let x = Single { bits: a.to_bits() };
        let y = Single { bits: b.to_bits() };
        for (r, e) in [(x.add(y), a + b), (x.sub(y), a - b), (x.mul(y), a * b)] {
            assert!(r.bits == e.to_bits() || (e.is_nan() && f32::from_bits(r.bits).is_nan()));
        }
        assert_eq!(x.round_u8(), a.round() as u8);
    }
    for n in 0..=255u8 {
        assert_eq!(Single::from_u8(n).bits, (n as f32).to_bits());
        for k in 0..8u32 {
            let v = n as f32 + k as f32 / 8.0;
            assert_eq!(Single { bits: v.to_bits() }.round_u8(), v.round() as u8);
        }
    }
}
