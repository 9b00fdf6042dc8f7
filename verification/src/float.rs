//! Binary floating-point arithmetic of one of two precisions, as IEEE 754 defines it.
//!
//! A number is its sign and the bit pattern of its magnitude. The pattern of infinity follows the
//! largest finite pattern, and every larger pattern is not a number. The sum, the product and the
//! quotient of two finite numbers are the exact result, rounded to the nearest number of the
//! format.
use crate::rounding::{
    bit_length, doublings, encode, lemma_encode_closed, lemma_encode_cut, lemma_encode_equal,
    lemma_encode_shifted, lemma_nearest_exact, lemma_nearest_sticky, lemma_pattern_parts,
    lemma_units_order, nearest, power_of_two, round_magnitude, scaled_den, scaled_num, significand,
    units,
};
use vstd::arithmetic::div_mod::{lemma_fundamental_div_mod, lemma_fundamental_div_mod_converse};
use vstd::arithmetic::power2::{
    lemma2_to64, lemma2_to64_rest, lemma_pow2_adds, lemma_pow2_pos, lemma_pow2_strictly_increases,
    lemma_pow2_unfold, pow2,
};
use vstd::prelude::*;

verus! {

/// The precision of the wide format, in binary digits.
pub const WIDE: u32 = 53;

/// The precision of the narrow format, in binary digits.
pub const NARROW: u32 = 24;

/// The bit pattern of infinity in the wide format.
pub const WIDE_INFINITY: u64 = 0x7ff0_0000_0000_0000;

/// The bit pattern of infinity in the narrow format.
pub const NARROW_INFINITY: u64 = 0x7f80_0000;

/// A floating-point number: its sign and the bit pattern of its magnitude.
#[derive(Clone, Copy, PartialEq, Eq, Structural, Debug)]
pub struct Binary {
    pub negative: bool,
    pub magnitude: u64,
}

/// The precisions of the two formats.
pub open spec fn is_format(p: u32) -> bool {
    p == WIDE || p == NARROW
}

/// The least positive number of the format is `2^-unit_exponent`.
pub open spec fn unit_exponent(p: u32) -> nat {
    if p == WIDE {
        1074
    } else {
        149
    }
}

pub open spec fn infinity(p: u32) -> u64 {
    if p == WIDE {
        WIDE_INFINITY
    } else {
        NARROW_INFINITY
    }
}

/// The number that stands for every result that is not a number.
pub open spec fn not_a_number(p: u32) -> Binary {
    Binary {
        negative: false,
        magnitude: if p == WIDE {
            0x7ff8_0000_0000_0000
        } else {
            0x7fc0_0000
        },
    }
}

impl Binary {
    pub open spec fn is_nan(self, p: u32) -> bool {
        self.magnitude > infinity(p)
    }

    pub open spec fn is_infinite(self, p: u32) -> bool {
        self.magnitude == infinity(p)
    }

    pub open spec fn is_finite(self, p: u32) -> bool {
        self.magnitude < infinity(p)
    }

    /// The magnitude of a finite number, in units of the format.
    pub open spec fn units(self, p: u32) -> nat {
        units(self.magnitude as nat, p as nat)
    }

    /// A finite number, in units of the format.
    pub open spec fn value(self, p: u32) -> int {
        if self.negative {
            -(self.units(p) as int)
        } else {
            self.units(p) as int
        }
    }
}

/// The number of the format nearest to `n / d` units, with the given sign. What lies beyond the
/// largest finite number becomes infinity.
pub open spec fn rounded(negative: bool, n: nat, d: nat, p: u32) -> Binary {
    let b = encode(n, d, p as nat);
    Binary { negative, magnitude: if b < infinity(p) { b as u64 } else { infinity(p) } }
}

/// The sum of two numbers.
pub open spec fn sum(a: Binary, b: Binary, p: u32) -> Binary {
    if a.is_nan(p) || b.is_nan(p) {
        not_a_number(p)
    } else if a.is_infinite(p) {
        if b.is_infinite(p) && a.negative != b.negative {
            not_a_number(p)
        } else {
            a
        }
    } else if b.is_infinite(p) {
        b
    } else {
        let s = a.value(p) + b.value(p);
        if s == 0 {
            Binary { negative: a.negative && b.negative, magnitude: 0 }
        } else if s < 0 {
            rounded(true, (-s) as nat, 1, p)
        } else {
            rounded(false, s as nat, 1, p)
        }
    }
}

/// The product of two numbers.
pub open spec fn product(a: Binary, b: Binary, p: u32) -> Binary {
    let negative = a.negative != b.negative;
    if a.is_nan(p) || b.is_nan(p) {
        not_a_number(p)
    } else if a.is_infinite(p) || b.is_infinite(p) {
        if a.magnitude == 0 || b.magnitude == 0 {
            not_a_number(p)
        } else {
            Binary { negative, magnitude: infinity(p) }
        }
    } else {
        rounded(negative, a.units(p) * b.units(p), pow2(unit_exponent(p)), p)
    }
}

/// The quotient of two numbers.
pub open spec fn quotient(a: Binary, b: Binary, p: u32) -> Binary {
    let negative = a.negative != b.negative;
    if a.is_nan(p) || b.is_nan(p) {
        not_a_number(p)
    } else if a.is_infinite(p) {
        if b.is_infinite(p) {
            not_a_number(p)
        } else {
            Binary { negative, magnitude: infinity(p) }
        }
    } else if b.is_infinite(p) {
        Binary { negative, magnitude: 0 }
    } else if b.magnitude == 0 {
        if a.magnitude == 0 {
            not_a_number(p)
        } else {
            Binary { negative, magnitude: infinity(p) }
        }
    } else {
        rounded(negative, a.units(p) * pow2(unit_exponent(p)), b.units(p), p)
    }
}

proof fn lemma_nearest_near(q: nat, d: nat, s: nat)
    requires
        2 * s < d,
    ensures
        nearest(q * d + s, d) == q,
        q > 0 ==> q * d - s >= 0 && nearest((q * d - s) as nat, d) == q,
{
    lemma_fundamental_div_mod_converse((q * d + s) as int, d as int, q as int, s as int);
    if q > 0 {
        assert(q * d - s == (q - 1) * d + (d - s) && q * d >= d) by (nonlinear_arith)
            requires
                q > 0,
        ;
        if s == 0 {
            lemma_fundamental_div_mod_converse((q * d) as int, d as int, q as int, 0);
        } else {
            lemma_fundamental_div_mod_converse(
                (q * d - s) as int,
                d as int,
                (q - 1) as int,
                (d - s) as int,
            );
        }
    }
}

/// A number stays what it is when something less than a quarter of its spacing is added to it or
/// taken away from it.
proof fn lemma_absorbed(b: nat, s: nat, p: nat)
    requires
        p > 1,
        doublings(b, p) > 0,
        4 * s < pow2(doublings(b, p)),
    ensures
        encode(units(b, p) + s, 1, p) == b,
        s <= units(b, p),
        encode((units(b, p) - s) as nat, 1, p) == b,
{
    let k = doublings(b, p);
    let m = significand(b, p);
    let h = pow2((p - 1) as nat);
    let u = pow2(k);
    lemma_pattern_parts(b, p);
    lemma_pow2_pos(k);
    lemma_pow2_pos((p - 1) as nat);
    lemma_pow2_unfold(p);
    lemma_pow2_adds(p, k);
    lemma_pow2_adds((p - 1) as nat, k);
    assert((p - 1) as nat + k == (p + k - 1) as nat);
    assert(1 * pow2(k) == pow2(k) && 1 * pow2(p + k) == pow2(p + k));
    assert(m * u + u <= pow2(p) * u && m * u >= h * u) by (nonlinear_arith)
        requires
            m < pow2(p),
            m >= h,
            u > 0,
    ;
    lemma_nearest_near(m, u, s);
    lemma_encode_closed(m * u + s, 1, p, k);
    if m > h {
        assert(m * u >= h * u + u) by (nonlinear_arith)
            requires
                m > h,
                u > 0,
        ;
        lemma_encode_closed((m * u - s) as nat, 1, p, k);
    } else if s == 0 {
        lemma_encode_closed(m * u, 1, p, k);
    } else {
        let l = pow2((k - 1) as nat);
        lemma_pow2_unfold(k);
        assert(m * u == pow2(p) * l && pow2(p) * l == 2 * (h * l) && h * l >= l)
            by (nonlinear_arith)
            requires
                m == h,
                u == 2 * l,
                pow2(p) == 2 * h,
                h >= 1,
        ;
        lemma_nearest_near(pow2(p), l, s);
        lemma_pow2_adds(p, (k - 1) as nat);
        assert(p + (k - 1) as nat == (p + k - 1) as nat);
        if k > 1 {
            lemma_pow2_adds((p - 1) as nat, (k - 1) as nat);
            assert((p - 1) as nat + (k - 1) as nat == (p + k - 2) as nat);
        }
        assert(1 * pow2((k - 1) as nat) == l);
        lemma_encode_closed((m * u - s) as nat, 1, p, (k - 1) as nat);
        assert((k - 1) * h + 2 * h == k * h + h) by (nonlinear_arith);
    }
}

/// What the significand and the doublings of a finite number can be.
pub proof fn lemma_format_bounds(b: u64, p: u32)
    requires
        is_format(p),
        b < infinity(p),
    ensures
        doublings(b as nat, p as nat) <= (if p == WIDE { 2045nat } else { 253nat }),
        significand(b as nat, p as nat) < pow2(53),
        significand(b as nat, p as nat) < pow2(p as nat),
        doublings(b as nat, p as nat) == 0 || significand(b as nat, p as nat) >= pow2(
            (p - 1) as nat,
        ),
{
    lemma_pattern_parts(b as nat, p as nat);
    lemma2_to64();
    lemma2_to64_rest();
    let k = doublings(b as nat, p as nat);
    let h = pow2((p - 1) as nat);
    let most: nat = if p == WIDE { 2045 } else { 253 };
    if k > most {
        assert(k * h >= (most + 1) * h) by (nonlinear_arith)
            requires
                k >= most + 1,
                h > 0,
        ;
    }
    if p == NARROW {
        lemma_pow2_strictly_increases(24, 53);
    }
}

/// The significand of a bit pattern, and how often the spacing has doubled there.
pub(crate) fn parts(b: u64, p: u32) -> (r: (u64, u32))
    requires
        is_format(p),
        b < infinity(p),
    ensures
        r.0 == significand(b as nat, p as nat),
        r.1 == doublings(b as nat, p as nat),
        r.0 < pow2(p as nat),
        r.0 < pow2(53),
        r.1 <= (if p == WIDE { 2045nat } else { 253nat }),
{
    proof {
        lemma_format_bounds(b, p);
        lemma_pattern_parts(b as nat, p as nat);
        lemma2_to64();
        lemma2_to64_rest();
    }
    let h: u64 = power_of_two(p - 1) as u64;
    let e: u64 = b / h;
    if e == 0 {
        assert(0 * h == 0);
        (b, 0)
    } else {
        (b - (e - 1) * h, (e - 1) as u32)
    }
}

/// The bit pattern of infinity.
fn infinity_pattern(p: u32) -> (r: u64)
    ensures
        r == infinity(p),
{
    if p == WIDE {
        WIDE_INFINITY
    } else {
        NARROW_INFINITY
    }
}

fn nan(p: u32) -> (r: Binary)
    ensures
        r == not_a_number(p),
{
    if p == WIDE {
        Binary { negative: false, magnitude: 0x7ff8_0000_0000_0000 }
    } else {
        Binary { negative: false, magnitude: 0x7fc0_0000 }
    }
}

fn exponent_of_unit(p: u32) -> (r: i32)
    ensures
        r == unit_exponent(p),
{
    if p == WIDE {
        1074
    } else {
        149
    }
}

/// The number of the format nearest to `sig * 2^exp` units.
pub fn round_scaled(negative: bool, sig: u128, exp: i32, p: u32) -> (r: Binary)
    requires
        is_format(p),
        sig < pow2(126),
        -3900 <= exp <= 3900,
    ensures
        r == rounded(
            negative,
            scaled_num(sig as nat, exp as int),
            scaled_den(exp as int),
            p,
        ),
{
    let b = round_magnitude(sig, exp, p);
    let top = infinity_pattern(p);
    Binary {
        negative,
        magnitude: if b < top {
            b
        } else {
            top
        },
    }
}

/// The magnitude of `a` plus or minus the magnitude of `b`, where `a` has at least as many
/// doublings, rounded, and with the sign of the larger one.
fn combine(a: Binary, b: Binary, p: u32) -> (r: Binary)
    requires
        is_format(p),
        a.is_finite(p),
        b.is_finite(p),
        doublings(a.magnitude as nat, p as nat) >= doublings(b.magnitude as nat, p as nat),
    ensures
        r == sum(a, b, p),
{
    let (ma, ka) = parts(a.magnitude, p);
    let (mb, kb) = parts(b.magnitude, p);
    let gap: u32 = ka - kb;
    proof {
        lemma_pow2_pos(ka as nat);
        lemma_pow2_pos(kb as nat);
        lemma2_to64();
        lemma2_to64_rest();
    }
    if gap > 64 {
        proof {
            // The smaller number lies below a quarter of the spacing at the larger one.
            let s = b.units(p);
            lemma_pow2_adds(53, kb as nat);
            assert(s < pow2(53) * pow2(kb as nat)) by (nonlinear_arith)
                requires
                    s == mb * pow2(kb as nat),
                    mb < pow2(53),
                    pow2(kb as nat) > 0,
            ;
            lemma_pow2_adds(2, 53 + kb as nat);
            lemma_pow2_strictly_increases(2 + (53 + kb as nat), ka as nat);
            lemma_absorbed(a.magnitude as nat, s, p as nat);
            lemma_format_bounds(a.magnitude, p);
            lemma_pow2_pos((p - 1) as nat);
            assert(a.units(p) >= pow2(ka as nat)) by (nonlinear_arith)
                requires
                    a.units(p) == ma * pow2(ka as nat),
                    ma >= 1,
                    pow2(ka as nat) > 0,
            ;
        }
        a
    } else {
        let w = power_of_two(gap);
        proof {
            lemma_pow2_adds(gap as nat, kb as nat);
            lemma_pow2_adds(53, 64);
            lemma_pow2_strictly_increases(117, 118);
            lemma_pow2_strictly_increases(118, 126);
            lemma_pow2_unfold(118);
            if gap < 64 {
                lemma_pow2_strictly_increases(gap as nat, 64);
            }
            assert(ma * w <= pow2(53) * pow2(64)) by (nonlinear_arith)
                requires
                    ma < pow2(53),
                    w <= pow2(64),
            ;
            lemma_pow2_strictly_increases(53, 117);
        }
        let wide_a: u128 = ma as u128 * w;
        let wide_b: u128 = mb as u128;
        proof {
            let u = pow2(kb as nat);
            assert(a.units(p) == wide_a * u && b.units(p) == wide_b * u) by (nonlinear_arith)
                requires
                    a.units(p) == ma * pow2(ka as nat),
                    pow2(ka as nat) == w * u,
                    wide_a == ma * w,
                    b.units(p) == mb * u,
                    wide_b == mb,
            ;
            assert((wide_a + wide_b) * u == a.units(p) + b.units(p) && (wide_a - wide_b) * u
                == a.units(p) - b.units(p) && (wide_b - wide_a) * u == b.units(p) - a.units(p))
                by (nonlinear_arith)
                requires
                    a.units(p) == wide_a * u,
                    b.units(p) == wide_b * u,
            ;
            assert((wide_a > wide_b <==> a.units(p) > b.units(p)) && (wide_a < wide_b
                <==> a.units(p) < b.units(p)) && (wide_a + wide_b == 0 <==> a.units(p) + b.units(p)
                == 0)) by (nonlinear_arith)
                requires
                    a.units(p) == wide_a * u,
                    b.units(p) == wide_b * u,
                    u > 0,
                    wide_a >= 0,
                    wide_b >= 0,
            ;
        }
        if a.negative == b.negative {
            let s: u128 = wide_a + wide_b;
            if s == 0 {
                Binary { negative: a.negative, magnitude: 0 }
            } else {
                round_scaled(a.negative, s, kb as i32, p)
            }
        } else if wide_a > wide_b {
            round_scaled(a.negative, wide_a - wide_b, kb as i32, p)
        } else if wide_a < wide_b {
            round_scaled(b.negative, wide_b - wide_a, kb as i32, p)
        } else {
            Binary { negative: false, magnitude: 0 }
        }
    }
}

/// The sum of two numbers.
pub fn add_rounded(a: Binary, b: Binary, p: u32) -> (r: Binary)
    requires
        is_format(p),
    ensures
        r == sum(a, b, p),
{
    let top = infinity_pattern(p);
    if a.magnitude > top || b.magnitude > top {
        nan(p)
    } else if a.magnitude == top {
        if b.magnitude == top && a.negative != b.negative {
            nan(p)
        } else {
            a
        }
    } else if b.magnitude == top {
        b
    } else {
        let (_, ka) = parts(a.magnitude, p);
        let (_, kb) = parts(b.magnitude, p);
        if ka >= kb {
            combine(a, b, p)
        } else {
            combine(b, a, p)
        }
    }
}

/// The product of two numbers.
pub fn multiply_rounded(a: Binary, b: Binary, p: u32) -> (r: Binary)
    requires
        is_format(p),
    ensures
        r == product(a, b, p),
{
    let top = infinity_pattern(p);
    let negative = a.negative != b.negative;
    if a.magnitude > top || b.magnitude > top {
        nan(p)
    } else if a.magnitude == top || b.magnitude == top {
        if a.magnitude == 0 || b.magnitude == 0 {
            nan(p)
        } else {
            Binary { negative, magnitude: top }
        }
    } else {
        let (ma, ka) = parts(a.magnitude, p);
        let (mb, kb) = parts(b.magnitude, p);
        let unit = exponent_of_unit(p);
        proof {
            lemma_pow2_adds(53, 53);
            lemma_pow2_strictly_increases(106, 126);
            lemma2_to64_rest();
            assert(ma * mb < pow2(53) * pow2(53)) by (nonlinear_arith)
                requires
                    ma < pow2(53),
                    mb < pow2(53),
                    pow2(53) > 0,
            ;
            lemma_pow2_adds(ka as nat, kb as nat);
            assert(a.units(p) * b.units(p) == (ma * mb) * pow2((ka + kb) as nat))
                by (nonlinear_arith)
                requires
                    a.units(p) == ma * pow2(ka as nat),
                    b.units(p) == mb * pow2(kb as nat),
                    pow2((ka + kb) as nat) == pow2(ka as nat) * pow2(kb as nat),
            ;
            lemma_encode_shifted(
                (ma * mb) as nat,
                (ka + kb) as nat,
                unit_exponent(p),
                p as nat,
            );
        }
        round_scaled(negative, ma as u128 * mb as u128, (ka + kb) as i32 - unit, p)
    }
}

/// A significand with its highest digit moved to a fixed place, and by how many places it moved.
fn normalized(m: u64) -> (r: (u64, u32))
    requires
        0 < m < pow2(53),
    ensures
        pow2(52) <= r.0 < pow2(53),
        r.1 <= 52,
        r.0 == m * pow2(r.1 as nat),
{
    let len = bit_length(m as u128);
    proof {
        if len > 53 {
            lemma_pow2_strictly_increases(53, len as nat);
            if len > 54 {
                lemma_pow2_strictly_increases(53, (len - 1) as nat);
            }
        }
        let s = (53 - len) as nat;
        lemma_pow2_pos(s);
        lemma_pow2_adds(len as nat, s);
        lemma_pow2_adds((len - 1) as nat, s);
        lemma2_to64_rest();
        assert(pow2((len - 1) as nat) * pow2(s) <= m * pow2(s) < pow2(len as nat) * pow2(s))
            by (nonlinear_arith)
            requires
                pow2((len - 1) as nat) <= m < pow2(len as nat),
                pow2(s) > 0,
        ;
    }
    let w = power_of_two(53 - len);
    ((m as u128 * w) as u64, 53 - len)
}

/// The quotient of two finite numbers other than zero.
fn divide_finite(negative: bool, a: u64, b: u64, p: u32) -> (r: Binary)
    requires
        is_format(p),
        0 < a < infinity(p),
        0 < b < infinity(p),
    ensures
        r == rounded(
            negative,
            units(a as nat, p as nat) * pow2(unit_exponent(p)),
            units(b as nat, p as nat),
            p,
        ),
{
    let (ma, ka) = parts(a, p);
    let (mb, kb) = parts(b, p);
    proof {
        lemma_format_bounds(a, p);
        lemma_format_bounds(b, p);
        lemma_pattern_parts(a as nat, p as nat);
        lemma_pattern_parts(b as nat, p as nat);
        lemma_pow2_pos((p - 1) as nat);
        if ka == 0 {
            assert(0 * pow2((p - 1) as nat) == 0);
        }
        if kb == 0 {
            assert(0 * pow2((p - 1) as nat) == 0);
        }
        lemma2_to64_rest();
    }
    let (na, sa) = normalized(ma);
    let (nb, sb) = normalized(mb);
    let unit = exponent_of_unit(p);
    let n: u128 = na as u128 * 0x1000_0000_0000_0000;
    let q: u128 = n / nb as u128;
    let sticky: u128 = if n % nb as u128 == 0 {
        0
    } else {
        1
    };
    let exp: i32 = ka as i32 + unit - sa as i32 - 60 - (kb as i32 - sb as i32);
    proof {
        lemma_fundamental_div_mod(n as int, nb as int);
        assert(q >= 0x0800_0000_0000_0000 && q < 0x2000_0000_0000_0000) by (nonlinear_arith)
            requires
                n == nb * q + n as int % nb as int,
                0 <= n as int % nb as int,
                n as int % nb as int <= nb - 1,
                n == na * 0x1000_0000_0000_0000,
                na >= 0x10_0000_0000_0000,
                na < 0x20_0000_0000_0000,
                nb >= 0x10_0000_0000_0000,
                nb < 0x20_0000_0000_0000,
        ;
        lemma_pow2_strictly_increases(64, 126);
        lemma_quotient(
            a as nat,
            b as nat,
            p,
            sa as nat,
            sb as nat,
            na as nat,
            nb as nat,
            n as nat,
            q as nat,
            exp as int,
        );
    }
    round_scaled(negative, 2 * q + sticky, exp - 1, p)
}

proof fn lemma_regroup_five(a: nat, x: nat, y: nat, b: nat, z: nat)
    ensures
        (a * x * y) * (b * z) == (a * b) * (x * y * z),
        (a * x * y) * (b * z) == (a * b) * (y * x * z),
{
    assert((a * x * y) * (b * z) == (a * b) * (x * y * z)) by (nonlinear_arith);
    assert(x * y == y * x) by (nonlinear_arith);
}

proof fn lemma_regroup_six(a: nat, x: nat, y: nat, z: nat, b: nat, w: nat)
    ensures
        (a * x * y * z) * (b * w) == (a * b) * (x * y * z * w),
        (a * x * y * z) * (b * w) == (a * b) * (z * y * x * w),
{
    let t = x * y * z;
    assert(a * x * y * z == a * t) by (nonlinear_arith)
        requires
            t == x * y * z,
    ;
    assert((a * t) * (b * w) == (a * b) * (t * w)) by (nonlinear_arith);
    assert(x * y * z == z * y * x) by (nonlinear_arith);
}

proof fn lemma_move_factor(a: nat, b: nat, x: nat, y: nat)
    ensures
        a * ((b * x) * y) == (a * x) * (b * y),
{
    assert(a * ((b * x) * y) == (a * x) * (b * y)) by (nonlinear_arith);
}

/// Rounding a quotient needs only its first digits, and whether any other digit is set.
proof fn lemma_quotient(
    a: nat,
    b: nat,
    p: u32,
    sa: nat,
    sb: nat,
    na: nat,
    nb: nat,
    n: nat,
    q: nat,
    exp: int,
)
    requires
        is_format(p),
        na == significand(a, p as nat) * pow2(sa),
        nb == significand(b, p as nat) * pow2(sb),
        nb > 0,
        n == na * pow2(60),
        q == n / nb,
        0x0800_0000_0000_0000 <= q < 0x2000_0000_0000_0000,
        exp == doublings(a, p as nat) + unit_exponent(p) - sa - 60 - (doublings(b, p as nat) - sb),
    ensures
        ({
            let sig = 2 * q + (if n % nb == 0 { 0nat } else { 1nat });
            encode(units(a, p as nat) * pow2(unit_exponent(p)), units(b, p as nat), p as nat)
                == encode(scaled_num(sig, exp - 1), scaled_den(exp - 1), p as nat)
        }),
{
    let ka = doublings(a, p as nat);
    let kb = doublings(b, p as nat);
    let ma = significand(a, p as nat);
    let mb = significand(b, p as nat);
    let unit = unit_exponent(p);
    let sig = 2 * q + (if n % nb == 0 { 0nat } else { 1nat });
    lemma2_to64_rest();
    // The number of digits of the quotient before the point.
    let len: nat = if q < 0x1000_0000_0000_0000 { 60 } else { 61 };
    lemma_fundamental_div_mod(n as int, nb as int);
    assert(nb * pow2((len - 1) as nat) <= n && n < nb * pow2(len)) by (nonlinear_arith)
        requires
            n == nb * q + n % nb,
            0 <= n % nb,
            n % nb < nb,
            pow2((len - 1) as nat) <= q,
            q + 1 <= pow2(len),
    ;
    let k: nat = if len + exp > p { (len + exp - p) as nat } else { 0 };
    let t = (k - exp) as nat;
    assert(k - exp >= 7);
    lemma_encode_cut(n, nb, len, exp, p as nat, k, t);
    assert(1 * pow2(len) == pow2(len) && 1 * pow2(len + 1) == pow2(len + 1));
    lemma_encode_cut(sig, 1, len + 1, exp - 1, p as nat, k, t + 1);
    assert(1 * scaled_den(exp - 1) == scaled_den(exp - 1));
    assert(1 * pow2(t + 1) == pow2(t + 1));
    lemma_nearest_sticky(n, nb, t);
    // The scaled quotient is the quotient of the two numbers.
    let num = scaled_num(n, exp);
    let den = nb * scaled_den(exp);
    lemma_pow2_pos(sb);
    lemma_pow2_pos(kb);
    lemma_pow2_pos(sa);
    assert(mb > 0) by (nonlinear_arith)
        requires
            nb == mb * pow2(sb),
            nb > 0,
    ;
    if exp >= 0 {
        let e = exp as nat;
        // exp + 60 + sa + kb == ka + unit + sb
        lemma_pow2_adds(e, 60);
        lemma_pow2_adds(e + 60, sa);
        lemma_pow2_adds(e + 60 + sa, kb);
        lemma_pow2_adds(ka, unit);
        lemma_pow2_adds(ka + unit, sb);
        assert(e + 60 + sa + kb == ka + unit + sb);
        lemma_regroup_five(ma, pow2(ka), pow2(unit), mb, pow2(sb));
        lemma_regroup_six(ma, pow2(sa), pow2(60), pow2(e), mb, pow2(kb));
        assert(nb * 1 == nb);
    } else {
        let e = (-exp) as nat;
        lemma_pow2_pos(e);
        lemma_pow2_adds(60, sa);
        lemma_pow2_adds(60 + sa, kb);
        lemma_pow2_adds(ka, unit);
        lemma_pow2_adds(ka + unit, sb);
        lemma_pow2_adds(ka + unit + sb, e);
        assert(60 + sa + kb == ka + unit + sb + e);
        lemma_regroup_six(ma, pow2(ka), pow2(unit), pow2(sb), mb, pow2(e));
        lemma_regroup_five(ma, pow2(sa), pow2(60), mb, pow2(kb));
        assert((ma * pow2(ka) * pow2(unit)) * ((mb * pow2(sb)) * pow2(e)) == (ma * pow2(ka) * pow2(
            unit,
        ) * pow2(sb)) * (mb * pow2(e))) by {
            lemma_move_factor(ma * pow2(ka) * pow2(unit), mb, pow2(sb), pow2(e));
        }
        assert(nb * pow2(e) > 0) by (nonlinear_arith)
            requires
                nb > 0,
                pow2(e) > 0,
        ;
    }
    assert(mb * pow2(kb) > 0) by (nonlinear_arith)
        requires
            mb > 0,
            pow2(kb) > 0,
    ;
    lemma_encode_equal(ma * pow2(ka) * pow2(unit), mb * pow2(kb), num, den, p as nat);
}

/// The quotient of two numbers.
pub fn divide_rounded(a: Binary, b: Binary, p: u32) -> (r: Binary)
    requires
        is_format(p),
    ensures
        r == quotient(a, b, p),
{
    let top = infinity_pattern(p);
    let negative = a.negative != b.negative;
    if a.magnitude > top || b.magnitude > top {
        nan(p)
    } else if a.magnitude == top {
        if b.magnitude == top {
            nan(p)
        } else {
            Binary { negative, magnitude: top }
        }
    } else if b.magnitude == top {
        Binary { negative, magnitude: 0 }
    } else if b.magnitude == 0 {
        if a.magnitude == 0 {
            nan(p)
        } else {
            Binary { negative, magnitude: top }
        }
    } else if a.magnitude == 0 {
        proof {
            lemma_zero_units(p);
            let d = b.units(p);
            lemma_units_positive(b.magnitude, p);
            lemma_pow2_pos(p as nat);
            assert(0 * pow2(unit_exponent(p)) == 0);
            assert(0 < d * pow2(p as nat)) by (nonlinear_arith)
                requires
                    d > 0,
                    pow2(p as nat) > 0,
            ;
            assert(0 * d == 0);
            lemma_nearest_exact(0, d);
        }
        Binary { negative, magnitude: 0 }
    } else {
        divide_finite(negative, a.magnitude, b.magnitude, p)
    }
}

/// The pattern zero is the number zero.
pub proof fn lemma_zero_units(p: u32)
    requires
        p > 0,
    ensures
        units(0, p as nat) == 0,
{
    lemma_pattern_parts(0, p as nat);
    lemma_pow2_pos((p - 1) as nat);
    lemma_fundamental_div_mod_converse(0, pow2((p - 1) as nat) as int, 0, 0);
    lemma2_to64();
}

/// Every other pattern is more than zero.
pub proof fn lemma_units_positive(b: u64, p: u32)
    requires
        p > 0,
        b > 0,
    ensures
        units(b as nat, p as nat) > 0,
{
    lemma_zero_units(p);
    lemma_units_order(0, b as nat, p as nat);
}

} // verus!
