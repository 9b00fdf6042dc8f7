//! The arithmetic is that of IEEE 754: each result is the number of the format that is nearest to
//! the exact one.
use crate::accuracy::{absolute, exact, lemma_real_product};
use crate::approx::lemma_exact_negated;
use crate::coverage::lemma_order_of_exact;
use crate::double::Double;
use crate::exact::lemma_negated;
use crate::float::{
    infinity, is_format, lemma_units_positive, lemma_zero_units, product, rounded, sum,
    unit_exponent, Binary, NARROW, WIDE,
};
use crate::rounding::{
    distance, encode, lemma_encode_closed, lemma_encode_exact, lemma_encode_is_nearest,
    lemma_encode_monotone_same, lemma_encode_scaled, lemma_encode_ties, lemma_nearest_scaled,
    lemma_units_of_parts, lemma_units_order, nearest, units,
};
use crate::single::{lemma_byte, Single};
use vstd::arithmetic::div_mod::{lemma_div_pos_is_pos, lemma_fundamental_div_mod};
use vstd::arithmetic::power2::{
    lemma2_to64, lemma2_to64_rest, lemma_pow2_adds, lemma_pow2_pos, lemma_pow2_unfold, pow2,
};
use vstd::prelude::*;

verus! {

/// The exact value of a finite number.
pub open spec fn exact_of(b: Binary, p: u32) -> real {
    b.value(p) as real / pow2(unit_exponent(p)) as real
}

/// No number of the format is nearer to `s`. Of two that are as near it is the one whose last digit
/// is zero.
pub open spec fn is_nearest(r: Binary, s: real, p: u32) -> bool {
    forall|c: Binary| #[trigger]
        c.is_finite(p) ==> {
            let (d, e) = (absolute(exact_of(r, p) - s), absolute(exact_of(c, p) - s));
            d < e || d == e && (exact_of(c, p) == exact_of(r, p) || r.magnitude % 2 == 0)
        }
}

/// How often the spacing has doubled at the largest number of the format.
spec fn most_doublings(p: u32) -> nat {
    if p == WIDE {
        2045
    } else {
        253
    }
}

/// The least magnitude that is too large for the format, in units.
spec fn limit_units(p: u32) -> nat {
    ((pow2((p + 1) as nat) - 1) * pow2((most_doublings(p) - 1) as nat)) as nat
}

/// The least magnitude that is too large for the format.
pub open spec fn limit(p: u32) -> real {
    if p == WIDE {
        ((pow2(54) - 1) * pow2(970)) as real
    } else {
        ((pow2(25) - 1) * pow2(103)) as real
    }
}

/// The number is `s`, rounded: the nearest number, or infinity if `s` is too large.
pub open spec fn is_rounded(r: Binary, s: real, p: u32) -> bool {
    &&& !r.is_nan(p)
    &&& r.is_finite(p) <==> absolute(s) < limit(p)
    &&& r.is_finite(p) ==> is_nearest(r, s, p)
    &&& r.is_infinite(p) ==> (r.negative <==> s < 0real)
}

/// What is too large becomes infinity, and nothing else does.
proof fn lemma_overflow(n: nat, d: nat, p: u32)
    requires
        is_format(p),
        d > 0,
    ensures
        encode(n, d, p as nat) < infinity(p) <==> n < limit_units(p) * d,
{
    let q = p as nat;
    let k = most_doublings(p);
    let h = pow2((q - 1) as nat);
    let l = pow2((k - 1) as nat);
    let u = pow2(k);
    let top = infinity(p) as nat;
    let m = limit_units(p);
    lemma2_to64();
    lemma2_to64_rest();
    lemma_pow2_pos((q - 1) as nat);
    lemma_pow2_pos((k - 1) as nat);
    lemma_pow2_unfold(k);
    lemma_pow2_unfold(q);
    lemma_pow2_unfold(q + 1);
    assert(top == k * h + 2 * h) by (nonlinear_arith)
        requires
            p == WIDE && k == 2045 && h == 0x10_0000_0000_0000 && top == 0x7ff0_0000_0000_0000 || p
                == NARROW && k == 253 && h == 0x80_0000 && top == 0x7f80_0000,
    ;
    // The pattern of infinity, and the one before it.
    lemma_units_of_parts(2 * h, k, q);
    lemma_units_of_parts((2 * h - 1) as nat, k, q);
    let below = (top - 1) as nat;
    assert(below == k * h + (2 * h - 1));
    let (a, b) = (units(below, q), units(top, q));
    assert(a == (4 * h - 2) * l && b == (4 * h) * l && m == (4 * h - 1) * l) by (nonlinear_arith)
        requires
            a == (2 * h - 1) * u,
            b == (2 * h) * u,
            u == 2 * l,
            m == (4 * h - 1) * l,
    ;
    assert(a + l == m && m + l == b) by (nonlinear_arith)
        requires
            a == (4 * h - 2) * l,
            b == (4 * h) * l,
            m == (4 * h - 1) * l,
    ;
    if n < m * d {
        let r = encode(n, d, q);
        if r >= top {
            lemma_encode_is_nearest(n, d, q, below);
            if r > top {
                lemma_units_order(top, r, q);
            }
            assert(units(r, q) * d >= b * d && b * d == m * d + l * d && m * d == a * d + l * d
                && l * d > 0) by (nonlinear_arith)
                requires
                    units(r, q) >= b,
                    b == m + l,
                    m == a + l,
                    l > 0,
                    d > 0,
            ;
        }
    } else {
        lemma_encode_monotone_same(m * d, n, d, q);
        lemma_encode_scaled(m, 1, d, q);
        assert(1 * d == d);
        lemma_pow2_adds(q, k);
        lemma_pow2_adds((q - 1) as nat, k);
        assert((q - 1) as nat + k == (q + k - 1) as nat);
        assert(m < 1 * pow2(q + k) && m >= 1 * pow2((q + k - 1) as nat)) by (nonlinear_arith)
            requires
                m == (4 * h - 1) * l,
                pow2(q + k) == pow2(q) * u,
                pow2((q + k - 1) as nat) == h * u,
                pow2(q) == 2 * h,
                u == 2 * l,
                h >= 1,
                l >= 1,
        ;
        lemma_encode_closed(m, 1, q, k);
        assert(1 * u == u);
        lemma_nearest_scaled((4 * h - 1) as nat, 2, l);
        assert(u == 2 * l);
        assert((4 * h - 1) as nat / 2 == 2 * h - 1 && (4 * h - 1) as nat % 2 == 1);
        assert((2 * h - 1) % 2 == 1);
        assert(nearest((4 * h - 1) as nat, 2) == 2 * h);
    }
}

/// The limit in units.
proof fn lemma_limit(p: u32)
    requires
        is_format(p),
    ensures
        limit_units(p) as real == limit(p) * pow2(unit_exponent(p)) as real,
        limit(p) > 0real,
{
    let (a, b): (nat, nat) = if p == WIDE {
        (54, 970)
    } else {
        (25, 103)
    };
    let w = pow2(unit_exponent(p));
    lemma2_to64();
    lemma2_to64_rest();
    lemma_pow2_pos(b);
    lemma_pow2_adds(b, unit_exponent(p));
    let m = (pow2(a) - 1) * pow2(b);
    assert((pow2(a) - 1) * (pow2(b) * w) == m * w && m > 0) by (nonlinear_arith)
        requires
            m == (pow2(a) - 1) * pow2(b),
            pow2(a) > 1,
            pow2(b) > 0,
    ;
    lemma_real_product(m, w as int);
}

/// Fractions with the same denominator.
proof fn lemma_quotients(a: real, b: real, d: real, w: real)
    requires
        d > 0real,
        w > 0real,
    ensures
        d * w > 0real,
        (a / w - b / (d * w)) * (d * w) == a * d - b,
{
    assert(d * w > 0real) by (nonlinear_arith)
        requires
            d > 0real,
            w > 0real,
    ;
    let z = d * w;
    let (x, y) = (a / w, b / z);
    assert(x * w == a && y * z == b) by (nonlinear_arith)
        requires
            x == a / w,
            y == b / z,
            w > 0real,
            z > 0real,
    ;
    assert((x - y) * z == a * d - b) by (nonlinear_arith)
        requires
            x * w == a,
            y * z == b,
            z == d * w,
    ;
}

/// A positive factor does not change which of two magnitudes is larger.
proof fn lemma_same_order(x: real, y: real, z: real)
    requires
        z > 0real,
    ensures
        absolute(x) < absolute(y) <==> absolute(x * z) < absolute(y * z),
        absolute(x) == absolute(y) <==> absolute(x * z) == absolute(y * z),
        x == y <==> x * z == y * z,
        x < 0real <==> x * z < 0real,
{
    assert(absolute(x * z) == absolute(x) * z) by (nonlinear_arith)
        requires
            z > 0real,
    ;
    assert(absolute(y * z) == absolute(y) * z) by (nonlinear_arith)
        requires
            z > 0real,
    ;
    let (a, b) = (absolute(x), absolute(y));
    assert((a < b <==> a * z < b * z) && (a == b <==> a * z == b * z)) by (nonlinear_arith)
        requires
            z > 0real,
    ;
    assert((x == y <==> x * z == y * z) && (x < 0real <==> x * z < 0real)) by (nonlinear_arith)
        requires
            z > 0real,
    ;
}

/// How far two whole numbers are apart.
spec fn apart(a: int, b: int) -> nat {
    if a < b {
        (b - a) as nat
    } else {
        (a - b) as nat
    }
}

/// A rounded number is nearer than another one, in units.
proof fn lemma_nearer(negative: bool, n: nat, d: nat, p: u32, c: Binary)
    requires
        is_format(p),
        d > 0,
        encode(n, d, p as nat) < infinity(p),
    ensures
        ({
            let r = rounded(negative, n, d, p);
            let s = if negative {
                -(n as int)
            } else {
                n as int
            };
            let (e, f) = (apart(r.value(p) * d, s), apart(c.value(p) * d, s));
            e < f || e == f && (c.value(p) == r.value(p) || r.magnitude % 2 == 0)
        }),
{
    let r = rounded(negative, n, d, p);
    let q = p as nat;
    let (a, b) = (units(encode(n, d, q), q), units(c.magnitude as nat, q));
    lemma_encode_is_nearest(n, d, q, c.magnitude as nat);
    lemma_encode_is_nearest(n, d, q, 0);
    lemma_zero_units(p);
    assert(0 * d == 0);
    assert((-a) * d == -(a * d) && (-b) * d == -(b * d) && b * d >= 0 && (b == 0 <==> b * d == 0))
        by (nonlinear_arith)
        requires
            d > 0,
            b >= 0,
    ;
    if a != b && distance(b * d, n) == distance(a * d, n) {
        lemma_encode_ties(n, d, q, c.magnitude as nat);
    }
    if a != 0 && distance(0, n) == distance(a * d, n) {
        lemma_encode_ties(n, d, q, 0);
    }
}

/// The number `n / d` units, rounded.
proof fn lemma_rounded(negative: bool, n: nat, d: nat, p: u32, s: int)
    requires
        is_format(p),
        d > 0,
        s == if negative {
            -(n as int)
        } else {
            n as int
        },
    ensures
        is_rounded(
            rounded(negative, n, d, p),
            s as real / (d as real * pow2(unit_exponent(p)) as real),
            p,
        ),
{
    let r = rounded(negative, n, d, p);
    let w = pow2(unit_exponent(p));
    let (dr, wr, sr) = (d as real, w as real, s as real);
    let z = dr * wr;
    let at = sr / z;
    lemma_pow2_pos(unit_exponent(p));
    lemma_overflow(n, d, p);
    lemma_limit(p);
    // The limit.
    lemma_quotients(0real, sr, dr, wr);
    lemma_real_product(limit_units(p) as int, d as int);
    let m = limit(p);
    assert(0real / wr == 0real) by (nonlinear_arith)
        requires
            wr > 0real,
    ;
    lemma_same_order(at, m, z);
    assert(m * z == (m * wr) * dr) by (nonlinear_arith)
        requires
            z == dr * wr,
    ;
    assert(at * z == sr) by {
        assert((0real - at) * z == -(at * z)) by (nonlinear_arith);
    }
    assert(m * z > 0real) by (nonlinear_arith)
        requires
            m > 0real,
            z > 0real,
    ;
    assert((limit_units(p) * d) as real == m * z);
    assert(at < 0real <==> s < 0);
    if r.is_finite(p) {
        assert forall|c: Binary| #[trigger] c.is_finite(p) implies {
            let (d, e) = (absolute(exact_of(r, p) - at), absolute(exact_of(c, p) - at));
            d < e || d == e && (exact_of(c, p) == exact_of(r, p) || r.magnitude % 2 == 0)
        } by {
            lemma_nearer(negative, n, d, p, c);
            let (rv, cv) = (r.value(p), c.value(p));
            lemma_quotients(rv as real, sr, dr, wr);
            lemma_quotients(cv as real, sr, dr, wr);
            lemma_real_product(rv, d as int);
            lemma_real_product(cv, d as int);
            lemma_same_order(exact_of(r, p) - at, exact_of(c, p) - at, z);
        }
    }
}

/// A sum is the exact sum, rounded. A sum of zero has a sign just if both numbers have one.
pub proof fn lemma_sum_is_rounded(x: Double, y: Double)
    requires
        x.is_finite(),
        y.is_finite(),
    ensures
        is_rounded(x.add(y).binary(), exact(x) + exact(y), WIDE),
        exact(x) + exact(y) == 0real ==> x.add(y).binary().negative == (x.binary().negative
            && y.binary().negative),
{
    reveal(Double::spec_add);
    lemma_binary_sum(x.binary(), y.binary(), WIDE);
}

/// A difference is the exact difference, rounded.
pub proof fn lemma_difference_is_rounded(x: Double, y: Double)
    requires
        x.is_finite(),
        y.is_finite(),
    ensures
        is_rounded(x.sub(y).binary(), exact(x) - exact(y), WIDE),
{
    lemma_negated(y);
    lemma_exact_negated(y);
    lemma_sum_is_rounded(x, y.neg());
}

/// A product is the exact product, rounded, and has a sign just if one of the numbers has one.
pub proof fn lemma_product_is_rounded(x: Double, y: Double)
    requires
        x.is_finite(),
        y.is_finite(),
    ensures
        is_rounded(x.mul(y).binary(), exact(x) * exact(y), WIDE),
        x.mul(y).binary().negative == (x.binary().negative != y.binary().negative),
{
    reveal(Double::spec_mul);
    lemma_binary_product(x.binary(), y.binary(), WIDE);
}

/// A quotient is the exact quotient, rounded, and has a sign just if one of the numbers has one.
pub proof fn lemma_quotient_is_rounded(x: Double, y: Double)
    requires
        x.is_finite(),
        y.is_finite(),
        exact(y) != 0real,
    ensures
        is_rounded(x.div(y).binary(), exact(x) / exact(y), WIDE),
        x.div(y).binary().negative == (x.binary().negative != y.binary().negative),
{
    reveal(Double::spec_div);
    let (a, b) = (x.binary(), y.binary());
    let w = pow2(1074);
    let (m, n) = (a.units(WIDE), b.units(WIDE));
    lemma_zero_units(WIDE);
    lemma_pow2_pos(1074);
    assert(0real / (w as real) == 0real) by (nonlinear_arith)
        requires
            w as real > 0real,
    ;
    let negative = a.negative != b.negative;
    let s = if negative {
        -((m * w) as int)
    } else {
        (m * w) as int
    };
    lemma_rounded(negative, m * w, n, WIDE, s);
    let (mr, nr, wr, sr) = (m as real, n as real, w as real, s as real);
    lemma_real_product(m as int, w as int);
    lemma_quotient_of_units(mr, nr, wr);
    let t = mr * wr;
    assert((-t) / (nr * wr) == -(t / (nr * wr))) by (nonlinear_arith)
        requires
            nr * wr > 0real,
    ;
    lemma_quotient_signs(mr / wr, nr / wr);
    lemma_quotient_signs(mr, wr);
    lemma_quotient_signs(nr, wr);
}

proof fn lemma_quotient_of_units(m: real, n: real, w: real)
    requires
        n > 0real,
        w > 0real,
    ensures
        n * w > 0real,
        (m * w) / (n * w) == (m / w) / (n / w),
        n / w > 0real,
{
    assert(n * w > 0real && n / w > 0real) by (nonlinear_arith)
        requires
            n > 0real,
            w > 0real,
    ;
    let (a, b) = (m / w, n / w);
    assert(a * w == m && b * w == n) by (nonlinear_arith)
        requires
            a == m / w,
            b == n / w,
            w > 0real,
    ;
    let (c, d) = ((m * w) / (n * w), a / b);
    assert(c * (n * w) == m * w && d * b == a) by (nonlinear_arith)
        requires
            c == (m * w) / (n * w),
            d == a / b,
            n * w > 0real,
            b > 0real,
    ;
    assert(d * (n * w) == m * w) by (nonlinear_arith)
        requires
            d * b == a,
            a * w == m,
            b * w == n,
    ;
    assert(c == d) by (nonlinear_arith)
        requires
            c * (n * w) == d * (n * w),
            n * w > 0real,
    ;
}

proof fn lemma_quotient_signs(a: real, b: real)
    requires
        b > 0real,
    ensures
        (-a) / b == -(a / b),
        a / (-b) == -(a / b),
        (-a) / (-b) == a / b,
{
    assert((-a) / b == -(a / b) && a / (-b) == -(a / b) && (-a) / (-b) == a / b)
        by (nonlinear_arith)
        requires
            b > 0real,
    ;
}

/// The sum of two numbers, in either format.
proof fn lemma_binary_sum(a: Binary, b: Binary, p: u32)
    requires
        is_format(p),
        a.is_finite(p),
        b.is_finite(p),
    ensures
        is_rounded(sum(a, b, p), exact_of(a, p) + exact_of(b, p), p),
        exact_of(a, p) + exact_of(b, p) == 0real ==> sum(a, b, p).negative == (a.negative
            && b.negative),
        !sum(a, b, p).is_nan(p),
        sum(a, b, p).magnitude <= infinity(p),
{
    let w = pow2(unit_exponent(p));
    let s = a.value(p) + b.value(p);
    lemma_pow2_pos(unit_exponent(p));
    let (ar, br, wr, sr) = (a.value(p) as real, b.value(p) as real, w as real, s as real);
    assert(ar / wr + br / wr == sr / (1real * wr) && (sr / (1real * wr) == 0real <==> sr == 0real))
        by (nonlinear_arith)
        requires
            sr == ar + br,
            wr > 0real,
    ;
    if s < 0 {
        lemma_rounded(true, (-s) as nat, 1, p, s);
    } else {
        lemma_rounded(false, s as nat, 1, p, s);
        if s == 0 {
            lemma_zero(a.negative && b.negative, p);
        }
    }
}

/// Zero is nearest to itself.
proof fn lemma_zero(negative: bool, p: u32)
    requires
        is_format(p),
    ensures
        is_rounded(Binary { negative, magnitude: 0 }, 0real, p),
{
    let r = Binary { negative, magnitude: 0 };
    let w = pow2(unit_exponent(p)) as real;
    lemma_pow2_pos(unit_exponent(p));
    lemma_zero_units(p);
    lemma_limit(p);
    assert(0real / w == 0real) by (nonlinear_arith)
        requires
            w > 0real,
    ;
    assert(exact_of(r, p) == 0real);
}

/// The product of two numbers, in either format.
proof fn lemma_binary_product(a: Binary, b: Binary, p: u32)
    requires
        is_format(p),
        a.is_finite(p),
        b.is_finite(p),
    ensures
        is_rounded(product(a, b, p), exact_of(a, p) * exact_of(b, p), p),
        product(a, b, p).negative == (a.negative != b.negative),
        product(a, b, p).magnitude <= infinity(p),
{
    let w = pow2(unit_exponent(p));
    let (m, n) = (a.units(p), b.units(p));
    let (u, v) = (a.value(p), b.value(p));
    lemma_pow2_pos(unit_exponent(p));
    let s = u * v;
    assert((-m) * n == -(m * n) && m * (-n) == -(m * n) && (-m) * (-n) == m * n)
        by (nonlinear_arith);
    lemma_rounded(a.negative != b.negative, m * n, w, p, s);
    lemma_real_product(u, v);
    let (ur, vr, wr) = (u as real, v as real, w as real);
    assert((ur / wr) * (vr / wr) == (ur * vr) / (wr * wr)) by (nonlinear_arith)
        requires
            wr > 0real,
    ;
}

/// The exact value of a finite number in single precision.
pub open spec fn exact_single(x: Single) -> real {
    exact_of(x.binary(), NARROW)
}

/// A finite number in single precision.
pub open spec fn is_finite_single(x: Single) -> bool {
    x.binary().is_finite(NARROW)
}

/// The value of a number in single precision, from its significand `m` and the number `k` of its
/// doublings.
pub proof fn lemma_single_pattern(x: Single, m: nat, k: nat)
    requires
        x.bits == k * 0x80_0000 + m,
        m < 0x100_0000,
        k == 0 || m >= 0x80_0000,
        x.bits < 0x7f80_0000,
    ensures
        is_finite_single(x),
        exact_single(x) == (m * pow2(k)) as real / pow2(149) as real,
{
    lemma2_to64();
    lemma_units_of_parts(m, k, 24);
}

/// A sum in single precision is the exact sum, rounded.
pub proof fn lemma_single_sum_is_rounded(x: Single, y: Single)
    requires
        is_finite_single(x),
        is_finite_single(y),
    ensures
        is_rounded(x.add(y).binary(), exact_single(x) + exact_single(y), NARROW),
        exact_single(x) + exact_single(y) == 0real ==> x.add(y).binary().negative == (
        x.binary().negative && y.binary().negative),
{
    reveal(Single::spec_add);
    lemma_binary_sum(x.binary(), y.binary(), NARROW);
}

/// A difference in single precision is the exact difference, rounded.
pub proof fn lemma_single_difference_is_rounded(x: Single, y: Single)
    requires
        is_finite_single(x),
        is_finite_single(y),
    ensures
        is_rounded(x.sub(y).binary(), exact_single(x) - exact_single(y), NARROW),
{
    lemma_single_negated(y);
    lemma_single_sum_is_rounded(x, y.neg());
}

/// A number in single precision with the other sign.
pub proof fn lemma_single_negated(x: Single)
    ensures
        is_finite_single(x.neg()) == is_finite_single(x),
        exact_single(x.neg()) == -exact_single(x),
        x.neg().binary().negative != x.binary().negative,
{
    reveal(Single::spec_neg);
    lemma_pow2_pos(149);
    lemma_quotient_signs(x.binary().units(NARROW) as real, pow2(149) as real);
}

/// A product in single precision is the exact product, rounded.
pub proof fn lemma_single_product_is_rounded(x: Single, y: Single)
    requires
        is_finite_single(x),
        is_finite_single(y),
    ensures
        is_rounded(x.mul(y).binary(), exact_single(x) * exact_single(y), NARROW),
        x.mul(y).binary().negative == (x.binary().negative != y.binary().negative),
{
    reveal(Single::spec_mul);
    lemma_binary_product(x.binary(), y.binary(), NARROW);
}

/// A double in single precision is its exact value, rounded, with its sign.
pub proof fn lemma_narrowed_is_rounded(x: Double)
    requires
        x.is_finite(),
    ensures
        is_rounded(Single::from_double(x).binary(), exact(x), NARROW),
        Single::from_double(x).binary().negative == x.binary().negative,
{
    reveal(Single::spec_from_double);
    let b = x.binary();
    lemma_pow2_pos(925);
    lemma_pow2_adds(925, 149);
    lemma_real_product(pow2(925) as int, pow2(149) as int);
    lemma_rounded(b.negative, b.units(WIDE), pow2(925), NARROW, x.value());
}

/// A count is rounded to the nearest number.
pub proof fn lemma_count_is_rounded(n: nat)
    ensures
        is_rounded(Double::nearest_to(n).binary(), n as real, WIDE),
        !Double::nearest_to(n).binary().negative,
{
    reveal(Double::nearest_to);
    let w = pow2(1074);
    lemma_pow2_pos(1074);
    lemma_rounded(false, n * w, 1, WIDE, (n * w) as int);
    lemma_real_product(n as int, w as int);
    let (nr, wr) = (n as real, w as real);
    assert((nr * wr) / (1real * wr) == nr) by (nonlinear_arith)
        requires
            wr > 0real,
    ;
}

/// Every byte is exact in single precision.
pub proof fn lemma_byte_is_exact(n: u8)
    ensures
        is_finite_single(Single::from_u8(n)),
        exact_single(Single::from_u8(n)) == n as real,
{
    reveal(Single::spec_from_u8);
    let w = pow2(149);
    lemma_byte(n);
    lemma2_to64();
    lemma_pow2_pos(149);
    lemma_encode_exact(n as nat, 149, 24);
    lemma_real_product(n as int, w as int);
    let (nr, wr) = (n as real, w as real);
    assert((nr * wr) / wr == nr) by (nonlinear_arith)
        requires
            wr > 0real,
    ;
}

/// The byte for a number in single precision: the nearest integer, with halfway cases going up, or
/// the end of the range for what is beyond it. It is 0 for what is not a number.
pub proof fn lemma_nearest_byte(x: Single)
    ensures
        ({
            let (b, byte) = (x.binary(), x.round_u8());
            let v = exact_single(x);
            &&& b.is_nan(NARROW) ==> byte == 0
            &&& b.is_infinite(NARROW) ==> byte == if b.negative {
                0u8
            } else {
                255u8
            }
            &&& b.is_finite(NARROW) && v <= 0real ==> byte == 0
            &&& b.is_finite(NARROW) && 0real <= v < 255real + 1real / 2real ==> byte as real
                - 1real / 2real <= v < byte as real + 1real / 2real
            &&& b.is_finite(NARROW) && v >= 255real ==> byte == 255
        }),
{
    reveal(Single::spec_round_u8);
    let b = x.binary();
    let w = pow2(149);
    let u = b.units(NARROW);
    lemma_pow2_pos(149);
    lemma_pow2_unfold(149);
    lemma_fundamental_div_mod(u as int, w as int);
    let (q, r) = (u as int / w as int, u as int % w as int);
    lemma_real_product(w as int, q);
    let (ur, wr, qr, rr) = (u as real, w as real, q as real, r as real);
    let v = ur / wr;
    assert(v * wr == ur && v >= 0real) by (nonlinear_arith)
        requires
            v == ur / wr,
            wr > 0real,
            ur >= 0real,
    ;
    let f = v - qr;
    assert(f * wr == rr) by (nonlinear_arith)
        requires
            f == v - qr,
            v * wr == ur,
            ur == wr * qr + rr,
    ;
    assert((2real * f >= 1real <==> 2real * rr >= wr) && 0real <= f < 1real) by (nonlinear_arith)
        requires
            f * wr == rr,
            0real <= rr < wr,
            wr > 0real,
    ;
    lemma_quotient_signs(ur, wr);
    assert(u as int / w as int == q && u / w == q && u % w == r);
    assert(q >= 0) by {
        lemma_div_pos_is_pos(u as int, w as int);
    }
}

/// With what is not a number, no sum, product or quotient is a number. It has no place in the order
/// of numbers.
pub proof fn lemma_not_a_number(x: Double, y: Double)
    requires
        x.is_nan() || y.is_nan(),
    ensures
        x.add(y).is_nan(),
        x.sub(y).is_nan(),
        x.mul(y).is_nan(),
        x.div(y).is_nan(),
        !x.lt(y),
        !x.le(y),
        x.is_nan() ==> x.max(y) == y,
        y.is_nan() && !x.is_nan() ==> x.max(y) == x,
        x.is_nan() ==> x.floor_i32() == 0 && x.ceil_i32() == 0,
{
    lemma_negated(y);
    reveal(Double::spec_add);
    reveal(Double::spec_mul);
    reveal(Double::spec_div);
    reveal(Double::spec_lt);
    reveal(Double::spec_le);
    reveal(Double::spec_floor_i32);
    reveal(Double::spec_ceil_i32);
}

/// Infinity, with one sign or the other.
pub open spec fn is_infinite(x: Double) -> bool {
    x.binary().is_infinite(WIDE)
}

/// Arithmetic with infinities.
pub proof fn lemma_infinities(x: Double, y: Double)
    requires
        is_infinite(x),
        !y.is_nan(),
    ensures
        y.is_finite() ==> x.add(y) == x && y.add(x) == x && x.sub(y) == x && y.sub(x) == x.neg(),
        is_infinite(y) && x == y ==> x.add(y) == x && x.sub(y).is_nan(),
        is_infinite(y) && x != y ==> x.add(y).is_nan() && x.sub(y) == x,
        y.is_finite() && exact(y) == 0real ==> x.mul(y).is_nan() && y.mul(x).is_nan(),
        is_infinite(y) || exact(y) != 0real ==> is_infinite(x.mul(y)) && is_infinite(y.mul(x)),
        y.is_finite() ==> is_infinite(x.div(y)) && y.div(x).is_finite() && exact(y.div(x)) == 0real,
        is_infinite(y) ==> x.div(y).is_nan(),
        !x.mul(y).is_nan() ==> x.mul(y).binary().negative == (x.binary().negative
            != y.binary().negative),
        y.is_finite() ==> x.div(y).binary().negative == (x.binary().negative
            != y.binary().negative),
        x.binary().negative ==> x.le(y) && (x.lt(y) <==> x != y),
        !x.binary().negative ==> y.le(x) && (y.lt(x) <==> x != y),
        x.floor_i32() == if x.binary().negative {
            i32::MIN
        } else {
            i32::MAX
        },
        x.ceil_i32() == x.floor_i32(),
{
    reveal(Double::spec_add);
    reveal(Double::spec_neg);
    reveal(Double::spec_mul);
    reveal(Double::spec_div);
    reveal(Double::spec_lt);
    reveal(Double::spec_le);
    reveal(Double::spec_floor_i32);
    reveal(Double::spec_ceil_i32);
    lemma_zero_units(WIDE);
    lemma_pow2_pos(1074);
    let w = pow2(1074) as real;
    let u = y.value() as real;
    assert((u / w == 0real <==> u == 0real) && 0real / w == 0real) by (nonlinear_arith)
        requires
            w > 0real,
    ;
    if y.is_finite() && y.binary().magnitude > 0 {
        lemma_units_positive(y.binary().magnitude, WIDE);
    }
}

/// Division by zero.
pub proof fn lemma_division_by_zero(x: Double, y: Double)
    requires
        x.is_finite(),
        y.is_finite(),
        exact(y) == 0real,
    ensures
        exact(x) == 0real ==> x.div(y).is_nan(),
        exact(x) != 0real ==> is_infinite(x.div(y)) && x.div(y).binary().negative == (
        x.binary().negative != y.binary().negative),
{
    reveal(Double::spec_div);
    lemma_zero_units(WIDE);
    lemma_pow2_pos(1074);
    let w = pow2(1074) as real;
    let (u, v) = (x.value() as real, y.value() as real);
    assert((u / w == 0real <==> u == 0real) && (v / w == 0real <==> v == 0real))
        by (nonlinear_arith)
        requires
            w > 0real,
    ;
    if x.binary().magnitude > 0 {
        lemma_units_positive(x.binary().magnitude, WIDE);
    }
    if y.binary().magnitude > 0 {
        lemma_units_positive(y.binary().magnitude, WIDE);
    }
}

/// The larger of two numbers, and a number that is kept in a range.
pub proof fn lemma_selected(x: Double, low: Double, high: Double)
    requires
        x.is_finite(),
        low.is_finite(),
        high.is_finite(),
    ensures
        exact(x.max(low)) == if exact(x) < exact(low) {
            exact(low)
        } else {
            exact(x)
        },
        x.max(low).is_finite(),
        exact(low) <= exact(high) ==> exact(x.clamp(low, high)) == if exact(x) < exact(low) {
            exact(low)
        } else if exact(x) > exact(high) {
            exact(high)
        } else {
            exact(x)
        },
        x.clamp(low, high).is_finite(),
{
    lemma_order_of_exact(x, low);
    lemma_order_of_exact(high, x);
}

} // verus!
