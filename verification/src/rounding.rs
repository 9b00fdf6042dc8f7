//! Correct rounding: how an exact rational number becomes a binary floating-point number.
//!
//! A binary format with precision `p` orders its non-negative numbers by their bit patterns: the
//! pattern 0 is zero, pattern 1 is the least positive number (the *unit* of the format), and each
//! next pattern is the next larger number. The first `2^p` patterns are one unit apart; from there
//! on, every `2^(p - 1)` patterns the spacing doubles. All magnitudes below are counted in units,
//! so that every representable magnitude is a natural number.
use vstd::arithmetic::div_mod::{
    lemma_div_denominator, lemma_div_is_ordered, lemma_fundamental_div_mod,
    lemma_fundamental_div_mod_converse,
};
use vstd::arithmetic::power2::{
    lemma2_to64, lemma2_to64_rest, lemma_pow2_adds, lemma_pow2_pos, lemma_pow2_strictly_increases,
    lemma_pow2_unfold, pow2,
};
use vstd::bits::lemma_u128_shr_is_div;
use vstd::prelude::*;

verus! {

/// `n / d` rounded to the nearest integer; halfway cases go to the even neighbour.
pub open spec fn nearest(n: nat, d: nat) -> nat {
    let q = n / d;
    let r = n % d;
    if 2 * r > d || (2 * r == d && q % 2 == 1) {
        q + 1
    } else {
        q
    }
}

/// The bit pattern of the representable magnitude nearest to `n / d` units, with precision `p`.
pub open spec fn encode(n: nat, d: nat, p: nat) -> nat
    decreases n - d,
    when d > 0 && p > 0
{
    proof {
        lemma_pow2_pos((p - 1) as nat);
        lemma_pow2_unfold(p);
        assert(d * pow2(p) >= 2 * d) by (nonlinear_arith)
            requires
                pow2(p) >= 2,
                d > 0,
        ;
    }
    if n < d * pow2(p) {
        nearest(n, d)
    } else {
        pow2((p - 1) as nat) + encode(n, 2 * d, p)
    }
}

/// How often the spacing of the format has doubled at the bit pattern `b`.
pub open spec fn doublings(b: nat, p: nat) -> nat {
    let e = b / pow2((p - 1) as nat);
    if e == 0 {
        0
    } else {
        (e - 1) as nat
    }
}

/// The significand of the bit pattern `b`.
pub open spec fn significand(b: nat, p: nat) -> nat {
    (b - doublings(b, p) * pow2((p - 1) as nat)) as nat
}

/// The magnitude, in units, whose bit pattern is `b`.
pub open spec fn units(b: nat, p: nat) -> nat {
    significand(b, p) * pow2(doublings(b, p))
}

pub proof fn lemma_nearest_scaled(n: nat, d: nat, c: nat)
    requires
        d > 0,
        c > 0,
    ensures
        nearest(n * c, d * c) == nearest(n, d),
{
    let q = (n / d) as int;
    let r = (n % d) as int;
    lemma_fundamental_div_mod(n as int, d as int);
    assert(n * c == q * (d * c) + r * c && 0 <= r * c < d * c) by (nonlinear_arith)
        requires
            n == d * q + r,
            0 <= r < d,
            c > 0,
    ;
    lemma_fundamental_div_mod_converse((n * c) as int, (d * c) as int, q, r * c);
    assert((2 * r > d <==> 2 * (r * c) > d * c) && (2 * r == d <==> 2 * (r * c) == d * c))
        by (nonlinear_arith)
        requires
            c > 0,
    ;
}

pub proof fn lemma_nearest_exact(q: nat, d: nat)
    requires
        d > 0,
    ensures
        nearest(q * d, d) == q,
{
    lemma_fundamental_div_mod_converse((q * d) as int, d as int, q as int, 0);
}

pub proof fn lemma_nearest_monotone(n1: nat, n2: nat, d: nat)
    requires
        d > 0,
        n1 <= n2,
    ensures
        nearest(n1, d) <= nearest(n2, d),
{
    lemma_div_is_ordered(n1 as int, n2 as int, d as int);
    lemma_fundamental_div_mod(n1 as int, d as int);
    lemma_fundamental_div_mod(n2 as int, d as int);
}

/// `encode` without the recursion: `k` is the number of doublings at the magnitude.
pub proof fn lemma_encode_closed(n: nat, d: nat, p: nat, k: nat)
    requires
        d > 0,
        p > 0,
        n < d * pow2(p + k),
        k == 0 || n >= d * pow2((p + k - 1) as nat),
    ensures
        encode(n, d, p) == k * pow2((p - 1) as nat) + nearest(n, d * pow2(k)),
    decreases k,
{
    if k == 0 {
        lemma2_to64();
        assert(d * pow2(0) == d);
    } else {
        let h = (p + k - 1) as nat;
        assert(d * pow2(p) <= d * pow2(h)) by {
            if k > 1 {
                lemma_pow2_strictly_increases(p, h);
            }
            assert(pow2(p) <= pow2(h) ==> d * pow2(p) <= d * pow2(h)) by (nonlinear_arith);
        }
        lemma_pow2_unfold(p + k);
        assert(2 * d * pow2(h) == d * (2 * pow2(h))) by (nonlinear_arith);
        if k > 1 {
            lemma_pow2_unfold(h);
            assert(2 * d * pow2((h - 1) as nat) == d * (2 * pow2((h - 1) as nat)))
                by (nonlinear_arith);
        }
        lemma_encode_closed(n, 2 * d, p, (k - 1) as nat);
        lemma_pow2_unfold(k);
        assert(2 * d * pow2((k - 1) as nat) == d * (2 * pow2((k - 1) as nat)))
            by (nonlinear_arith);
        assert((k - 1) * pow2((p - 1) as nat) + pow2((p - 1) as nat) == k * pow2((p - 1) as nat))
            by (nonlinear_arith);
    }
}

pub proof fn lemma_encode_scaled(n: nat, d: nat, c: nat, p: nat)
    requires
        d > 0,
        c > 0,
        p > 0,
    ensures
        encode(n * c, d * c, p) == encode(n, d, p),
    decreases n - d,
{
    assert(d * c > 0) by (nonlinear_arith)
        requires
            d > 0,
            c > 0,
    ;
    assert(n * c < (d * c) * pow2(p) <==> n < d * pow2(p)) by (nonlinear_arith)
        requires
            c > 0,
    ;
    if n < d * pow2(p) {
        lemma_nearest_scaled(n, d, c);
    } else {
        lemma_pow2_pos((p - 1) as nat);
        lemma_pow2_unfold(p);
        assert(d * pow2(p) >= 2 * d) by (nonlinear_arith)
            requires
                pow2(p) >= 2,
                d > 0,
        ;
        lemma_encode_scaled(n, 2 * d, c, p);
        assert((2 * d) * c == 2 * (d * c)) by (nonlinear_arith);
    }
}

pub proof fn lemma_encode_lower(n: nat, d: nat, p: nat)
    requires
        d > 0,
        p > 0,
        n >= d * pow2((p - 1) as nat),
    ensures
        encode(n, d, p) >= pow2((p - 1) as nat),
{
    if n < d * pow2(p) {
        lemma_nearest_monotone(d * pow2((p - 1) as nat), n, d);
        assert(d * pow2((p - 1) as nat) == pow2((p - 1) as nat) * d) by (nonlinear_arith);
        lemma_nearest_exact(pow2((p - 1) as nat), d);
    }
}

pub proof fn lemma_encode_monotone_same(n1: nat, n2: nat, d: nat, p: nat)
    requires
        d > 0,
        p > 0,
        n1 <= n2,
    ensures
        encode(n1, d, p) <= encode(n2, d, p),
    decreases n2 - d,
{
    lemma_pow2_pos((p - 1) as nat);
    lemma_pow2_unfold(p);
    assert(d * pow2(p) >= 2 * d) by (nonlinear_arith)
        requires
            pow2(p) >= 2,
            d > 0,
    ;
    if n2 < d * pow2(p) {
        lemma_nearest_monotone(n1, n2, d);
    } else if n1 < d * pow2(p) {
        lemma_nearest_monotone(n1, d * pow2(p), d);
        assert(d * pow2(p) == pow2(p) * d) by (nonlinear_arith);
        lemma_nearest_exact(pow2(p), d);
        assert(2 * d * pow2((p - 1) as nat) == d * (2 * pow2((p - 1) as nat)))
            by (nonlinear_arith);
        lemma_encode_lower(n2, 2 * d, p);
    } else {
        lemma_encode_monotone_same(n1, n2, 2 * d, p);
    }
}

/// Rounding keeps the order of the numbers that are rounded.
pub proof fn lemma_encode_monotone(n1: nat, d1: nat, n2: nat, d2: nat, p: nat)
    requires
        d1 > 0,
        d2 > 0,
        p > 0,
        n1 * d2 <= n2 * d1,
    ensures
        encode(n1, d1, p) <= encode(n2, d2, p),
{
    lemma_encode_scaled(n1, d1, d2, p);
    lemma_encode_scaled(n2, d2, d1, p);
    assert(d1 * d2 == d2 * d1 && d1 * d2 > 0) by (nonlinear_arith)
        requires
            d1 > 0,
            d2 > 0,
    ;
    lemma_encode_monotone_same(n1 * d2, n2 * d1, d1 * d2, p);
}

/// What the significand and the doublings of a bit pattern can be.
pub proof fn lemma_pattern_parts(b: nat, p: nat)
    requires
        p > 0,
    ensures
        b == doublings(b, p) * pow2((p - 1) as nat) + significand(b, p),
        significand(b, p) < pow2(p),
        doublings(b, p) == 0 || significand(b, p) >= pow2((p - 1) as nat),
{
    let h = pow2((p - 1) as nat);
    lemma_pow2_pos((p - 1) as nat);
    lemma_pow2_unfold(p);
    lemma_fundamental_div_mod(b as int, h as int);
    let e = b / h;
    assert(h * e == e * h && (e - 1) * h == e * h - h) by (nonlinear_arith);
}

/// A magnitude that the format can represent is rounded to itself.
pub proof fn lemma_encode_units(b: nat, p: nat)
    requires
        p > 0,
    ensures
        encode(units(b, p), 1, p) == b,
{
    let k = doublings(b, p);
    let m = significand(b, p);
    lemma_pattern_parts(b, p);
    lemma_pow2_pos(k);
    lemma_pow2_adds(p, k);
    assert(m * pow2(k) < pow2(p) * pow2(k)) by (nonlinear_arith)
        requires
            m < pow2(p),
            pow2(k) > 0,
    ;
    if k > 0 {
        lemma_pow2_adds((p - 1) as nat, k);
        assert((p - 1) as nat + k == (p + k - 1) as nat);
        assert(m * pow2(k) >= pow2((p - 1) as nat) * pow2(k)) by (nonlinear_arith)
            requires
                m >= pow2((p - 1) as nat),
                pow2(k) > 0,
        ;
    }
    lemma_encode_closed(units(b, p), 1, p, k);
    assert(1 * pow2(k) == pow2(k));
    lemma_nearest_exact(m, pow2(k));
}

/// The order of bit patterns is the order of the magnitudes.
pub proof fn lemma_units_order(b1: nat, b2: nat, p: nat)
    requires
        p > 0,
    ensures
        b1 < b2 <==> units(b1, p) < units(b2, p),
        b1 == b2 <==> units(b1, p) == units(b2, p),
{
    lemma_encode_units(b1, p);
    lemma_encode_units(b2, p);
    if units(b1, p) <= units(b2, p) {
        lemma_encode_monotone_same(units(b1, p), units(b2, p), 1, p);
    } else {
        lemma_encode_monotone_same(units(b2, p), units(b1, p), 1, p);
    }
}

/// Rounding with the digits below `d` replaced by a single bit that says whether any of them is
/// set. At least one full binary digit has to lie between that bit and the rounding position.
pub proof fn lemma_nearest_sticky(n: nat, d: nat, t: nat)
    requires
        d > 0,
        t > 0,
    ensures
        nearest(n, d * pow2(t)) == nearest(
            2 * (n / d) + (if n % d == 0 { 0nat } else { 1nat }),
            pow2(t + 1),
        ),
{
    let q = n / d;
    let r = n % d;
    let w = pow2(t);
    let u = pow2((t - 1) as nat);
    let s: nat = if r == 0 { 0 } else { 1 };
    lemma_pow2_pos((t - 1) as nat);
    lemma_pow2_unfold(t);
    lemma_pow2_unfold(t + 1);
    assert(pow2(t + 1) == 2 * w);
    lemma_fundamental_div_mod(n as int, d as int);
    lemma_fundamental_div_mod(q as int, w as int);
    let a = q / w;
    let c = q % w;
    assert(n == a * (d * w) + (d * c + r) && 0 <= d * c + r < d * w) by (nonlinear_arith)
        requires
            n == d * q + r,
            q == w * a + c,
            0 <= r < d,
            0 <= c < w,
    ;
    lemma_fundamental_div_mod_converse(n as int, (d * w) as int, a as int, (d * c + r) as int);
    assert(2 * q + s == a * (2 * w) + (2 * c + s) && 0 <= 2 * c + s < 2 * w) by (nonlinear_arith)
        requires
            q == w * a + c,
            0 <= c < w,
            0 <= s <= 1,
    ;
    lemma_fundamental_div_mod_converse(
        (2 * q + s) as int,
        (2 * w) as int,
        a as int,
        (2 * c + s) as int,
    );
    assert((2 * (d * c + r) > d * w <==> 2 * (2 * c + s) > 2 * w) && (2 * (d * c + r) == d * w
        <==> 2 * (2 * c + s) == 2 * w)) by (nonlinear_arith)
        requires
            w == 2 * u,
            0 <= r < d,
            s == 0 <==> r == 0,
            s == 0 || s == 1,
    ;
}

/// The pattern with `k` doublings and the significand `q` has the magnitude `q * 2^k`.
pub proof fn lemma_units_of_parts(q: nat, k: nat, p: nat)
    requires
        p > 0,
        q <= pow2(p),
        k == 0 || q >= pow2((p - 1) as nat),
    ensures
        units(k * pow2((p - 1) as nat) + q, p) == q * pow2(k),
{
    let h = pow2((p - 1) as nat);
    let b = k * h + q;
    lemma_pow2_pos((p - 1) as nat);
    lemma_pow2_unfold(p);
    if q < h {
        assert(0 * h == 0);
        lemma_fundamental_div_mod_converse(b as int, h as int, 0, b as int);
    } else if q < 2 * h {
        assert(b == (k + 1) * h + (q - h)) by (nonlinear_arith)
            requires
                b == k * h + q,
        ;
        lemma_fundamental_div_mod_converse(b as int, h as int, (k + 1) as int, (q - h) as int);
    } else {
        assert(b == (k + 2) * h && (k + 1) * h == k * h + h) by (nonlinear_arith)
            requires
                b == k * h + q,
                q == 2 * h,
        ;
        lemma_fundamental_div_mod_converse(b as int, h as int, (k + 2) as int, 0);
        lemma_pow2_unfold(k + 1);
        assert(h * (2 * pow2(k)) == (2 * h) * pow2(k)) by (nonlinear_arith);
    }
}

/// A number with at most `p` binary digits is represented exactly.
pub proof fn lemma_encode_exact(m: nat, k: nat, p: nat)
    requires
        p > 0,
        m < pow2(p),
    ensures
        units(encode(m * pow2(k), 1, p), p) == m * pow2(k),
        encode(m * pow2(k), 1, p) <= k * pow2((p - 1) as nat) + m,
    decreases k,
{
    let h = pow2((p - 1) as nat);
    lemma_pow2_pos((p - 1) as nat);
    lemma_pow2_unfold(p);
    if k > 0 && m < h {
        lemma_pow2_unfold(k);
        assert((2 * m) * pow2((k - 1) as nat) == m * (2 * pow2((k - 1) as nat)))
            by (nonlinear_arith);
        lemma_encode_exact(2 * m, (k - 1) as nat, p);
        assert((k - 1) * h + h == k * h) by (nonlinear_arith);
    } else {
        lemma_units_of_parts(m, k, p);
        lemma_encode_units(k * h + m, p);
    }
}

/// How far two natural numbers are apart.
pub open spec fn distance(a: nat, b: nat) -> nat {
    if a < b {
        (b - a) as nat
    } else {
        (a - b) as nat
    }
}

proof fn lemma_nearest_multiple(n: nat, d: nat, j: nat)
    requires
        d > 0,
    ensures
        2 * distance(nearest(n, d) * d, n) <= d,
        distance(nearest(n, d) * d, n) <= distance(j * d, n),
{
    let q = n / d;
    let r = n % d;
    lemma_fundamental_div_mod(n as int, d as int);
    assert(q * d == d * q && (q + 1) * d == d * q + d) by (nonlinear_arith);
    if j > nearest(n, d) {
        assert(j * d >= nearest(n, d) * d + d) by (nonlinear_arith)
            requires
                j >= nearest(n, d) + 1,
                d > 0,
        ;
    } else if j < nearest(n, d) {
        assert(j * d <= nearest(n, d) * d - d) by (nonlinear_arith)
            requires
                j <= nearest(n, d) - 1,
                d > 0,
        ;
    }
}

/// How a number is rounded: to a multiple of `2^k`, the spacing of the format there.
proof fn lemma_encode_parts(n: nat, d: nat, p: nat) -> (k: nat)
    requires
        d > 0,
        p > 0,
    ensures
        pow2(k) > 0,
        pow2((p - 1) as nat) > 0,
        pow2(p) == 2 * pow2((p - 1) as nat),
        d * pow2(k) > 0,
        encode(n, d, p) == k * pow2((p - 1) as nat) + nearest(n, d * pow2(k)),
        units(encode(n, d, p), p) * d == nearest(n, d * pow2(k)) * (d * pow2(k)),
        k > 0 ==> d * pow2((p + k - 1) as nat) == pow2((p - 1) as nat) * (d * pow2(k)),
        k > 0 ==> d * pow2((p + k - 1) as nat) <= n,
        k > 0 ==> nearest(n, d * pow2(k)) >= pow2((p - 1) as nat),
{
    let h = pow2((p - 1) as nat);
    let k = lemma_doublings_exist(n, d, p);
    let u = pow2(k);
    let q = nearest(n, d * u);
    lemma_pow2_pos(k);
    lemma_pow2_pos((p - 1) as nat);
    lemma_pow2_unfold(p);
    assert(d * u > 0) by (nonlinear_arith)
        requires
            d > 0,
            u > 0,
    ;
    lemma_encode_closed(n, d, p, k);
    lemma_pow2_adds(p, k);
    assert(d * pow2(p + k) == pow2(p) * (d * u)) by (nonlinear_arith)
        requires
            pow2(p + k) == pow2(p) * u,
    ;
    lemma_nearest_monotone(n, pow2(p) * (d * u), d * u);
    lemma_nearest_exact(pow2(p), d * u);
    if k > 0 {
        lemma_pow2_adds((p - 1) as nat, k);
        assert((p - 1) as nat + k == (p + k - 1) as nat);
        assert(d * pow2((p + k - 1) as nat) == h * (d * u)) by (nonlinear_arith)
            requires
                pow2((p + k - 1) as nat) == h * u,
        ;
        lemma_nearest_monotone(h * (d * u), n, d * u);
        lemma_nearest_exact(h, d * u);
    }
    lemma_units_of_parts(q, k, p);
    assert((q * u) * d == q * (d * u)) by (nonlinear_arith);
    k
}

/// No number of the format is nearer to `n / d` than the one it is rounded to.
pub proof fn lemma_encode_is_nearest(n: nat, d: nat, p: nat, b: nat)
    requires
        d > 0,
        p > 0,
    ensures
        distance(units(encode(n, d, p), p) * d, n) <= distance(units(b, p) * d, n),
{
    let h = pow2((p - 1) as nat);
    let k = lemma_encode_parts(n, d, p);
    let u = pow2(k);
    let q = nearest(n, d * u);
    // The other number.
    let kb = doublings(b, p);
    let mb = significand(b, p);
    lemma_pattern_parts(b, p);
    if kb >= k {
        let e = (kb - k) as nat;
        lemma_pow2_adds(e, k);
        assert((mb * pow2(kb)) * d == (mb * pow2(e)) * (d * u)) by (nonlinear_arith)
            requires
                pow2(kb) == pow2(e) * u,
        ;
        lemma_nearest_multiple(n, d * u, mb * pow2(e));
    } else {
        lemma_nearest_multiple(n, d * u, h);
        lemma_pow2_adds(p, kb);
        lemma_pow2_pos(kb);
        if p + kb < p + k - 1 {
            lemma_pow2_strictly_increases(p + kb, (p + k - 1) as nat);
        }
        assert((mb * pow2(kb)) * d <= d * pow2((p + k - 1) as nat)) by (nonlinear_arith)
            requires
                mb < pow2(p),
                pow2(kb) > 0,
                pow2(p) * pow2(kb) <= pow2((p + k - 1) as nat),
        ;
    }
}

proof fn lemma_tied_multiple(n: nat, d: nat, j: nat)
    requires
        d > 0,
        j != nearest(n, d),
        distance(j * d, n) == distance(nearest(n, d) * d, n),
    ensures
        nearest(n, d) % 2 == 0,
{
    let q = n / d;
    let r = n % d;
    lemma_fundamental_div_mod(n as int, d as int);
    assert(q * d == d * q && (q + 1) * d == d * q + d) by (nonlinear_arith);
    if j > q + 1 {
        assert(j * d >= d * q + 2 * d) by (nonlinear_arith)
            requires
                j >= q + 2,
                d > 0,
        ;
    } else if j < q {
        assert(j * d <= d * q - d) by (nonlinear_arith)
            requires
                j <= q - 1,
                d > 0,
        ;
    }
}

/// If another number of the format is as near to `n / d` as the one it is rounded to, that one has
/// an even pattern.
pub proof fn lemma_encode_ties(n: nat, d: nat, p: nat, b: nat)
    requires
        d > 0,
        p > 1,
        units(b, p) != units(encode(n, d, p), p),
        distance(units(b, p) * d, n) == distance(units(encode(n, d, p), p) * d, n),
    ensures
        encode(n, d, p) % 2 == 0,
{
    let h = pow2((p - 1) as nat);
    let k = lemma_encode_parts(n, d, p);
    let u = pow2(k);
    let q = nearest(n, d * u);
    let kb = doublings(b, p);
    let mb = significand(b, p);
    lemma_pattern_parts(b, p);
    lemma_pow2_unfold((p - 1) as nat);
    if kb >= k {
        let e = (kb - k) as nat;
        let j = mb * pow2(e);
        lemma_pow2_adds(e, k);
        assert((mb * pow2(kb)) * d == j * (d * u)) by (nonlinear_arith)
            requires
                pow2(kb) == pow2(e) * u,
                j == mb * pow2(e),
        ;
        if j == q {
            assert(units(b, p) == units(encode(n, d, p), p)) by (nonlinear_arith)
                requires
                    units(b, p) * d == units(encode(n, d, p), p) * d,
                    d > 0,
            ;
        }
        lemma_tied_multiple(n, d * u, j);
        let l = pow2((p - 2) as nat);
        assert(k * h == 2 * (k * l)) by (nonlinear_arith)
            requires
                h == 2 * l,
        ;
    } else {
        lemma_nearest_multiple(n, d * u, h);
        lemma_pow2_adds(p, kb);
        lemma_pow2_pos(kb);
        if p + kb < p + k - 1 {
            lemma_pow2_strictly_increases(p + kb, (p + k - 1) as nat);
        }
        assert((mb * pow2(kb)) * d < d * pow2((p + k - 1) as nat)) by (nonlinear_arith)
            requires
                mb < pow2(p),
                pow2(kb) > 0,
                d > 0,
                pow2(p) * pow2(kb) <= pow2((p + k - 1) as nat),
        ;
    }
}

/// Rounding moves a number by at most half of its last digit.
pub proof fn lemma_encode_error(n: nat, d: nat, p: nat)
    requires
        d > 0,
        p > 0,
    ensures
        distance(units(encode(n, d, p), p) * d, n) * pow2(p) <= n + d * pow2((p - 1) as nat),
        d == 1 ==> distance(units(encode(n, d, p), p) * d, n) * pow2(p) <= n,
{
    let h = pow2((p - 1) as nat);
    let k = lemma_encode_parts(n, d, p);
    let u = pow2(k);
    let q = nearest(n, d * u);
    lemma_nearest_multiple(n, d * u, 0);
    let e = distance(q * (d * u), n);
    assert(e * (2 * h) <= h * (d * u)) by (nonlinear_arith)
        requires
            2 * e <= d * u,
    ;
    if k == 0 {
        lemma2_to64();
        assert(h * (d * 1) == d * h) by (nonlinear_arith);
        if d == 1 {
            assert(n * 1 == n);
            lemma_nearest_exact(n, 1);
            assert(0 * pow2(p) == 0);
        }
    } else {
        assert(d * h >= 0) by (nonlinear_arith);
    }
}

/// The number of doublings at a magnitude.
proof fn lemma_doublings_exist(n: nat, d: nat, p: nat) -> (k: nat)
    requires
        d > 0,
        p > 0,
    ensures
        n < d * pow2(p + k),
        k == 0 || n >= d * pow2((p + k - 1) as nat),
    decreases n - d,
{
    if n < d * pow2(p) {
        0
    } else {
        lemma_pow2_pos((p - 1) as nat);
        lemma_pow2_unfold(p);
        assert(d * pow2(p) >= 2 * d) by (nonlinear_arith)
            requires
                pow2(p) >= 2,
                d > 0,
        ;
        let k = lemma_doublings_exist(n, 2 * d, p);
        lemma_pow2_unfold(p + k + 1);
        assert((2 * d) * pow2(p + k) == d * (2 * pow2(p + k))) by (nonlinear_arith);
        if k > 0 {
            lemma_pow2_unfold(p + k);
            assert((2 * d) * pow2((p + k - 1) as nat) == d * (2 * pow2((p + k - 1) as nat)))
                by (nonlinear_arith);
        }
        k + 1
    }
}

/// The number `sig * 2^exp` as a fraction: its numerator.
pub open spec fn scaled_num(sig: nat, exp: int) -> nat {
    if exp >= 0 {
        sig * pow2(exp as nat)
    } else {
        sig
    }
}

/// The number `sig * 2^exp` as a fraction: its denominator.
pub open spec fn scaled_den(exp: int) -> nat {
    if exp >= 0 {
        1
    } else {
        pow2((-exp) as nat)
    }
}

proof fn lemma_shl_one(t: u32)
    requires
        t < 128,
    ensures
        (1u128 << t) == pow2(t as nat),
    decreases t,
{
    if t == 0 {
        assert(1u128 << 0u32 == 1) by (bit_vector);
        lemma2_to64();
    } else {
        let s = (t - 1) as u32;
        lemma_shl_one(s);
        assert((1u128 << t) == 2 * (1u128 << s)) by (bit_vector)
            requires
                t == s + 1,
                t < 128,
        ;
        lemma_pow2_unfold(t as nat);
    }
}

/// `2^t`.
pub fn power_of_two(t: u32) -> (r: u128)
    requires
        t < 128,
    ensures
        r == pow2(t as nat),
{
    proof {
        lemma_shl_one(t);
    }
    1u128 << t
}

/// The number of binary digits of `n`.
pub fn bit_length(n: u128) -> (len: u32)
    requires
        n > 0,
    ensures
        0 < len <= 128,
        pow2((len - 1) as nat) <= n,
        n < pow2(len as nat),
{
    let mut high: u128 = n;
    let mut low_digits: u32 = 0;
    let mut step: u32 = 64;
    proof {
        lemma2_to64();
        lemma_pow2_adds(64, 64);
        assert(n / 1 == n);
    }
    while step > 0
        invariant
            step <= 64,
            low_digits + 2 * step <= 128,
            step == 0 ==> low_digits < 128,
            step > 0 ==> (step == 1 || step % 2 == 0),
            step == 64 || step == 32 || step == 16 || step == 8 || step == 4 || step == 2 || step
                == 1 || step == 0,
            high > 0,
            high == n as nat / pow2(low_digits as nat),
            high < pow2(if step > 0 { 2 * step as nat } else { 1 }),
        decreases step,
    {
        proof {
            lemma_u128_shr_is_div(high, step as u128);
            lemma_pow2_pos(step as nat);
            lemma_pow2_pos(low_digits as nat);
            assert(high >> step == high >> (step as u128)) by (bit_vector)
                requires
                    step <= 64,
            ;
        }
        let top: u128 = high >> step;
        proof {
            let w = pow2(step as nat);
            lemma_pow2_adds(step as nat, step as nat);
            lemma_fundamental_div_mod(high as int, w as int);
            assert(top == high as nat / w);
            if top > 0 {
                lemma_div_denominator(n as int, pow2(low_digits as nat) as int, w as int);
                lemma_pow2_adds(low_digits as nat, step as nat);
                assert(top < w) by (nonlinear_arith)
                    requires
                        high < w * w,
                        high == w * top + high as nat % w,
                        w > 0,
                ;
            } else {
                assert(high < w) by (nonlinear_arith)
                    requires
                        high == w * top + high as nat % w,
                        top == 0,
                        high as nat % w < w,
                ;
            }
        }
        if top > 0 {
            high = top;
            low_digits = low_digits + step;
        }
        step = step / 2;
    }
    proof {
        let w = pow2(low_digits as nat);
        lemma_pow2_pos(low_digits as nat);
        lemma_pow2_unfold((low_digits + 1) as nat);
        lemma_fundamental_div_mod(n as int, w as int);
        assert(high == 1);
        assert(w * 1 == w);
    }
    low_digits + 1
}

/// A quotient with `len` binary digits before the point, scaled by `2^exp`, has `k` doublings
/// below it.
proof fn lemma_bracket(n: nat, d: nat, len: nat, exp: int, p: nat, k: nat)
    requires
        0 < d,
        0 < len,
        0 < p,
        d * pow2((len - 1) as nat) <= n < d * pow2(len),
        len + exp <= p + k,
        k == 0 || k == len + exp - p,
    ensures
        scaled_num(n, exp) < (d * scaled_den(exp)) * pow2(p + k),
        k == 0 || scaled_num(n, exp) >= (d * scaled_den(exp)) * pow2((p + k - 1) as nat),
{
    let low = pow2((len - 1) as nat);
    let high = pow2(len);
    let end = pow2(p + k);
    if exp >= 0 {
        let e = exp as nat;
        let u = pow2(e);
        lemma_pow2_pos(e);
        lemma_pow2_adds(len, e);
        if len + e < p + k {
            lemma_pow2_strictly_increases(len + e, p + k);
        }
        assert(n * u < (d * 1) * end) by (nonlinear_arith)
            requires
                n < d * high,
                u > 0,
                d > 0,
                high * u <= end,
        ;
        if k > 0 {
            lemma_pow2_adds((len - 1) as nat, e);
            assert((len - 1) as nat + e == (p + k - 1) as nat);
            let start = pow2((p + k - 1) as nat);
            assert(n * u >= (d * 1) * start) by (nonlinear_arith)
                requires
                    n >= d * low,
                    u > 0,
                    d > 0,
                    low * u == start,
            ;
        }
    } else {
        let e = (-exp) as nat;
        let u = pow2(e);
        lemma_pow2_adds(e, p + k);
        if len < e + (p + k) {
            lemma_pow2_strictly_increases(len, e + (p + k));
        }
        assert(n < (d * u) * end) by (nonlinear_arith)
            requires
                n < d * high,
                d > 0,
                high <= u * end,
        ;
        if k > 0 {
            lemma_pow2_adds(e, (p + k - 1) as nat);
            assert(e + (p + k - 1) as nat == (len - 1) as nat);
            let start = pow2((p + k - 1) as nat);
            assert(n >= (d * u) * start) by (nonlinear_arith)
                requires
                    n >= d * low,
                    low == u * start,
            ;
        }
    }
}

/// Rounding the quotient `n / d`, scaled by `2^exp`, cuts off its `t` lowest digits before the
/// point.
pub proof fn lemma_encode_cut(n: nat, d: nat, len: nat, exp: int, p: nat, k: nat, t: nat)
    requires
        0 < d,
        0 < len,
        0 < p,
        d * pow2((len - 1) as nat) <= n < d * pow2(len),
        len + exp <= p + k,
        k == 0 || k == len + exp - p,
        t == k - exp,
    ensures
        encode(scaled_num(n, exp), d * scaled_den(exp), p) == k * pow2((p - 1) as nat) + nearest(
            n,
            d * pow2(t),
        ),
{
    lemma_bracket(n, d, len, exp, p, k);
    lemma_pow2_pos(t);
    assert(d * pow2(t) > 0) by (nonlinear_arith)
        requires
            d > 0,
            pow2(t) > 0,
    ;
    if exp >= 0 {
        lemma_encode_closed(scaled_num(n, exp), d * 1, p, k);
        lemma_pow2_adds(t, exp as nat);
        lemma_pow2_pos(exp as nat);
        lemma_nearest_scaled(n, d * pow2(t), pow2(exp as nat));
        assert((d * pow2(t)) * pow2(exp as nat) == (d * 1) * pow2(k)) by (nonlinear_arith)
            requires
                pow2(k) == pow2(t) * pow2(exp as nat),
        ;
    } else {
        let u = pow2((-exp) as nat);
        lemma_pow2_pos((-exp) as nat);
        assert(d * u > 0) by (nonlinear_arith)
            requires
                d > 0,
                u > 0,
        ;
        lemma_encode_closed(n, d * u, p, k);
        lemma_pow2_adds((-exp) as nat, k);
        assert((-exp) as nat + k == t);
        assert((d * u) * pow2(k) == d * pow2(t)) by (nonlinear_arith)
            requires
                pow2(t) == u * pow2(k),
        ;
    }
}

/// The product of `n` and a power of two over another one, with the powers taken together.
pub proof fn lemma_encode_shifted(n: nat, up: nat, down: nat, p: nat)
    requires
        0 < p,
    ensures
        encode(n * pow2(up), pow2(down), p) == encode(
            scaled_num(n, up - down),
            scaled_den(up - down),
            p,
        ),
{
    lemma_pow2_pos(up);
    lemma_pow2_pos(down);
    if up >= down {
        let e = (up - down) as nat;
        lemma_pow2_adds(e, down);
        lemma_encode_scaled(n * pow2(e), 1, pow2(down), p);
        assert((n * pow2(e)) * pow2(down) == n * pow2(up)) by (nonlinear_arith)
            requires
                pow2(up) == pow2(e) * pow2(down),
        ;
        assert(1 * pow2(down) == pow2(down));
    } else {
        let e = (down - up) as nat;
        lemma_pow2_adds(e, up);
        lemma_pow2_pos(e);
        lemma_encode_scaled(n, pow2(e), pow2(up), p);
    }
}

/// Equal quotients are rounded alike.
pub proof fn lemma_encode_equal(n1: nat, d1: nat, n2: nat, d2: nat, p: nat)
    requires
        d1 > 0,
        d2 > 0,
        p > 0,
        n1 * d2 == n2 * d1,
    ensures
        encode(n1, d1, p) == encode(n2, d2, p),
{
    lemma_encode_monotone(n1, d1, n2, d2, p);
    lemma_encode_monotone(n2, d2, n1, d1, p);
}

/// `n / 2^t` rounded to the nearest integer.
fn nearest_power(n: u128, t: u32) -> (r: u128)
    requires
        t < 127,
        n < pow2(126),
    ensures
        r == nearest(n as nat, pow2(t as nat)),
{
    let w = power_of_two(t);
    proof {
        lemma_u128_shr_is_div(n, t as u128);
        assert(n >> t == n >> (t as u128)) by (bit_vector)
            requires
                t < 127,
        ;
        lemma_pow2_pos(t as nat);
        lemma_fundamental_div_mod(n as int, w as int);
        lemma_pow2_adds(63, 63);
        lemma2_to64_rest();
        let q = n as nat / (w as nat);
        assert(q * w == w * q) by (nonlinear_arith);
        assert(q <= n) by (nonlinear_arith)
            requires
                n == w * q + n as nat % (w as nat),
                w >= 1,
                q >= 0,
        ;
    }
    let q: u128 = n >> t;
    let r: u128 = n - q * w;
    proof {
        if t < 126 {
            lemma_pow2_strictly_increases(t as nat, 126);
        }
        assert(q * w + r == n);
    }
    if 2 * r > w || (2 * r == w && q % 2 == 1) {
        q + 1
    } else {
        q
    }
}

/// The bit pattern of the representable magnitude nearest to `sig * 2^exp` units.
pub fn round_magnitude(sig: u128, exp: i32, p: u32) -> (r: u64)
    requires
        0 < p <= 53,
        sig < pow2(126),
        -3900 <= exp <= 3900,
    ensures
        r == encode(scaled_num(sig as nat, exp as int), scaled_den(exp as int), p as nat),
{
    let ghost n = scaled_num(sig as nat, exp as int);
    let ghost d = scaled_den(exp as int);
    proof {
        lemma_pow2_pos(p as nat);
        if exp < 0 {
            lemma_pow2_pos((-exp) as nat);
        }
    }
    if sig == 0 {
        proof {
            if exp >= 0 {
                assert(0 * pow2(exp as nat) == 0);
            }
            assert(0 < d * pow2(p as nat)) by (nonlinear_arith)
                requires
                    d > 0,
                    pow2(p as nat) > 0,
            ;
            assert(0 * d == 0);
            lemma_nearest_exact(0, d);
        }
        return 0;
    }
    let len = bit_length(sig);
    proof {
        if len > 127 {
            lemma_pow2_strictly_increases(126, (len - 1) as nat);
        }
    }
    let top: i32 = len as i32 + exp;
    let k: i32 = if top > p as i32 {
        top - p as i32
    } else {
        0
    };
    let t: i32 = k - exp;
    proof {
        lemma_pow2_pos(p as nat);
        lemma_pow2_unfold(p as nat);
        lemma2_to64_rest();
        if p < 53 {
            lemma_pow2_strictly_increases(p as nat, 53);
        }
    }
    let m: u128 = if t < 0 {
        let w = power_of_two((-t) as u32);
        proof {
            let e = exp as nat;
            let u = pow2(k as nat);
            lemma_bracket(sig as nat, 1, len as nat, exp as int, p as nat, k as nat);
            lemma_encode_closed(n, d, p as nat, k as nat);
            lemma_pow2_adds((-t) as nat, k as nat);
            assert((-t) as nat + k as nat == e);
            lemma_pow2_pos(k as nat);
            lemma_pow2_adds(p as nat, k as nat);
            assert(sig * pow2(e) == (sig * w) * u && sig * w < pow2(p as nat))
                by (nonlinear_arith)
                requires
                    pow2(e) == w * u,
                    sig * pow2(e) < pow2(p as nat) * u,
                    u > 0,
            ;
            lemma_nearest_exact((sig * w) as nat, u);
            assert(1 * u == u);
        }
        sig * w
    } else {
        proof {
            lemma_encode_cut(sig as nat, 1, len as nat, exp as int, p as nat, k as nat, t as nat);
            assert(1 * d == d && 1 * pow2(t as nat) == pow2(t as nat));
            // The rounded significand is at most 2^p.
            lemma_pow2_pos(t as nat);
            lemma_pow2_adds(p as nat, t as nat);
            if len < p + t {
                lemma_pow2_strictly_increases(len as nat, (p + t) as nat);
            }
            lemma_nearest_monotone(
                sig as nat,
                pow2(p as nat) * pow2(t as nat),
                pow2(t as nat),
            );
            lemma_nearest_exact(pow2(p as nat), pow2(t as nat));
        }
        if t >= 127 {
            proof {
                lemma_pow2_unfold(127);
                if t > 127 {
                    lemma_pow2_strictly_increases(127, t as nat);
                }
                lemma_fundamental_div_mod_converse(
                    sig as int,
                    pow2(t as nat) as int,
                    0,
                    sig as int,
                );
            }
            0
        } else {
            nearest_power(sig, t as u32)
        }
    };
    let h: u64 = power_of_two(p - 1) as u64;
    assert(k * h <= 4027 * 0x10000000000000) by (nonlinear_arith)
        requires
            0 <= k <= 4027,
            0 <= h <= 0x10000000000000,
    ;
    k as u64 * h + m as u64
}

} // verus!
