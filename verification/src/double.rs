//! Double-precision numbers, as IEEE 754 lays them out in 64 bits.
use crate::float::{
    add_rounded, divide_rounded, multiply_rounded, parts, product, quotient, round_scaled, rounded,
    sum, Binary, WIDE, WIDE_INFINITY,
};
use crate::rounding::{power_of_two, units};
use vstd::arithmetic::div_mod::{lemma_fundamental_div_mod, lemma_fundamental_div_mod_converse};
use vstd::arithmetic::power2::{
    lemma2_to64, lemma2_to64_rest, lemma_pow2_adds, lemma_pow2_pos, lemma_pow2_strictly_increases,
    pow2,
};
use vstd::prelude::*;

verus! {

/// The highest of the 64 bits is the sign.
pub const SIGN: u64 = 0x8000_0000_0000_0000;

/// A double-precision number. Equality is that of the bits; `lt` and `le` compare the numbers.
#[derive(Clone, Copy, PartialEq, Eq, Structural, Debug)]
pub struct Double {
    pub bits: u64,
}

/// `n`, or the nearest end of the range of `i32`.
pub open spec fn saturated(n: int) -> i32 {
    if n < i32::MIN {
        i32::MIN
    } else if n > i32::MAX {
        i32::MAX
    } else {
        n as i32
    }
}

impl Double {
    pub open spec fn spec_from_bits(bits: u64) -> Double {
        Double { bits }
    }

    /// The number with the given bits.
    #[verifier::when_used_as_spec(spec_from_bits)]
    pub fn from_bits(bits: u64) -> (r: Double)
        ensures
            r == Double::from_bits(bits),
            r.bits == bits,
    {
        Double { bits }
    }

    pub open spec fn binary(self) -> Binary {
        Binary {
            negative: self.bits >= SIGN,
            magnitude: if self.bits >= SIGN {
                (self.bits - SIGN) as u64
            } else {
                self.bits
            },
        }
    }

    pub open spec fn of_binary(b: Binary) -> Double {
        Double { bits: if b.negative { (b.magnitude + SIGN) as u64 } else { b.magnitude } }
    }

    /// A finite number, in units of `2^-1074`.
    pub open spec fn value(self) -> int {
        self.binary().value(WIDE)
    }

    pub open spec fn is_finite(self) -> bool {
        self.binary().is_finite(WIDE)
    }

    /// Where a number stands in the order of all numbers.
    pub open spec fn rank(self) -> int {
        if self.bits >= SIGN {
            SIGN - self.bits
        } else {
            self.bits as int
        }
    }

    pub(crate) fn to_binary(self) -> (r: Binary)
        ensures
            r == self.binary(),
            r.magnitude < SIGN,
    {
        if self.bits >= SIGN {
            Binary { negative: true, magnitude: self.bits - SIGN }
        } else {
            Binary { negative: false, magnitude: self.bits }
        }
    }

    fn from_binary(b: Binary) -> (r: Double)
        requires
            b.magnitude < SIGN,
        ensures
            r == Double::of_binary(b),
    {
        if b.negative {
            Double { bits: b.magnitude + SIGN }
        } else {
            Double { bits: b.magnitude }
        }
    }

    pub open spec fn spec_is_nan(self) -> bool {
        self.binary().is_nan(WIDE)
    }

    #[verifier::when_used_as_spec(spec_is_nan)]
    pub fn is_nan(self) -> (r: bool)
        ensures
            r == self.is_nan(),
    {
        self.to_binary().magnitude > WIDE_INFINITY
    }

    #[verifier::opaque]
    pub open spec fn spec_add(self, other: Double) -> Double {
        Double::of_binary(sum(self.binary(), other.binary(), WIDE))
    }

    /// The sum, rounded.
    #[verifier::when_used_as_spec(spec_add)]
    pub fn add(self, other: Double) -> (r: Double)
        ensures
            r == self.add(other),
    {
        reveal(Double::spec_add);
        Double::from_binary(add_rounded(self.to_binary(), other.to_binary(), WIDE))
    }

    #[verifier::opaque]
    pub open spec fn spec_neg(self) -> Double {
        Double {
            bits: if self.bits >= SIGN {
                (self.bits - SIGN) as u64
            } else {
                (self.bits + SIGN) as u64
            },
        }
    }

    /// The number with the other sign.
    #[verifier::when_used_as_spec(spec_neg)]
    pub fn neg(self) -> (r: Double)
        ensures
            r == self.neg(),
    {
        reveal(Double::spec_neg);
        if self.bits >= SIGN {
            Double { bits: self.bits - SIGN }
        } else {
            Double { bits: self.bits + SIGN }
        }
    }

    pub open spec fn spec_sub(self, other: Double) -> Double {
        self.add(other.neg())
    }

    /// The difference, rounded.
    #[verifier::when_used_as_spec(spec_sub)]
    pub fn sub(self, other: Double) -> (r: Double)
        ensures
            r == self.sub(other),
    {
        self.add(other.neg())
    }

    #[verifier::opaque]
    pub open spec fn spec_mul(self, other: Double) -> Double {
        Double::of_binary(product(self.binary(), other.binary(), WIDE))
    }

    /// The product, rounded.
    #[verifier::when_used_as_spec(spec_mul)]
    pub fn mul(self, other: Double) -> (r: Double)
        ensures
            r == self.mul(other),
    {
        reveal(Double::spec_mul);
        Double::from_binary(multiply_rounded(self.to_binary(), other.to_binary(), WIDE))
    }

    #[verifier::opaque]
    pub open spec fn spec_div(self, other: Double) -> Double {
        Double::of_binary(quotient(self.binary(), other.binary(), WIDE))
    }

    /// The quotient, rounded.
    #[verifier::when_used_as_spec(spec_div)]
    pub fn div(self, other: Double) -> (r: Double)
        ensures
            r == self.div(other),
    {
        reveal(Double::spec_div);
        Double::from_binary(divide_rounded(self.to_binary(), other.to_binary(), WIDE))
    }

    #[verifier::opaque]
    pub open spec fn spec_abs(self) -> Double {
        Double { bits: self.binary().magnitude }
    }

    /// The number without its sign.
    #[verifier::when_used_as_spec(spec_abs)]
    pub fn abs(self) -> (r: Double)
        ensures
            r == self.abs(),
    {
        reveal(Double::spec_abs);
        Double { bits: self.to_binary().magnitude }
    }

    #[verifier::opaque]
    pub open spec fn spec_lt(self, other: Double) -> bool {
        !self.is_nan() && !other.is_nan() && self.rank() < other.rank()
    }

    /// Whether this number is less than the other. Nothing is less than what is not a number.
    #[verifier::when_used_as_spec(spec_lt)]
    pub fn lt(self, other: Double) -> (r: bool)
        ensures
            r == self.lt(other),
    {
        reveal(Double::spec_lt);
        if self.is_nan() || other.is_nan() {
            false
        } else if self.bits >= SIGN {
            if other.bits >= SIGN {
                self.bits > other.bits
            } else {
                self.bits > SIGN || other.bits > 0
            }
        } else {
            other.bits < SIGN && self.bits < other.bits
        }
    }

    #[verifier::opaque]
    pub open spec fn spec_le(self, other: Double) -> bool {
        !self.is_nan() && !other.is_nan() && self.rank() <= other.rank()
    }

    /// Whether this number is at most the other.
    #[verifier::when_used_as_spec(spec_le)]
    pub fn le(self, other: Double) -> (r: bool)
        ensures
            r == self.le(other),
    {
        proof {
            reveal(Double::spec_le);
            reveal(Double::spec_lt);
        }
        !self.is_nan() && !other.is_nan() && !other.lt(self)
    }

    pub open spec fn spec_max(self, other: Double) -> Double {
        if self.is_nan() || self.lt(other) {
            other
        } else {
            self
        }
    }

    /// The larger number; of a number and what is not a number, the number.
    #[verifier::when_used_as_spec(spec_max)]
    pub fn max(self, other: Double) -> (r: Double)
        ensures
            r == self.max(other),
    {
        if self.is_nan() || self.lt(other) {
            other
        } else {
            self
        }
    }

    pub open spec fn spec_clamp(self, low: Double, high: Double) -> Double {
        if self.lt(low) {
            low
        } else if high.lt(self) {
            high
        } else {
            self
        }
    }

    /// The number, or the end of the range that it lies beyond.
    #[verifier::when_used_as_spec(spec_clamp)]
    pub fn clamp(self, low: Double, high: Double) -> (r: Double)
        requires
            low.le(high),
        ensures
            r == self.clamp(low, high),
    {
        if self.lt(low) {
            low
        } else if high.lt(self) {
            high
        } else {
            self
        }
    }

    #[verifier::opaque]
    pub open spec fn spec_from_i32(n: i32) -> Double {
        Double::of_binary(
            rounded(n < 0, (if n < 0 { -n } else { n as int }) as nat * pow2(1074), 1, WIDE),
        )
    }

    /// An integer as a number.
    #[verifier::when_used_as_spec(spec_from_i32)]
    pub fn from_i32(n: i32) -> (r: Double)
        ensures
            r == Double::from_i32(n),
    {
        proof {
            reveal(Double::spec_from_i32);
            lemma2_to64();
            lemma_pow2_strictly_increases(32, 126);
        }
        let m: i64 = if n < 0 {
            -(n as i64)
        } else {
            n as i64
        };
        Double::from_binary(round_scaled(n < 0, m as u128, 1074, WIDE))
    }

    /// The number nearest to a count.
    #[verifier::opaque]
    pub open spec fn nearest_to(n: nat) -> Double {
        Double::of_binary(rounded(false, n * pow2(1074), 1, WIDE))
    }

    pub(crate) fn from_count(n: u128) -> (r: Double)
        requires
            n < pow2(126),
        ensures
            r == Double::nearest_to(n as nat),
    {
        reveal(Double::nearest_to);
        Double::from_binary(round_scaled(false, n, 1074, WIDE))
    }

    /// The largest integer that is not above a finite number.
    pub open spec fn floor(self) -> int {
        self.value() / pow2(1074) as int
    }

    /// The least integer that is not below a finite number.
    pub open spec fn ceil(self) -> int {
        -((-self.value()) / pow2(1074) as int)
    }

    /// The whole part of the magnitude, and whether a fraction is left over. Whole parts beyond
    /// the range of `u32` are only known to lie there.
    fn truncated(self) -> (r: (u64, bool))
        requires
            self.is_finite(),
        ensures
            ({
                let u = self.binary().units(WIDE);
                let w = pow2(1074);
                &&& r.0 <= u32::MAX ==> r.0 == u / w
                &&& r.0 > u32::MAX ==> u / w > u32::MAX
                &&& r.1 == (u % w != 0)
            }),
    {
        let (m, k) = parts(self.to_binary().magnitude, WIDE);
        let ghost u = self.binary().units(WIDE);
        let ghost w = pow2(1074);
        proof {
            lemma2_to64();
            lemma2_to64_rest();
            lemma_pow2_pos(1074);
            lemma_pow2_pos(k as nat);
        }
        if k >= 1074 {
            let s: u32 = k - 1074;
            proof {
                lemma_pow2_adds(s as nat, 1074);
                lemma_pow2_pos(s as nat);
                assert(u == (m * pow2(s as nat)) * w) by (nonlinear_arith)
                    requires
                        u == m * pow2(k as nat),
                        pow2(k as nat) == pow2(s as nat) * w,
                ;
                lemma_fundamental_div_mod_converse(
                    u as int,
                    w as int,
                    (m * pow2(s as nat)) as int,
                    0,
                );
                assert(m * pow2(s as nat) >= m) by (nonlinear_arith)
                    requires
                        pow2(s as nat) >= 1,
                ;
            }
            (m, false)
        } else {
            let t: u32 = 1074 - k;
            proof {
                lemma_pow2_adds(t as nat, k as nat);
                lemma_pow2_pos(t as nat);
                let x = pow2(t as nat);
                let v = pow2(k as nat);
                lemma_fundamental_div_mod(m as int, x as int);
                let a = m as nat / x;
                let c = m as nat % x;
                assert(u == a * w + c * v && 0 <= c * v < w && (c * v == 0 <==> c == 0))
                    by (nonlinear_arith)
                    requires
                        u == m * v,
                        m == x * a + c,
                        w == x * v,
                        0 <= c < x,
                        v > 0,
                ;
                lemma_fundamental_div_mod_converse(
                    u as int,
                    w as int,
                    a as int,
                    (c * v) as int,
                );
            }
            if t >= 64 {
                proof {
                    if t > 64 {
                        lemma_pow2_strictly_increases(64, t as nat);
                    }
                    lemma_fundamental_div_mod_converse(
                        m as int,
                        pow2(t as nat) as int,
                        0,
                        m as int,
                    );
                }
                (0, m != 0)
            } else {
                let x: u64 = power_of_two(t) as u64;
                proof {
                    lemma_pow2_strictly_increases(t as nat, 64);
                }
                (m / x, m % x != 0)
            }
        }
    }

    #[verifier::opaque]
    pub open spec fn spec_floor_i32(self) -> i32 {
        if self.is_nan() {
            0
        } else if self.is_finite() {
            saturated(self.floor())
        } else if self.bits >= SIGN {
            i32::MIN
        } else {
            i32::MAX
        }
    }

    /// The number rounded down, as an integer: 0 for what is not a number, and the end of the
    /// range for what lies beyond it.
    #[verifier::when_used_as_spec(spec_floor_i32)]
    pub fn floor_i32(self) -> (r: i32)
        ensures
            r == self.floor_i32(),
    {
        reveal(Double::spec_floor_i32);
        let b = self.to_binary();
        if b.magnitude > WIDE_INFINITY {
            0
        } else if b.magnitude == WIDE_INFINITY {
            if b.negative {
                i32::MIN
            } else {
                i32::MAX
            }
        } else {
            let (q, fraction) = self.truncated();
            proof {
                lemma_pow2_pos(1074);
                lemma_floor_of_negative(self.binary().units(WIDE), pow2(1074));
            }
            if b.negative {
                if q > 0x7fff_ffff {
                    i32::MIN
                } else if fraction {
                    (-(q as i64) - 1) as i32
                } else {
                    (-(q as i64)) as i32
                }
            } else if q > 0x7fff_ffff {
                i32::MAX
            } else {
                q as i32
            }
        }
    }

    #[verifier::opaque]
    pub open spec fn spec_ceil_i32(self) -> i32 {
        if self.is_nan() {
            0
        } else if self.is_finite() {
            saturated(self.ceil())
        } else if self.bits >= SIGN {
            i32::MIN
        } else {
            i32::MAX
        }
    }

    /// The number rounded up, as an integer: 0 for what is not a number, and the end of the range
    /// for what lies beyond it.
    #[verifier::when_used_as_spec(spec_ceil_i32)]
    pub fn ceil_i32(self) -> (r: i32)
        ensures
            r == self.ceil_i32(),
    {
        reveal(Double::spec_ceil_i32);
        let b = self.to_binary();
        if b.magnitude > WIDE_INFINITY {
            0
        } else if b.magnitude == WIDE_INFINITY {
            if b.negative {
                i32::MIN
            } else {
                i32::MAX
            }
        } else {
            let (q, fraction) = self.truncated();
            proof {
                lemma_pow2_pos(1074);
                lemma_floor_of_negative(self.binary().units(WIDE), pow2(1074));
            }
            if b.negative {
                if q > 0x7fff_ffff {
                    i32::MIN
                } else {
                    (-(q as i64)) as i32
                }
            } else if q >= 0x7fff_ffff {
                i32::MAX
            } else if fraction {
                (q + 1) as i32
            } else {
                q as i32
            }
        }
    }
}

/// Rounding the negative of a quotient down.
proof fn lemma_floor_of_negative(u: nat, w: nat)
    requires
        w > 0,
    ensures
        (-(u as int)) / (w as int) == if u % w == 0 {
            -((u / w) as int)
        } else {
            -((u / w) as int) - 1
        },
{
    let q = (u / w) as int;
    let r = (u % w) as int;
    lemma_fundamental_div_mod(u as int, w as int);
    if r == 0 {
        assert(-(u as int) == (-q) * w) by (nonlinear_arith)
            requires
                u == w * q,
        ;
        lemma_fundamental_div_mod_converse(-(u as int), w as int, -q, 0);
    } else {
        assert(-(u as int) == (-q - 1) * w + (w - r)) by (nonlinear_arith)
            requires
                u == w * q + r,
        ;
        lemma_fundamental_div_mod_converse(-(u as int), w as int, -q - 1, w - r);
    }
}

} // verus!
