//! Single-precision numbers, as IEEE 754 lays them out in 32 bits.
use crate::double::Double;
use crate::float::{
    add_rounded, lemma_units_positive, lemma_zero_units, multiply_rounded, not_a_number, parts,
    product, round_scaled, rounded, sum, Binary, NARROW, NARROW_INFINITY, WIDE, WIDE_INFINITY,
};
use crate::rounding::{
    lemma_encode_exact, lemma_encode_scaled, lemma_encode_shifted, lemma_encode_units,
    lemma_nearest_exact, lemma_units_of_parts, power_of_two, units,
};
use vstd::arithmetic::div_mod::{lemma_fundamental_div_mod, lemma_fundamental_div_mod_converse};
use vstd::arithmetic::power2::{
    lemma2_to64, lemma2_to64_rest, lemma_pow2_adds, lemma_pow2_pos, lemma_pow2_strictly_increases,
    pow2,
};
use vstd::prelude::*;

verus! {

/// The highest of the 32 bits is the sign.
pub const SINGLE_SIGN: u32 = 0x8000_0000;

/// A single-precision number. Equality is that of the bits.
#[derive(Clone, Copy, PartialEq, Eq, Structural, Debug)]
pub struct Single {
    pub bits: u32,
}

impl Single {
    pub open spec fn binary(self) -> Binary {
        Binary {
            negative: self.bits >= SINGLE_SIGN,
            magnitude: if self.bits >= SINGLE_SIGN {
                (self.bits - SINGLE_SIGN) as u64
            } else {
                self.bits as u64
            },
        }
    }

    pub open spec fn of_binary(b: Binary) -> Single {
        Single {
            bits: if b.negative {
                (b.magnitude + SINGLE_SIGN) as u32
            } else {
                b.magnitude as u32
            },
        }
    }

    fn to_binary(self) -> (r: Binary)
        ensures
            r == self.binary(),
            r.magnitude < SINGLE_SIGN,
    {
        if self.bits >= SINGLE_SIGN {
            Binary { negative: true, magnitude: (self.bits - SINGLE_SIGN) as u64 }
        } else {
            Binary { negative: false, magnitude: self.bits as u64 }
        }
    }

    fn from_binary(b: Binary) -> (r: Single)
        requires
            b.magnitude < SINGLE_SIGN,
        ensures
            r == Single::of_binary(b),
    {
        if b.negative {
            Single { bits: b.magnitude as u32 + SINGLE_SIGN }
        } else {
            Single { bits: b.magnitude as u32 }
        }
    }

    #[verifier::opaque]
    pub open spec fn spec_add(self, other: Single) -> Single {
        Single::of_binary(sum(self.binary(), other.binary(), NARROW))
    }

    /// The sum, rounded.
    #[verifier::when_used_as_spec(spec_add)]
    pub fn add(self, other: Single) -> (r: Single)
        ensures
            r == self.add(other),
    {
        reveal(Single::spec_add);
        Single::from_binary(add_rounded(self.to_binary(), other.to_binary(), NARROW))
    }

    #[verifier::opaque]
    pub open spec fn spec_neg(self) -> Single {
        Single {
            bits: if self.bits >= SINGLE_SIGN {
                (self.bits - SINGLE_SIGN) as u32
            } else {
                (self.bits + SINGLE_SIGN) as u32
            },
        }
    }

    /// The number with the other sign.
    #[verifier::when_used_as_spec(spec_neg)]
    pub fn neg(self) -> (r: Single)
        ensures
            r == self.neg(),
    {
        reveal(Single::spec_neg);
        if self.bits >= SINGLE_SIGN {
            Single { bits: self.bits - SINGLE_SIGN }
        } else {
            Single { bits: self.bits + SINGLE_SIGN }
        }
    }

    pub open spec fn spec_sub(self, other: Single) -> Single {
        self.add(other.neg())
    }

    /// The difference, rounded.
    #[verifier::when_used_as_spec(spec_sub)]
    pub fn sub(self, other: Single) -> (r: Single)
        ensures
            r == self.sub(other),
    {
        self.add(other.neg())
    }

    #[verifier::opaque]
    pub open spec fn spec_mul(self, other: Single) -> Single {
        Single::of_binary(product(self.binary(), other.binary(), NARROW))
    }

    /// The product, rounded.
    #[verifier::when_used_as_spec(spec_mul)]
    pub fn mul(self, other: Single) -> (r: Single)
        ensures
            r == self.mul(other),
    {
        reveal(Single::spec_mul);
        Single::from_binary(multiply_rounded(self.to_binary(), other.to_binary(), NARROW))
    }

    #[verifier::opaque]
    pub open spec fn spec_from_double(x: Double) -> Single {
        let b = x.binary();
        Single::of_binary(
            if b.is_nan(WIDE) {
                not_a_number(NARROW)
            } else if b.is_infinite(WIDE) {
                Binary { negative: b.negative, magnitude: NARROW_INFINITY }
            } else {
                // A unit of the wide format is 2^-925 units of the narrow one.
                rounded(b.negative, b.units(WIDE), pow2(925), NARROW)
            },
        )
    }

    /// The single-precision number nearest to a double-precision one.
    #[verifier::when_used_as_spec(spec_from_double)]
    pub fn from_double(x: Double) -> (r: Single)
        ensures
            r == Single::from_double(x),
    {
        reveal(Single::spec_from_double);
        let b = x.to_binary();
        if b.magnitude > WIDE_INFINITY {
            Single { bits: 0x7fc0_0000 }
        } else if b.magnitude == WIDE_INFINITY {
            Single::from_binary(Binary { negative: b.negative, magnitude: NARROW_INFINITY })
        } else {
            let (m, k) = parts(b.magnitude, WIDE);
            proof {
                lemma_pow2_strictly_increases(53, 126);
                lemma_encode_shifted(m as nat, k as nat, 925, NARROW as nat);
            }
            Single::from_binary(round_scaled(b.negative, m as u128, k as i32 - 925, NARROW))
        }
    }

    #[verifier::opaque]
    pub open spec fn spec_from_u8(n: u8) -> Single {
        Single::of_binary(rounded(false, n as nat * pow2(149), 1, NARROW))
    }

    /// A byte as a number.
    #[verifier::when_used_as_spec(spec_from_u8)]
    pub fn from_u8(n: u8) -> (r: Single)
        ensures
            r == Single::from_u8(n),
    {
        proof {
            reveal(Single::spec_from_u8);
            lemma2_to64();
            lemma_pow2_strictly_increases(8, 126);
        }
        Single::from_binary(round_scaled(false, n as u128, 149, NARROW))
    }

    /// The integer nearest to a finite magnitude; halfway cases go up.
    pub open spec fn half_up(self) -> nat {
        let w = pow2(149);
        let u = self.binary().units(NARROW);
        u / w + (if 2 * (u % w) >= w { 1nat } else { 0nat })
    }

    #[verifier::opaque]
    pub open spec fn spec_round_u8(self) -> u8 {
        let b = self.binary();
        if b.is_nan(NARROW) || b.negative {
            0
        } else if b.is_infinite(NARROW) || self.half_up() > 255 {
            255
        } else {
            self.half_up() as u8
        }
    }

    /// The number rounded to the nearest integer, halfway cases away from zero, as a byte: 0 for
    /// what is not a number, and the end of the range for what lies beyond it.
    #[verifier::when_used_as_spec(spec_round_u8)]
    pub fn round_u8(self) -> (r: u8)
        ensures
            r == self.round_u8(),
    {
        reveal(Single::spec_round_u8);
        let b = self.to_binary();
        if b.magnitude > NARROW_INFINITY || b.negative {
            return 0;
        }
        if b.magnitude == NARROW_INFINITY {
            return 255;
        }
        let (m, k) = parts(b.magnitude, NARROW);
        let ghost u = b.units(NARROW);
        let ghost w = pow2(149);
        proof {
            lemma2_to64();
            lemma2_to64_rest();
            lemma_pow2_pos(149);
            lemma_pow2_pos(k as nat);
        }
        if k >= 149 {
            proof {
                let s = (k - 149) as nat;
                crate::float::lemma_format_bounds(b.magnitude, NARROW);
                lemma_pow2_adds(s, 149);
                lemma_pow2_pos(s);
                assert(u == (m * pow2(s)) * w) by (nonlinear_arith)
                    requires
                        u == m * pow2(k as nat),
                        pow2(k as nat) == pow2(s) * w,
                ;
                lemma_fundamental_div_mod_converse(u as int, w as int, (m * pow2(s)) as int, 0);
                assert(m * pow2(s) >= m) by (nonlinear_arith)
                    requires
                        pow2(s) >= 1,
                ;
            }
            255
        } else {
            let t: u32 = 149 - k;
            proof {
                lemma_pow2_adds(t as nat, k as nat);
                lemma_pow2_pos(t as nat);
                let x = pow2(t as nat);
                let v = pow2(k as nat);
                lemma_fundamental_div_mod(m as int, x as int);
                let a = m as nat / x;
                let c = m as nat % x;
                assert(u == a * w + c * v && 0 <= c * v < w && (2 * (c * v) >= w <==> 2 * c >= x))
                    by (nonlinear_arith)
                    requires
                        u == m * v,
                        m == x * a + c,
                        w == x * v,
                        0 <= c < x,
                        v > 0,
                ;
                lemma_fundamental_div_mod_converse(u as int, w as int, a as int, (c * v) as int);
            }
            if t >= 64 {
                proof {
                    if t > 64 {
                        lemma_pow2_strictly_increases(64, t as nat);
                    }
                    lemma_fundamental_div_mod_converse(
                        m as int,
                        pow2(t as nat) as int,
                        0,
                        m as int,
                    );
                }
                0
            } else {
                let x: u128 = power_of_two(t);
                proof {
                    lemma_pow2_strictly_increases(t as nat, 64);
                }
                let q: u128 = m as u128 / x;
                let r: u128 = m as u128 % x;
                let n: u128 = if 2 * r >= x {
                    q + 1
                } else {
                    q
                };
                if n > 255 {
                    255
                } else {
                    n as u8
                }
            }
        }
    }
}

/// One.
pub open spec fn single_one() -> Single {
    Single { bits: 0x3f80_0000 }
}

/// Zero.
pub open spec fn single_zero() -> Single {
    Single { bits: 0 }
}

pub proof fn lemma_one_units()
    ensures
        units(0x3f80_0000, 24) == pow2(149),
{
    lemma2_to64();
    lemma_units_of_parts(0x80_0000, 126, 24);
    lemma_pow2_adds(23, 126);
}

/// A byte is exact, and rounding it gives it back.
pub proof fn lemma_byte(n: u8)
    ensures
        Single::from_u8(n).bits < NARROW_INFINITY,
        Single::from_u8(n).round_u8() == n,
{
    reveal(Single::spec_from_u8);
    reveal(Single::spec_round_u8);
    lemma2_to64();
    lemma_encode_exact(n as nat, 149, 24);
    lemma_pow2_pos(149);
    lemma_fundamental_div_mod_converse(
        (n as nat * pow2(149)) as int,
        pow2(149) as int,
        n as int,
        0,
    );
}

/// One and zero in products and sums with a number that is finite and has no sign.
pub proof fn lemma_single_arithmetic(x: Single)
    requires
        x.bits < NARROW_INFINITY,
    ensures
        x.mul(single_one()) == x,
        x.mul(single_zero()) == single_zero(),
        single_zero().add(x) == x,
        x.add(single_zero()) == x,
        single_one().sub(single_one()) == single_zero(),
        single_one().sub(single_zero()) == single_one(),
{
    reveal(Single::spec_mul);
    reveal(Single::spec_add);
    reveal(Single::spec_neg);
    let b = x.bits as nat;
    let w = pow2(149);
    lemma_pow2_pos(149);
    lemma_one_units();
    lemma_zero_units(NARROW);
    lemma_encode_units(b, 24);
    lemma_encode_units(0x3f80_0000, 24);
    lemma_encode_scaled(units(b, 24), 1, w, 24);
    assert(1 * w == w);
    if x.bits > 0 {
        lemma_units_positive(x.bits as u64, NARROW);
    }
    assert(units(b, 24) * 0 == 0);
    lemma_pow2_pos(24);
    assert(0 < w * pow2(24)) by (nonlinear_arith)
        requires
            w > 0,
            pow2(24) > 0,
    ;
    assert(0 * w == 0);
    lemma_nearest_exact(0, w);
}

} // verus!
