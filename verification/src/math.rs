//! Single-precision numbers and 3-vectors, carried as bit patterns.
//!
//! The simulation core never does arithmetic on these values: it stores
//! them, compares them with zero and puts them on the wire. A number is
//! therefore held as the 32 bits of its IEEE-754 encoding.

use vstd::arithmetic::div_mod::lemma_basic_div;
use vstd::arithmetic::power2::{
    lemma2_to64, lemma_pow2_pos, lemma_pow2_strictly_increases, lemma_pow2_unfold, pow2,
};
use vstd::prelude::*;

verus! {

/// Bit pattern of positive zero.
pub const ZERO_BITS: u32 = 0;

/// Bit pattern of negative zero.
pub const NEG_ZERO_BITS: u32 = 0x8000_0000;

/// A single-precision number, held as its IEEE-754 bit pattern.
#[derive(Copy, Clone, Eq, PartialEq, Debug, Structural)]
pub struct Scalar(pub u32);

impl Scalar {
    /// Whether the number compares equal to zero: positive and negative
    /// zero both do, and nothing else does.
    pub open spec fn is_zero_spec(self) -> bool {
        self.0 == ZERO_BITS || self.0 == NEG_ZERO_BITS
    }

    pub fn from_bits(bits: u32) -> (s: Scalar)
        ensures
            s == Scalar(bits),
    {
        Scalar(bits)
    }

    pub fn to_bits(self) -> (bits: u32)
        ensures
            bits == self.0,
    {
        self.0
    }

    #[verifier::when_used_as_spec(is_zero_spec)]
    pub fn is_zero(self) -> (r: bool)
        ensures
            r == self.is_zero_spec(),
    {
        self.0 == ZERO_BITS || self.0 == NEG_ZERO_BITS
    }
}

/// `m * 2^e`, rounded down to a whole number.
pub open spec fn scaled_floor(m: int, e: int) -> int {
    if e >= 0 {
        m * pow2(e as nat)
    } else {
        m / (pow2((-e) as nat) as int)
    }
}

/// `m * 2^e`, rounded up to a whole number.
pub open spec fn scaled_ceil(m: int, e: int) -> int {
    if e >= 0 {
        m * pow2(e as nat)
    } else {
        (m + pow2((-e) as nat) - 1) / (pow2((-e) as nat) as int)
    }
}

impl Scalar {
    /// Whether the sign bit is set.
    pub open spec fn is_negative(self) -> bool {
        self.0 >= 0x8000_0000
    }

    /// The eight exponent bits.
    pub open spec fn exponent(self) -> int {
        ((self.0 / 0x80_0000) % 256) as int
    }

    /// The twenty-three fraction bits.
    pub open spec fn fraction(self) -> int {
        (self.0 % 0x80_0000) as int
    }

    /// The whole number `m` such that the magnitude of a finite value is
    /// `m * 2^scale`.
    pub open spec fn significand(self) -> int {
        if self.exponent() == 0 {
            self.fraction()
        } else {
            self.fraction() + 0x80_0000
        }
    }

    /// The power of two that the significand of a finite value is
    /// multiplied by.
    pub open spec fn scale(self) -> int {
        if self.exponent() == 0 {
            -149
        } else {
            self.exponent() - 150
        }
    }

    /// The value divided by 32 in single precision, rounded down, and
    /// converted to a 32-bit integer as a cast converts: out-of-range
    /// values go to the nearest bound and a NaN goes to zero.
    ///
    /// Dividing a finite value by 32 is exact, except that a quotient
    /// of magnitude `2^-150` or less rounds to zero; rounding such a
    /// negative quotient down gives (negative) zero, not -1.
    pub open spec fn floor_div_32_spec(self) -> int {
        let m = self.significand();
        let e = self.scale() - 5;
        if self.exponent() == 255 {
            if self.fraction() != 0 {
                0
            } else if self.is_negative() {
                i32::MIN as int
            } else {
                i32::MAX as int
            }
        } else if !self.is_negative() {
            if scaled_floor(m, e) > i32::MAX {
                i32::MAX as int
            } else {
                scaled_floor(m, e)
            }
        } else if self.exponent() == 0 && self.fraction() <= 16 {
            0
        } else if scaled_ceil(m, e) > 0x8000_0000 {
            i32::MIN as int
        } else {
            -scaled_ceil(m, e)
        }
    }

    /// Computes [`Self::floor_div_32_spec`].
    pub fn floor_div_32(self) -> (r: i32)
        ensures
            r == self.floor_div_32_spec(),
    {
        let bits = self.0;
        let negative = bits >= 0x8000_0000;
        let exponent: u32 = (bits / 0x80_0000) % 256;
        let fraction: u32 = bits % 0x80_0000;
        if exponent == 255 {
            return if fraction != 0 {
                0
            } else if negative {
                i32::MIN
            } else {
                i32::MAX
            };
        }
        let m: i64 = if exponent == 0 {
            fraction as i64
        } else {
            fraction as i64 + 0x80_0000
        };
        if exponent >= 155 {
            let e: u32 = exponent - 155;
            if e >= 8 {
                proof {
                    lemma2_to64();
                    if e > 8 {
                        lemma_pow2_strictly_increases(8, e as nat);
                    }
                    assert(m * pow2(e as nat) >= 0x80_0000 * 256) by (nonlinear_arith)
                        requires
                            m >= 0x80_0000,
                            pow2(e as nat) >= 256,
                    ;
                }
                return if negative {
                    i32::MIN
                } else {
                    i32::MAX
                };
            }
            let p = pow2_small(e);
            proof {
                lemma2_to64();
                if e < 7 {
                    lemma_pow2_strictly_increases(e as nat, 7);
                }
                assert(0 <= m * p < 0x100_0000 * 128) by (nonlinear_arith)
                    requires
                        0 <= m < 0x100_0000,
                        0 < p <= 128,
                ;
            }
            let q: i64 = m * p;
            if negative {
                (-q) as i32
            } else {
                q as i32
            }
        } else {
            let s: u32 = if exponent == 0 {
                154
            } else {
                155 - exponent
            };
            if s >= 24 {
                proof {
                    lemma2_to64();
                    if s > 24 {
                        lemma_pow2_strictly_increases(24, s as nat);
                    }
                    let d = pow2(s as nat) as int;
                    lemma_basic_div(m as int, d);
                    if m > 0 {
                        assert((m + d - 1) / d == 1int) by (nonlinear_arith)
                            requires
                                0 < m < d,
                        ;
                    } else {
                        lemma_basic_div(d - 1, d);
                    }
                }
                if negative && !(exponent == 0 && fraction <= 16) {
                    -1
                } else {
                    0
                }
            } else {
                let d = pow2_small(s);
                proof {
                    lemma2_to64();
                    lemma_pow2_pos(s as nat);
                    if s < 23 {
                        lemma_pow2_strictly_increases(s as nat, 23);
                    }
                    assert(0 <= (m + d - 1) / (d as int) <= m) by (nonlinear_arith)
                        requires
                            0 <= m,
                            1 <= d,
                    ;
                }
                if negative {
                    if exponent == 0 && fraction <= 16 {
                        0
                    } else {
                        (-((m + d - 1) / d)) as i32
                    }
                } else {
                    (m / d) as i32
                }
            }
        }
    }
}

/// Two to the power `n`, for a small `n`.
fn pow2_small(n: u32) -> (r: i64)
    requires
        n < 32,
    ensures
        r == pow2(n as nat),
        0 < r,
{
    let mut r: i64 = 1;
    let mut i: u32 = 0;
    proof {
        lemma2_to64();
    }
    while i < n
        invariant
            i <= n < 32,
            r == pow2(i as nat),
            0 < r <= 0x8000_0000,
        decreases n - i,
    {
        proof {
            lemma_pow2_unfold((i + 1) as nat);
            lemma2_to64();
            if i + 1 < 31 {
                lemma_pow2_strictly_increases((i + 1) as nat, 31);
            }
        }
        r = r * 2;
        i += 1;
    }
    r
}

/// A 3-vector of single-precision numbers.
#[derive(Copy, Clone, Eq, PartialEq, Debug, Structural)]
pub struct Vec3 {
    pub x: Scalar,
    pub y: Scalar,
    pub z: Scalar,
}

impl Vec3 {
    /// Whether every component compares equal to zero.
    pub open spec fn is_zero_spec(self) -> bool {
        self.x.is_zero_spec() && self.y.is_zero_spec() && self.z.is_zero_spec()
    }

    pub fn new(x: Scalar, y: Scalar, z: Scalar) -> (v: Vec3)
        ensures
            v == (Vec3 { x, y, z }),
    {
        Vec3 { x, y, z }
    }

    /// The vector whose components are all positive zero.
    pub fn zero() -> (v: Vec3)
        ensures
            v == (Vec3 { x: Scalar(ZERO_BITS), y: Scalar(ZERO_BITS), z: Scalar(ZERO_BITS) }),
            v.is_zero_spec(),
    {
        Vec3 { x: Scalar(ZERO_BITS), y: Scalar(ZERO_BITS), z: Scalar(ZERO_BITS) }
    }

    #[verifier::when_used_as_spec(is_zero_spec)]
    pub fn is_zero(self) -> (r: bool)
        ensures
            r == self.is_zero_spec(),
    {
        self.x.is_zero() && self.y.is_zero() && self.z.is_zero()
    }
}

} // verus!
