//! IEEE 754 binary64 numbers, carried as their encodings and computed with
//! integers, so that a decoded raster does not depend on the floating-point unit.
//!
//! Arithmetic rounds to nearest, ties to even.  The standard leaves open which NaN
//! an operation returns: here it is the first NaN operand with its quiet bit set.
use vstd::arithmetic::div_mod::*;
use vstd::arithmetic::mul::*;
use vstd::arithmetic::power2::*;
use vstd::prelude::*;

use crate::rounding;

verus! {

/// The sign bit of a binary64 encoding.
pub const SIGN: u64 = 0x8000_0000_0000_0000;

/// The binary64 encoding of positive infinity.
pub const INFINITY: u64 = 0x7ff0_0000_0000_0000;

/// The quiet bit of a binary64 NaN.
pub const QUIET: u64 = 0x8_0000_0000_0000;

/// The sign bit of a binary32 encoding.
pub const SIGN32: u32 = 0x8000_0000;

/// The binary32 encoding of positive infinity.
pub const INFINITY32: u32 = 0x7f80_0000;

/// The quiet bit of a binary32 NaN.
pub const QUIET32: u32 = 0x40_0000;

/// A binary64 number, given by its encoding.
///
/// `==` compares encodings; `equals` compares numbers.
#[derive(Clone, Copy, Debug, PartialEq, Eq, Structural)]
pub struct Binary64 {
    pub bits: u64,
}

/// The magnitude of an integer.
pub open spec fn abs(n: int) -> nat {
    if n < 0 {
        (-n) as nat
    } else {
        n as nat
    }
}

impl Binary64 {
    /// The sign and the magnitude encoding together.
    pub open spec fn with_sign(negative: bool, encoding: nat) -> Binary64 {
        Binary64 {
            bits: (if negative {
                encoding + SIGN
            } else {
                encoding as int
            }) as u64,
        }
    }

    /// The number nearest to a signed magnitude in units of 2^-1074.
    pub open spec fn rounded(negative: bool, x: nat) -> Binary64 {
        Binary64::with_sign(negative, rounding::nearest(x, 53, 0, INFINITY as nat))
    }

    pub open spec fn negative(self) -> bool {
        self.bits >= SIGN
    }

    /// The encoding without its sign.
    pub open spec fn encoding(self) -> nat {
        (if self.bits >= SIGN {
            self.bits - SIGN
        } else {
            self.bits as int
        }) as nat
    }

    pub open spec fn is_nan(self) -> bool {
        self.encoding() > INFINITY
    }

    pub open spec fn is_infinite(self) -> bool {
        self.encoding() == INFINITY
    }

    pub open spec fn is_finite(self) -> bool {
        self.encoding() < INFINITY
    }

    /// The magnitude of a finite number in units of 2^-1074.
    pub open spec fn magnitude(self) -> nat {
        rounding::magnitude(self.encoding(), 53, 0)
    }

    /// A finite number in units of 2^-1074.
    pub open spec fn units(self) -> int {
        if self.negative() {
            -(self.magnitude() as int)
        } else {
            self.magnitude() as int
        }
    }

    /// The NaN that has the sign and the payload of this one and does not signal.
    pub open spec fn quieted(self) -> Binary64 {
        if (self.encoding() - INFINITY) < QUIET {
            Binary64 { bits: (self.bits + QUIET) as u64 }
        } else {
            self
        }
    }

    /// The NaN of an operation without a result.
    pub open spec fn invalid() -> Binary64 {
        Binary64 { bits: 0x7ff8_0000_0000_0000 }
    }

    /// The place of a number, an infinity among them, in the order of the numbers;
    /// the two zeros share theirs.
    pub open spec fn rank(self) -> int {
        if self.negative() {
            -(self.encoding() as int)
        } else {
            self.encoding() as int
        }
    }

    /// Whether two encodings stand for the same number.
    pub open spec fn equals_spec(self, other: Binary64) -> bool {
        !self.is_nan() && !other.is_nan() && self.rank() == other.rank()
    }

    /// The smaller of two numbers, the first of two equal ones, and the other one
    /// where one of them is a NaN.
    pub open spec fn lesser_spec(self, other: Binary64) -> Binary64 {
        if self.is_nan() {
            other
        } else if other.is_nan() {
            self
        } else if other.rank() < self.rank() {
            other
        } else {
            self
        }
    }

    /// The sum of two numbers.
    pub open spec fn plus_spec(self, other: Binary64) -> Binary64 {
        if self.is_nan() {
            self.quieted()
        } else if other.is_nan() {
            other.quieted()
        } else if self.is_infinite() {
            if other.is_infinite() && self.negative() != other.negative() {
                Binary64::invalid()
            } else {
                self
            }
        } else if other.is_infinite() {
            other
        } else {
            let s = self.units() + other.units();
            let negative = if s == 0 {
                self.negative() && other.negative()
            } else {
                s < 0
            };
            Binary64::rounded(negative, abs(s))
        }
    }

    /// The product of a number and a natural number.
    pub open spec fn times_spec(self, q: nat) -> Binary64 {
        if self.is_nan() {
            self.quieted()
        } else if self.is_infinite() {
            if q == 0 {
                Binary64::invalid()
            } else {
                self
            }
        } else {
            Binary64::rounded(self.negative(), self.magnitude() * q)
        }
    }

    /// An integer as a binary64 number.
    pub open spec fn from_integer_spec(n: int) -> Binary64 {
        Binary64::rounded(n < 0, abs(n) * pow2(1074))
    }

    /// A number without its fractional part, brought into `low..=high`; a NaN gives
    /// zero.
    pub open spec fn to_integer_spec(self, low: int, high: int) -> int {
        let whole = (self.magnitude() / pow2(1074)) as int;
        let n = if self.negative() {
            -whole
        } else {
            whole
        };
        if self.is_nan() {
            0
        } else if self.is_infinite() {
            if self.negative() {
                low
            } else {
                high
            }
        } else if n < low {
            low
        } else if n > high {
            high
        } else {
            n
        }
    }

    /// A binary32 number, given by its encoding, as a binary64 number.
    pub open spec fn widened_spec(bits: u32) -> Binary64 {
        let negative = bits >= SIGN32;
        let encoding = (if negative {
            bits - SIGN32
        } else {
            bits as int
        }) as nat;
        if encoding > INFINITY32 {
            let payload = (encoding - INFINITY32) as nat;
            let quiet = if payload < QUIET32 {
                payload + QUIET32 as nat
            } else {
                payload
            };
            Binary64::with_sign(negative, INFINITY as nat + quiet * 0x2000_0000)
        } else if encoding == INFINITY32 {
            Binary64::with_sign(negative, INFINITY as nat)
        } else {
            Binary64::rounded(negative, rounding::magnitude(encoding, 24, 925))
        }
    }

    /// The encoding of the binary32 number nearest to a number.
    pub open spec fn narrowed_spec(self) -> u32 {
        let encoding = if self.is_nan() {
            INFINITY32 as nat + (self.quieted().encoding() - INFINITY) as nat / 0x2000_0000
        } else if self.is_infinite() {
            INFINITY32 as nat
        } else {
            rounding::nearest(self.magnitude(), 24, 925, INFINITY32 as nat)
        };
        (if self.negative() {
            encoding + SIGN32
        } else {
            encoding as int
        }) as u32
    }
}

impl Binary64 {
    /// The encoding without its sign.
    fn unsigned(self) -> (r: u64)
        ensures
            r == self.encoding(),
            r < SIGN,
    {
        if self.bits >= SIGN {
            self.bits - SIGN
        } else {
            self.bits
        }
    }

    /// A sign and an encoding put together.
    fn join(negative: bool, encoding: u64) -> (r: Binary64)
        requires
            encoding < SIGN,
        ensures
            r == Binary64::with_sign(negative, encoding as nat),
            r.negative() == negative,
            r.encoding() == encoding,
    {
        if negative {
            Binary64 { bits: encoding + SIGN }
        } else {
            Binary64 { bits: encoding }
        }
    }

    /// The significand and the power of two that make up a finite magnitude.
    fn split(self) -> (r: (u64, u32))
        requires
            self.is_finite(),
        ensures
            self.magnitude() == r.0 as nat * pow2(r.1 as nat),
            self.encoding() == r.1 * 0x10_0000_0000_0000 + r.0,
            r.0 < 0x20_0000_0000_0000,
            r.1 <= 2045,
            r.1 > 0 ==> r.0 >= 0x10_0000_0000_0000,
    {
        let u: u64 = self.unsigned();
        let exponent: u64 = u / 0x10_0000_0000_0000;
        let fraction: u64 = u % 0x10_0000_0000_0000;
        proof {
            lemma2_to64();
            lemma2_to64_rest();
            lemma_mul_basics(fraction as int);
            assert((53 - 1) as nat == 52);
        }
        if exponent == 0 {
            (fraction, 0)
        } else {
            proof {
                lemma_mul_basics((fraction + 0x10_0000_0000_0000) * pow2((exponent - 1) as nat));
            }
            (fraction + 0x10_0000_0000_0000, (exponent - 1) as u32)
        }
    }

    /// Whether two encodings stand for the same number.
    pub fn equals(self, other: Binary64) -> (r: bool)
        ensures
            r == self.equals_spec(other),
    {
        let a: u64 = self.unsigned();
        let b: u64 = other.unsigned();
        a <= INFINITY && b <= INFINITY && (self.bits == other.bits || (a == 0 && b == 0))
    }

    /// The smaller of two numbers (see `lesser_spec`).
    pub fn lesser(self, other: Binary64) -> (r: Binary64)
        ensures
            r == self.lesser_spec(other),
    {
        let a: u64 = self.unsigned();
        let b: u64 = other.unsigned();
        if a > INFINITY {
            return other;
        }
        if b > INFINITY {
            return self;
        }
        let below: bool = if self.bits >= SIGN {
            other.bits >= SIGN && b > a
        } else if other.bits >= SIGN {
            a > 0 || b > 0
        } else {
            b < a
        };
        if below {
            other
        } else {
            self
        }
    }

    /// The NaN that has the sign and the payload of this one and does not signal.
    fn quiet(self) -> (r: Binary64)
        requires
            self.is_nan(),
        ensures
            r == self.quieted(),
    {
        if self.unsigned() - INFINITY < QUIET {
            Binary64 { bits: self.bits + QUIET }
        } else {
            self
        }
    }

    /// The product of a number and a natural number.
    pub fn times(self, q: u32) -> (r: Binary64)
        ensures
            r == self.times_spec(q as nat),
    {
        let u: u64 = self.unsigned();
        if u > INFINITY {
            return self.quiet();
        }
        if u == INFINITY {
            if q == 0 {
                return Binary64 { bits: 0x7ff8_0000_0000_0000 };
            }
            return self;
        }
        let (m, k) = self.split();
        proof {
            assert(m * q < 0x20_0000_0000_0000 * 0x1_0000_0000) by (nonlinear_arith)
                requires
                    m < 0x20_0000_0000_0000,
                    q < 0x1_0000_0000,
            ;
            lemma2_to64();
            lemma2_to64_rest();
            lemma_pow2_adds(53, 32);
            lemma_pow2_strictly_increases(85, 120);
            let p = pow2(k as nat);
            assert((m * q) * p == (m * p) * q) by (nonlinear_arith);
        }
        let product: u128 = m as u128 * q as u128;
        Binary64::join(self.bits >= SIGN, rounding::round_to_nearest(product, k, 53, 0, INFINITY))
    }

    /// The sum of two finite numbers, the first of them not of a lower binade.
    fn plus_ordered(self, other: Binary64, a: (u64, u32), b: (u64, u32)) -> (r: Binary64)
        requires
            self.is_finite(),
            other.is_finite(),
            self.magnitude() == a.0 as nat * pow2(a.1 as nat),
            other.magnitude() == b.0 as nat * pow2(b.1 as nat),
            self.encoding() == a.1 * 0x10_0000_0000_0000 + a.0,
            a.0 < 0x20_0000_0000_0000,
            b.0 < 0x20_0000_0000_0000,
            b.1 <= a.1 <= 2045,
            a.1 > 0 ==> a.0 >= 0x10_0000_0000_0000,
        ensures
            r == self.plus_spec(other),
    {
        let same: bool = (self.bits >= SIGN) == (other.bits >= SIGN);
        let apart: u32 = a.1 - b.1;
        let ghost unit = pow2(b.1 as nat) as int;
        proof {
            lemma2_to64();
            lemma2_to64_rest();
            lemma_pow2_pos(b.1 as nat);
        }
        if apart > 64 {
            proof {
                lemma_pow2_adds(53, b.1 as nat);
                lemma_pow2_strictly_increases((53 + b.1) as nat, (a.1 - 3) as nat);
                let small = (b.0 * unit) as nat;
                assert(b.0 * unit < 0x20_0000_0000_0000 * unit) by (nonlinear_arith)
                    requires
                        b.0 < 0x20_0000_0000_0000,
                        unit > 0,
                ;
                assert(b.0 * unit >= 0) by (nonlinear_arith)
                    requires
                        b.0 >= 0,
                        unit > 0,
                ;
                rounding::lemma_absorbed(a.0 as nat, a.1 as nat, small, !same, INFINITY as nat);
                lemma_pow2_strictly_increases((a.1 - 3) as nat, a.1 as nat);
                let p = pow2(a.1 as nat) as int;
                assert(a.0 * p >= p) by (nonlinear_arith)
                    requires
                        a.0 >= 1,
                        p > 0,
                ;
            }
            self
        } else {
            proof {
                lemma_pow2_adds(apart as nat, b.1 as nat);
                let t = pow2(apart as nat) as int;
                assert(a.0 * (t * unit) == (a.0 * t) * unit) by (nonlinear_arith);
                if apart < 64 {
                    lemma_pow2_strictly_increases(apart as nat, 64);
                }
                lemma_pow2_pos(apart as nat);
                assert(0 <= a.0 * t < 0x20_0000_0000_0000 * 0x1_0000_0000_0000_0000) by (nonlinear_arith)
                    requires
                        0 <= a.0 < 0x20_0000_0000_0000,
                        0 < t <= 0x1_0000_0000_0000_0000,
                ;
                lemma_pow2_adds(53, 64);
                lemma_pow2_unfold(118);
                lemma_pow2_strictly_increases(118, 120);
            }
            let large: u128 = a.0 as u128 * rounding::power_of_two(apart);
            let small: u128 = b.0 as u128;
            proof {
                assert((large + small) * unit == large * unit + small * unit) by (nonlinear_arith);
                assert((large - small) * unit == large * unit - small * unit) by (nonlinear_arith);
                assert((small - large) * unit == small * unit - large * unit) by (nonlinear_arith);
                assert(large * unit >= 0) by (nonlinear_arith)
                    requires
                        large >= 0,
                        unit > 0,
                ;
                assert(small * unit >= 0) by (nonlinear_arith)
                    requires
                        small >= 0,
                        unit > 0,
                ;
                assert((large + small > 0) ==> (large + small) * unit > 0) by (nonlinear_arith)
                    requires
                        unit > 0,
                ;
                assert((large > small) ==> (large - small) * unit > 0) by (nonlinear_arith)
                    requires
                        unit > 0,
                ;
                assert((small > large) ==> (small - large) * unit > 0) by (nonlinear_arith)
                    requires
                        unit > 0,
                ;
            }
            let (negative, total): (bool, u128) = if same {
                (self.bits >= SIGN, large + small)
            } else if large > small {
                (self.bits >= SIGN, large - small)
            } else if small > large {
                (other.bits >= SIGN, small - large)
            } else {
                (false, 0)
            };
            Binary64::join(
                negative,
                rounding::round_to_nearest(total, b.1, 53, 0, INFINITY),
            )
        }
    }

    /// The sum of two numbers.
    pub fn plus(self, other: Binary64) -> (r: Binary64)
        ensures
            r == self.plus_spec(other),
    {
        let u: u64 = self.unsigned();
        let v: u64 = other.unsigned();
        if u > INFINITY {
            return self.quiet();
        }
        if v > INFINITY {
            return other.quiet();
        }
        if u == INFINITY {
            if v == INFINITY && (self.bits >= SIGN) != (other.bits >= SIGN) {
                return Binary64 { bits: 0x7ff8_0000_0000_0000 };
            }
            return self;
        }
        if v == INFINITY {
            return other;
        }
        let a = self.split();
        let b = other.split();
        if a.1 >= b.1 {
            self.plus_ordered(other, a, b)
        } else {
            other.plus_ordered(self, b, a)
        }
    }

    /// An integer as a binary64 number.
    pub fn from_integer(n: i64) -> (r: Binary64)
        ensures
            r == Binary64::from_integer_spec(n as int),
    {
        proof {
            lemma2_to64();
            lemma2_to64_rest();
            lemma_pow2_strictly_increases(64, 120);
        }
        let m: u128 = if n < 0 {
            (-(n as i128)) as u128
        } else {
            n as u128
        };
        Binary64::join(n < 0, rounding::round_to_nearest(m, 1074, 53, 0, INFINITY))
    }

    /// A number without its fractional part, brought into `low..=high`; a NaN gives
    /// zero.
    pub fn to_integer(self, low: i64, high: i64) -> (r: i64)
        requires
            -0x1_0000_0000 <= low <= 0 <= high <= 0x1_0000_0000,
        ensures
            r == self.to_integer_spec(low as int, high as int),
    {
        let u: u64 = self.unsigned();
        if u > INFINITY {
            return 0;
        }
        if u == INFINITY {
            return if self.bits >= SIGN {
                low
            } else {
                high
            };
        }
        let (m, k) = self.split();
        // The unit digit stands 1074 binary places above the last one.
        let whole: i64 = if k >= 1074 {
            proof {
                lemma_far_from_zero(m as nat, k as nat);
            }
            0x2_0000_0000
        } else {
            let down: u32 = 1074 - k;
            proof {
                lemma_pow2_adds(down as nat, k as nat);
                lemma_pow2_pos(down as nat);
                lemma_pow2_pos(k as nat);
                lemma_div_multiples_vanish_quotient(
                    pow2(k as nat) as int,
                    m as int,
                    pow2(down as nat) as int,
                );
                lemma_mul_is_commutative(m as int, pow2(k as nat) as int);
                lemma_mul_is_commutative(pow2(down as nat) as int, pow2(k as nat) as int);
                lemma2_to64();
                lemma2_to64_rest();
            }
            if down > 52 {
                proof {
                    if down > 53 {
                        lemma_pow2_strictly_increases(53, down as nat);
                    }
                    lemma_basic_div(m as int, pow2(down as nat) as int);
                }
                0
            } else {
                let d: u64 = rounding::power_of_two(down) as u64;
                (m / d) as i64
            }
        };
        let n: i64 = if self.bits >= SIGN {
            -whole
        } else {
            whole
        };
        if n < low {
            low
        } else if n > high {
            high
        } else {
            n
        }
    }

    /// A binary32 number, given by its encoding, as a binary64 number.
    pub fn widened(bits: u32) -> (r: Binary64)
        ensures
            r == Binary64::widened_spec(bits),
    {
        let negative: bool = bits >= SIGN32;
        let u: u32 = if negative {
            bits - SIGN32
        } else {
            bits
        };
        if u > INFINITY32 {
            let payload: u32 = u - INFINITY32;
            let quiet: u32 = if payload < QUIET32 {
                payload + QUIET32
            } else {
                payload
            };
            return Binary64::join(negative, INFINITY + quiet as u64 * 0x2000_0000);
        }
        if u == INFINITY32 {
            return Binary64::join(negative, INFINITY);
        }
        let exponent: u32 = u / 0x80_0000;
        let fraction: u32 = u % 0x80_0000;
        let (m, k): (u32, u32) = if exponent == 0 {
            (fraction, 925)
        } else {
            (fraction + 0x80_0000, exponent - 1 + 925)
        };
        proof {
            lemma2_to64();
            lemma2_to64_rest();
            lemma_pow2_strictly_increases(32, 120);
            assert((24 - 1) as nat == 23);
            if exponent > 0 {
                lemma_pow2_adds((exponent - 1) as nat, 925);
                let p = pow2((exponent - 1) as nat) as int;
                let g = pow2(925) as int;
                assert(m * (p * g) == (m * p) * g) by (nonlinear_arith);
            }
        }
        Binary64::join(negative, rounding::round_to_nearest(m as u128, k, 53, 0, INFINITY))
    }

    /// The encoding of the binary32 number nearest to a number.
    pub fn narrowed(self) -> (r: u32)
        ensures
            r == self.narrowed_spec(),
    {
        let u: u64 = self.unsigned();
        let encoding: u32 = if u > INFINITY {
            INFINITY32 + ((self.quiet().unsigned() - INFINITY) / 0x2000_0000) as u32
        } else if u == INFINITY {
            INFINITY32
        } else {
            let (m, k) = self.split();
            proof {
                lemma2_to64_rest();
                lemma_pow2_strictly_increases(53, 120);
            }
            rounding::round_to_nearest(m as u128, k, 24, 925, INFINITY32 as u64) as u32
        };
        if self.bits >= SIGN {
            encoding + SIGN32
        } else {
            encoding
        }
    }
}

/// A number of a binade from 2^52 on is out of the range of 32-bit integers.
proof fn lemma_far_from_zero(m: nat, k: nat)
    requires
        k >= 1074,
        m >= 0x10_0000_0000_0000,
    ensures
        m * pow2(k) / pow2(1074) >= 0x10_0000_0000_0000,
{
    let up = (k - 1074) as nat;
    lemma_pow2_adds(up, 1074);
    lemma_pow2_pos(up);
    lemma_pow2_pos(1074);
    let p = pow2(up) as int;
    let u = pow2(1074) as int;
    assert(m * (p * u) == (m * p) * u) by (nonlinear_arith);
    lemma_div_by_multiple(m * p, u);
    assert(m * p >= m) by (nonlinear_arith)
        requires
            p >= 1,
            m >= 0,
    ;
}

/// The encoding of a binary32 number without its sign.
pub open spec fn encoding32(bits: u32) -> nat {
    (if bits >= SIGN32 {
        bits - SIGN32
    } else {
        bits as int
    }) as nat
}

/// A finite binary32 number is a binary64 number.
pub proof fn lemma_widened(bits: u32)
    requires
        encoding32(bits) < INFINITY32,
    ensures
        Binary64::widened_spec(bits).is_finite(),
        Binary64::widened_spec(bits).negative() == (bits >= SIGN32),
        Binary64::widened_spec(bits).magnitude() == rounding::magnitude(
            encoding32(bits),
            24,
            925,
        ),
{
    let encoding = encoding32(bits);
    let exponent = encoding / 0x80_0000;
    let fraction = encoding % 0x80_0000;
    let x = rounding::magnitude(encoding, 24, 925);
    lemma2_to64();
    lemma2_to64_rest();
    assert((24 - 1) as nat == 23);
    let m = if exponent == 0 {
        fraction
    } else {
        fraction + 0x80_0000
    };
    let k = if exponent == 0 {
        0
    } else {
        (exponent - 1) as nat
    };
    lemma_mul_basics(fraction as int);
    assert(x == (m * pow2(k)) * pow2(925));
    lemma_pow2_adds(k, 925);
    let p = pow2(k) as int;
    let g = pow2(925) as int;
    assert(m * (p * g) == (m * p) * g) by (nonlinear_arith);
    assert(x == m * pow2(k + 925));
    lemma_pow2_adds(53, k + 925);
    lemma_pow2_pos(k + 925);
    assert(m * pow2(k + 925) < 0x20_0000_0000_0000 * pow2(k + 925)) by (nonlinear_arith)
        requires
            m < 0x20_0000_0000_0000,
            pow2(k + 925) > 0,
    ;
    lemma_pow2_strictly_increases(53 + (k + 925), 2098);
    rounding::lemma_representable(m, k + 925);
}

/// A binary32 number that is not a NaN keeps its encoding, sign of zero included,
/// when it is widened and narrowed again.
pub proof fn law_widening_is_lossless(bits: u32)
    requires
        encoding32(bits) <= INFINITY32,
    ensures
        Binary64::widened_spec(bits).narrowed_spec() == bits,
{
    if encoding32(bits) < INFINITY32 {
        lemma_widened(bits);
        rounding::law_representable_is_exact(encoding32(bits), 24, 925, INFINITY32 as nat);
    }
}

/// Larger binary32 encodings stand for larger magnitudes.
proof fn lemma_magnitudes_are_ordered(x: nat, y: nat)
    requires
        x <= y,
    ensures
        rounding::magnitude(x, 24, 925) <= rounding::magnitude(y, 24, 925),
{
    if x < y {
        rounding::law_encodings_are_ordered(x, y, 24, 925);
    }
}

/// A number that is narrowed to binary32 lies between any two binary32 numbers that it
/// lay between before.
pub proof fn law_narrowing_stays_between(z: Binary64, a: u32, b: u32)
    requires
        z.is_finite(),
        encoding32(a) < INFINITY32,
        encoding32(b) < INFINITY32,
        Binary64::widened_spec(a).units() <= z.units() <= Binary64::widened_spec(b).units(),
    ensures
        Binary64::widened_spec(z.narrowed_spec()).is_finite(),
        Binary64::widened_spec(a).units() <= Binary64::widened_spec(z.narrowed_spec()).units()
            <= Binary64::widened_spec(b).units(),
{
    let inf = INFINITY32 as nat;
    let x = z.magnitude();
    let e = rounding::nearest(x, 24, 925, inf);
    let ea = encoding32(a);
    let eb = encoding32(b);
    let ma = rounding::magnitude(ea, 24, 925);
    let mb = rounding::magnitude(eb, 24, 925);
    lemma_widened(a);
    lemma_widened(b);
    rounding::law_representable_is_exact(ea, 24, 925, inf);
    rounding::law_representable_is_exact(eb, 24, 925, inf);
    if x <= ma {
        rounding::law_rounding_is_monotone(x, ma, 24, 925, inf);
        lemma_magnitudes_are_ordered(e, ea);
    }
    if x >= ma {
        rounding::law_rounding_is_monotone(ma, x, 24, 925, inf);
    }
    if x <= mb {
        rounding::law_rounding_is_monotone(x, mb, 24, 925, inf);
        lemma_magnitudes_are_ordered(e, eb);
    }
    if x >= mb {
        rounding::law_rounding_is_monotone(mb, x, 24, 925, inf);
    }
    assert(e < INFINITY32);
    assert(encoding32(z.narrowed_spec()) == e);
    lemma_widened(z.narrowed_spec());
    if ea <= e {
        lemma_magnitudes_are_ordered(ea, e);
    }
    if eb <= e {
        lemma_magnitudes_are_ordered(eb, e);
    }
}

/// A number whose fractional part is dropped lies between any two integers that it lay
/// between before.
pub proof fn law_truncation_stays_between(z: Binary64, a: int, b: int, low: int, high: int)
    requires
        z.is_finite(),
        low <= a <= b <= high,
        a * pow2(1074) <= z.units() <= b * pow2(1074),
    ensures
        a <= z.to_integer_spec(low, high) <= b,
{
    let p = pow2(1074) as int;
    let m = z.magnitude() as int;
    let whole = m / p;
    lemma_pow2_pos(1074);
    lemma_fundamental_div_mod(m, p);
    lemma_mod_bound(m, p);
    lemma_div_pos_is_pos(m, p);
    if z.negative() {
        assert(whole <= -a) by (nonlinear_arith)
            requires
                a * p <= -m,
                p * whole <= m,
                p > 0,
        ;
        assert(-whole <= b) by (nonlinear_arith)
            requires
                -m <= b * p,
                m < p * whole + p,
                p > 0,
        ;
    } else {
        assert(whole <= b) by (nonlinear_arith)
            requires
                m <= b * p,
                p * whole <= m,
                p > 0,
        ;
        assert(a <= whole) by (nonlinear_arith)
            requires
                a * p <= m,
                m < p * whole + p,
                p > 0,
        ;
    }
}

/// An integer of at most 53 binary digits is not changed by making it a binary64
/// number and back.
pub proof fn law_integers_are_exact(n: int, low: int, high: int)
    requires
        -0x20_0000_0000_0000 < n < 0x20_0000_0000_0000,
        low <= n <= high,
    ensures
        Binary64::from_integer_spec(n).to_integer_spec(low, high) == n,
{
    let m = abs(n);
    let x = m * pow2(1074);
    lemma2_to64_rest();
    lemma_pow2_adds(53, 1074);
    lemma_pow2_pos(1074);
    assert(m * pow2(1074) < 0x20_0000_0000_0000 * pow2(1074)) by (nonlinear_arith)
        requires
            m < 0x20_0000_0000_0000,
            pow2(1074) > 0,
    ;
    lemma_pow2_strictly_increases(1127, 2098);
    rounding::lemma_representable(m, 1074);
    lemma_div_by_multiple(m as int, pow2(1074) as int);
}

/// The order of the encodings is the order of the numbers.
pub proof fn law_rank_orders_numbers(a: Binary64, b: Binary64)
    requires
        a.is_finite(),
        b.is_finite(),
    ensures
        a.rank() < b.rank() <==> a.units() < b.units(),
        a.rank() == b.rank() <==> a.units() == b.units(),
{
    let x = a.encoding();
    let y = b.encoding();
    lemma2_to64();
    lemma2_to64_rest();
    assert((53 - 1) as nat == 52);
    assert(rounding::magnitude(0, 53, 0) == 0);
    if x < y {
        rounding::law_encodings_are_ordered(x, y, 53, 0);
    }
    if y < x {
        rounding::law_encodings_are_ordered(y, x, 53, 0);
    }
    if x > 0 {
        rounding::law_encodings_are_ordered(0, x, 53, 0);
    }
    if y > 0 {
        rounding::law_encodings_are_ordered(0, y, 53, 0);
    }
}

/// An integer of at most 53 binary digits as a binary64 number.
pub proof fn lemma_integer(n: int)
    requires
        -0x20_0000_0000_0000 < n < 0x20_0000_0000_0000,
    ensures
        Binary64::from_integer_spec(n).is_finite(),
        Binary64::from_integer_spec(n).negative() == (n < 0),
        Binary64::from_integer_spec(n).magnitude() == abs(n) * pow2(1074),
        Binary64::from_integer_spec(n).units() == n * pow2(1074),
{
    let m = abs(n);
    let p = pow2(1074) as int;
    lemma2_to64_rest();
    lemma_pow2_adds(53, 1074);
    lemma_pow2_pos(1074);
    assert(m * p < 0x20_0000_0000_0000 * p) by (nonlinear_arith)
        requires
            m < 0x20_0000_0000_0000,
            p > 0,
    ;
    lemma_pow2_strictly_increases(1127, 2098);
    rounding::lemma_representable(m, 1074);
    if n < 0 {
        assert(-(m * p) == n * p) by (nonlinear_arith)
            requires
                m == -n,
        ;
    }
}

/// Sums of integers are exact as long as they have at most 53 binary digits.
pub proof fn law_integer_sums_are_exact(a: int, b: int)
    requires
        -0x20_0000_0000_0000 < a < 0x20_0000_0000_0000,
        -0x20_0000_0000_0000 < b < 0x20_0000_0000_0000,
    ensures
        Binary64::from_integer_spec(a).plus_spec(Binary64::from_integer_spec(b))
            == Binary64::from_integer_spec(a + b),
{
    let p = pow2(1074) as int;
    lemma_pow2_pos(1074);
    lemma_integer(a);
    lemma_integer(b);
    assert(a * p + b * p == (a + b) * p) by (nonlinear_arith);
    let s = (a + b) * p;
    assert((s < 0) == (a + b < 0) && (s == 0) == (a + b == 0)) by (nonlinear_arith)
        requires
            s == (a + b) * p,
            p > 0,
    ;
    assert(abs(s) == abs(a + b) * p) by (nonlinear_arith)
        requires
            s == (a + b) * p,
            p > 0,
            abs(s) == (if s < 0 { -s } else { s }),
            abs(a + b) == (if a + b < 0 { -(a + b) } else { a + b }),
    ;
}

/// Multiples of natural numbers are exact as long as they have at most 53 binary digits.
pub proof fn law_integer_products_are_exact(n: int, q: nat)
    requires
        0 <= n < 0x20_0000_0000_0000,
    ensures
        Binary64::from_integer_spec(n).times_spec(q) == Binary64::from_integer_spec(n * q),
{
    let p = pow2(1074);
    lemma_integer(n);
    assert(n * q >= 0) by (nonlinear_arith)
        requires
            n >= 0,
            q >= 0,
    ;
    assert((n * p) * q == (n * q) * p) by (nonlinear_arith);
}

/// The smaller one of two integers of at most 53 binary digits.
pub proof fn law_integers_are_ordered(a: int, b: int)
    requires
        -0x20_0000_0000_0000 < a < 0x20_0000_0000_0000,
        -0x20_0000_0000_0000 < b < 0x20_0000_0000_0000,
    ensures
        Binary64::from_integer_spec(a).lesser_spec(Binary64::from_integer_spec(b))
            == Binary64::from_integer_spec(if b < a { b } else { a }),
{
    let p = pow2(1074) as int;
    lemma_pow2_pos(1074);
    lemma_integer(a);
    lemma_integer(b);
    law_rank_orders_numbers(Binary64::from_integer_spec(a), Binary64::from_integer_spec(b));
    assert((b * p < a * p) == (b < a)) by (nonlinear_arith)
        requires
            p > 0,
    ;
    law_rank_orders_numbers(Binary64::from_integer_spec(b), Binary64::from_integer_spec(a));
}

/// A binary32 NaN that is widened and narrowed again is a NaN with the same sign and the
/// same payload that does not signal.
pub proof fn law_narrowed_nan_is_quiet(bits: u32)
    requires
        (if bits >= SIGN32 {
            bits - SIGN32
        } else {
            bits as int
        }) > INFINITY32,
    ensures
        Binary64::widened_spec(bits).is_nan(),
        Binary64::widened_spec(bits).narrowed_spec() == if bits as int % 0x80_0000 < QUIET32 {
            bits + QUIET32
        } else {
            bits as int
        },
{
    let negative = bits >= SIGN32;
    let encoding = (if negative {
        bits - SIGN32
    } else {
        bits as int
    }) as nat;
    let payload = (encoding - INFINITY32) as nat;
    let quiet = if payload < QUIET32 {
        payload + QUIET32 as nat
    } else {
        payload
    };
    let wide = Binary64::widened_spec(bits);
    assert(wide.encoding() == INFINITY + quiet * 0x2000_0000);
    assert(wide.quieted() == wide);
    assert((quiet * 0x2000_0000) / 0x2000_0000 == quiet);
}

/// The magnitude of a number is not changed by rounding.
proof fn lemma_rounded(negative: bool, c: Binary64)
    requires
        c.is_finite(),
    ensures
        Binary64::rounded(negative, c.magnitude()).is_finite(),
        Binary64::rounded(negative, c.magnitude()).magnitude() == c.magnitude(),
        Binary64::rounded(negative, c.magnitude()).negative() == negative,
{
    rounding::law_representable_is_exact(c.encoding(), 53, 0, INFINITY as nat);
}

/// A magnitude between those of two numbers is rounded to one between them.
proof fn lemma_rounded_between(negative: bool, x: nat, low: Binary64, high: Binary64)
    requires
        low.is_finite(),
        high.is_finite(),
        low.magnitude() <= x <= high.magnitude(),
    ensures
        Binary64::rounded(negative, x).is_finite(),
        Binary64::rounded(negative, x).negative() == negative,
        low.magnitude() <= Binary64::rounded(negative, x).magnitude() <= high.magnitude(),
{
    let inf = INFINITY as nat;
    let e = rounding::nearest(x, 53, 0, inf);
    rounding::law_representable_is_exact(low.encoding(), 53, 0, inf);
    rounding::law_representable_is_exact(high.encoding(), 53, 0, inf);
    rounding::law_rounding_is_monotone(low.magnitude(), x, 53, 0, inf);
    rounding::law_rounding_is_monotone(x, high.magnitude(), 53, 0, inf);
    if low.encoding() < e {
        rounding::law_encodings_are_ordered(low.encoding(), e, 53, 0);
    }
    if e < high.encoding() {
        rounding::law_encodings_are_ordered(e, high.encoding(), 53, 0);
    }
}

/// Zero.
pub proof fn lemma_zero()
    ensures
        (Binary64 { bits: 0 }).is_finite(),
        (Binary64 { bits: 0 }).magnitude() == 0,
{
    lemma2_to64();
    lemma2_to64_rest();
    assert((53 - 1) as nat == 52);
    assert(rounding::magnitude(0, 53, 0) == 0);
}

/// A signed magnitude between two numbers is rounded to one between them.
proof fn lemma_units_between(negative: bool, s: int, low: Binary64, high: Binary64)
    requires
        low.is_finite(),
        high.is_finite(),
        low.units() <= s <= high.units(),
        s < 0 ==> negative,
        s > 0 ==> !negative,
    ensures
        Binary64::rounded(negative, abs(s)).is_finite(),
        low.units() <= Binary64::rounded(negative, abs(s)).units() <= high.units(),
{
    let zero = Binary64 { bits: 0 };
    lemma_zero();
    if s >= 0 {
        if low.units() >= 0 && !low.negative() {
            lemma_rounded_between(negative, abs(s), low, high);
        } else {
            lemma_rounded_between(negative, abs(s), zero, high);
        }
        if s == 0 {
            lemma_rounded(negative, zero);
        }
    } else {
        if high.negative() {
            lemma_rounded_between(negative, abs(s), high, low);
        } else {
            lemma_rounded_between(negative, abs(s), zero, low);
        }
    }
}

/// A sum lies between any two numbers that the exact sum lies between.
pub proof fn law_sums_stay_between(a: Binary64, b: Binary64, low: Binary64, high: Binary64)
    requires
        a.is_finite(),
        b.is_finite(),
        low.is_finite(),
        high.is_finite(),
        low.units() <= a.units() + b.units() <= high.units(),
    ensures
        a.plus_spec(b).is_finite(),
        low.units() <= a.plus_spec(b).units() <= high.units(),
{
    let s = a.units() + b.units();
    let negative = if s == 0 {
        a.negative() && b.negative()
    } else {
        s < 0
    };
    lemma_units_between(negative, s, low, high);
}

/// A multiple lies between any two numbers that the exact multiple lies between.
pub proof fn law_products_stay_between(a: Binary64, q: nat, low: Binary64, high: Binary64)
    requires
        a.is_finite(),
        low.is_finite(),
        high.is_finite(),
        low.units() <= a.units() * q <= high.units(),
    ensures
        a.times_spec(q).is_finite(),
        low.units() <= a.times_spec(q).units() <= high.units(),
{
    let m = a.magnitude() as int;
    let s = a.units() * q;
    assert(m * q >= 0) by (nonlinear_arith)
        requires
            m >= 0,
            q >= 0,
    ;
    assert((-m) * q == -(m * q)) by (nonlinear_arith);
    assert(abs(s) == a.magnitude() * q);
    lemma_units_between(a.negative(), s, low, high);
}

} // verus!
