//! What encodings of floating-point numbers stand for, and that arithmetic gives the
//! nearest number.
use vstd::arithmetic::div_mod::*;
use vstd::arithmetic::mul::*;
use vstd::arithmetic::power2::*;
use vstd::prelude::*;

use crate::binary64;
use crate::binary64::Binary64;
use crate::bytes::ByteOrder;
use crate::data_type::DataType;
use crate::encode;
use crate::encode_stream;
use crate::header::HeaderInfo;
use crate::raster;
use crate::rounding;
use crate::sample;

verus! {

/// The sign bit of a binary64 encoding is the highest one, the next eleven ones are the
/// exponent, and the others the fraction.  Numbers with the exponent 0 are multiples of
/// 2^-1074, those with a larger one have one more binary digit before the fraction, and
/// the largest exponent is that of the infinities and the NaNs.
pub proof fn law_encodings_stand_for_numbers(a: Binary64)
    ensures
        ({
            let u = a.bits as int % 0x8000_0000_0000_0000;
            let exponent = u / 0x10_0000_0000_0000;
            let fraction = u % 0x10_0000_0000_0000;
            let size = if exponent == 0 {
                fraction
            } else {
                (fraction + 0x10_0000_0000_0000) * pow2((exponent - 1) as nat)
            };
            &&& a.negative() == (a.bits as int / 0x8000_0000_0000_0000 == 1)
            &&& a.is_finite() == (exponent < 2047)
            &&& a.is_infinite() == (exponent == 2047 && fraction == 0)
            &&& a.is_nan() == (exponent == 2047 && fraction != 0)
            &&& exponent < 2047 ==> a.magnitude() == size
            &&& exponent < 2047 ==> a.units() == if a.bits as int / 0x8000_0000_0000_0000 == 1 {
                -size
            } else {
                size
            }
        }),
{
    lemma2_to64();
    lemma2_to64_rest();
    assert((53 - 1) as nat == 52);
    lemma_mul_basics(a.magnitude() as int);
    let hidden = 0x10_0000_0000_0000int;
    let exponent = a.encoding() as int / hidden;
    let fraction = a.encoding() as int % hidden;
    lemma_mul_basics(fraction);
    lemma_mul_basics((fraction + hidden) * pow2((exponent - 1) as nat));
}

/// A binary32 number has a sign bit, eight bits for the exponent and 23 for the fraction;
/// its smallest numbers are multiples of 2^-149.  As a binary64 number it is the same
/// number, an infinity of the same sign, or a NaN of the same sign whose fraction starts
/// with that of the binary32 one, its first bit set.
pub proof fn law_binary32_numbers_are_widened(bits: u32)
    ensures
        ({
            let wide = Binary64::widened_spec(bits);
            let u = bits as int % 0x8000_0000;
            let exponent = u / 0x80_0000;
            let fraction = u % 0x80_0000;
            let size = if exponent == 0 {
                fraction * pow2(925)
            } else {
                (fraction + 0x80_0000) * pow2((exponent - 1 + 925) as nat)
            };
            let sign = if bits as int / 0x8000_0000 == 1 {
                0x8000_0000_0000_0000int
            } else {
                0
            };
            &&& wide.negative() == (bits as int / 0x8000_0000 == 1)
            &&& exponent < 255 ==> wide.is_finite() && wide.magnitude() == size
            &&& exponent == 255 && fraction == 0 ==> wide.bits == sign + 0x7ff0_0000_0000_0000
            &&& exponent == 255 && fraction != 0 ==> wide.bits == sign + 0x7ff0_0000_0000_0000 + (
            if fraction < 0x40_0000 {
                fraction + 0x40_0000
            } else {
                fraction
            }) * 0x2000_0000
        }),
{
    let u = bits as int % 0x8000_0000;
    let exponent = u / 0x80_0000;
    let fraction = u % 0x80_0000;
    lemma2_to64();
    lemma2_to64_rest();
    assert((24 - 1) as nat == 23);
    assert(binary64::encoding32(bits) == u);
    if exponent < 255 {
        binary64::lemma_widened(bits);
        if exponent > 0 {
            lemma_pow2_adds((exponent - 1) as nat, 925);
            let m = fraction + 0x80_0000;
            let p = pow2((exponent - 1) as nat) as int;
            let g = pow2(925) as int;
            assert(m * (p * g) == (m * p) * g) by (nonlinear_arith);
        }
    }
}

/// Whether a magnitude is too large for a format with `precision` digits whose largest
/// numbers are `2^unit` units apart.
pub open spec fn too_large(x: nat, precision: nat, unit: nat) -> bool {
    x >= pow2(unit + precision) - pow2((unit - 1) as nat)
}

/// What is rounded to infinity.
#[verifier::rlimit(30)]
proof fn lemma_overflow(x: nat, precision: nat, grid: nat, top: nat, infinity: nat)
    requires
        precision > 1,
        top > 0,
        infinity == top * pow2((precision - 1) as nat) + pow2(precision),
    ensures
        rounding::nearest(x, precision, grid, infinity) == infinity <==> too_large(
            x,
            precision,
            grid + top,
        ),
{
    let unit = grid + top;
    let limit = grid + precision;
    let d = pow2(unit) as int;
    let h = pow2((unit - 1) as nat) as int;
    let p = pow2(precision) as int;
    let t = (pow2(unit + precision) - h) as nat;
    lemma_pow2_unfold(unit);
    lemma_pow2_pos((unit - 1) as nat);
    lemma_pow2_unfold(precision);
    lemma_pow2_unfold((precision - 1) as nat);
    lemma_pow2_pos((precision - 2) as nat);
    lemma_pow2_adds(unit, precision);
    assert(d * p == p * d) by (nonlinear_arith);
    lemma_pow2_unfold(unit + precision);
    lemma_pow2_strictly_increases((unit - 1) as nat, (unit + precision - 1) as nat);
    assert(p * d == (p - 1) * d + 2 * h) by (nonlinear_arith)
        requires
            d == 2 * h,
    ;
    // The first magnitude that is too large, and the last one that is not.
    assert(limit + top == unit + precision);
    assert((limit + top - 1) as nat == (unit + precision - 1) as nat);
    rounding::lemma_excess(t, limit, top);
    rounding::lemma_round_split(t, d as nat, (p - 1) as nat, h as nat);
    assert(rounding::round_half_even(t, d as nat) == p);
    assert(rounding::nearest(t, precision, grid, infinity) == infinity);
    let last = (t - 1) as nat;
    rounding::lemma_excess(last, limit, top);
    rounding::lemma_round_split(last, d as nat, (p - 1) as nat, (h - 1) as nat);
    assert(rounding::nearest(last, precision, grid, infinity) == infinity - 1);
    if x >= t {
        rounding::law_rounding_is_monotone(t, x, precision, grid, infinity);
    } else {
        rounding::law_rounding_is_monotone(x, last, precision, grid, infinity);
    }
}

/// How far two integers are apart.
pub open spec fn gap(a: int, b: int) -> int {
    if a < b {
        b - a
    } else {
        a - b
    }
}

/// Whether `r` is the exact result `s`, in units of 2^-1074, rounded to nearest: no finite
/// number `c` is closer to it, where another one is as close the last bit of `r` is 0, and
/// results from halfway between the largest number and 2^1024 on are infinite.
pub open spec fn is_nearest(r: Binary64, s: int, c: Binary64) -> bool {
    let size = if s < 0 {
        -s
    } else {
        s
    };
    &&& s < 0 ==> r.negative()
    &&& s > 0 ==> !r.negative()
    &&& !r.is_nan()
    &&& r.is_infinite() <==> size >= pow2(2098) - pow2(2044)
    &&& r.is_finite() && c.is_finite() ==> {
        &&& gap(r.units(), s) <= gap(c.units(), s)
        &&& gap(r.units(), s) == gap(c.units(), s) && r.units() != c.units() ==> r.bits % 2 == 0
    }
}

/// Rounding a signed magnitude.
#[verifier::rlimit(30)]
proof fn lemma_nearest(negative: bool, s: int, c: Binary64)
    requires
        s < 0 ==> negative,
        s > 0 ==> !negative,
    ensures
        is_nearest(Binary64::rounded(negative, binary64::abs(s)), s, c),
        Binary64::rounded(negative, binary64::abs(s)).negative() == negative,
        s == 0 ==> Binary64::rounded(negative, binary64::abs(s)).encoding() == 0,
{
    let inf = 0x7ff0_0000_0000_0000nat;
    let x = binary64::abs(s);
    let r = Binary64::rounded(negative, x);
    let e = rounding::nearest(x, 53, 0, inf);
    lemma2_to64();
    lemma2_to64_rest();
    assert((53 - 1) as nat == 52);
    lemma_overflow(x, 53, 0, 2045, inf);
    assert(r.encoding() == e);
    assert(r.negative() == negative);
    binary64::lemma_zero();
    assert(rounding::magnitude(0, 53, 0) == 0);
    if s == 0 {
        rounding::law_representable_is_exact(0, 53, 0, inf);
    }
    if e < inf && c.is_finite() {
        rounding::law_nearest_is_nearest(x, 53, 0, inf, c.encoding());
        rounding::law_nearest_is_nearest(x, 53, 0, inf, 0);
        assert(r.bits % 2 == 0 <==> e % 2 == 0);
    }
}

/// A sum of finite numbers is the number nearest to the exact sum.  A sum of zero is
/// positive unless both numbers are negative.
pub proof fn law_sums_are_nearest(a: Binary64, b: Binary64, c: Binary64)
    requires
        a.is_finite(),
        b.is_finite(),
    ensures
        is_nearest(a.plus_spec(b), a.units() + b.units(), c),
        a.units() + b.units() == 0 ==> a.plus_spec(b).bits == if a.negative() && b.negative() {
            0x8000_0000_0000_0000u64
        } else {
            0
        },
{
    let s = a.units() + b.units();
    let negative = if s == 0 {
        a.negative() && b.negative()
    } else {
        s < 0
    };
    lemma_nearest(negative, s, c);
}

/// A multiple of a finite number is the number nearest to the exact multiple, and has the
/// sign of the number.
pub proof fn law_products_are_nearest(a: Binary64, q: nat, c: Binary64)
    requires
        a.is_finite(),
    ensures
        is_nearest(a.times_spec(q), a.units() * q, c),
        a.times_spec(q).negative() == a.negative(),
{
    let m = a.magnitude() as int;
    let s = a.units() * q;
    assert(m * q >= 0) by (nonlinear_arith)
        requires
            m >= 0,
            q >= 0,
    ;
    assert((-m) * q == -(m * q)) by (nonlinear_arith);
    assert(binary64::abs(s) == a.magnitude() * q);
    lemma_nearest(a.negative(), s, c);
}

/// What NaNs and infinities do to sums and multiples: a NaN stays with its first fraction
/// bit set, the first one of two; an infinity stays, but infinities of both signs have no
/// sum, and none times zero has no product.
#[verifier::rlimit(30)]
pub proof fn law_infinities_and_nans_stay(a: Binary64, b: Binary64, q: nat)
    ensures
        ({
            let quiet_a = if a.bits as int % 0x10_0000_0000_0000 < 0x8_0000_0000_0000 {
                a.bits + 0x8_0000_0000_0000
            } else {
                a.bits as int
            };
            let quiet_b = if b.bits as int % 0x10_0000_0000_0000 < 0x8_0000_0000_0000 {
                b.bits + 0x8_0000_0000_0000
            } else {
                b.bits as int
            };
            let none = 0x7ff8_0000_0000_0000u64;
            &&& a.is_nan() ==> a.plus_spec(b).bits == quiet_a && a.times_spec(q).bits == quiet_a
            &&& !a.is_nan() && b.is_nan() ==> a.plus_spec(b).bits == quiet_b
            &&& a.is_infinite() && b.is_finite() ==> a.plus_spec(b) == a && b.plus_spec(a) == a
            &&& a.is_infinite() && b.is_infinite() ==> a.plus_spec(b).bits == if a == b {
                a.bits
            } else {
                none
            }
            &&& a.is_infinite() ==> a.times_spec(q).bits == if q == 0 {
                none
            } else {
                a.bits
            }
        }),
{
    law_encodings_stand_for_numbers(a);
    law_encodings_stand_for_numbers(b);
    assert(a.is_infinite() && b.is_infinite() ==> (a == b <==> a.negative() == b.negative()));
}

/// The lesser of two numbers is the one that is smaller, the first one where neither is, and
/// where one of them is a NaN the other one.  A negative infinity is smaller than every
/// other number, and a positive one is smaller than none.
pub proof fn law_lesser_is_smaller(a: Binary64, b: Binary64)
    ensures
        a.is_nan() ==> a.lesser_spec(b) == b,
        !a.is_nan() && b.is_nan() ==> a.lesser_spec(b) == a,
        a.is_finite() && b.is_finite() ==> a.lesser_spec(b) == if b.units() < a.units() {
            b
        } else {
            a
        },
        a.is_infinite() && !b.is_nan() ==> a.lesser_spec(b) == if a.negative() {
            a
        } else if b == a {
            a
        } else {
            b
        },
        a.is_finite() && b.is_infinite() ==> a.lesser_spec(b) == if b.negative() {
            b
        } else {
            a
        },
{
    if a.is_finite() && b.is_finite() {
        binary64::law_rank_orders_numbers(b, a);
    }
    assert(a.is_infinite() && b.is_infinite() ==> (a == b <==> a.negative() == b.negative()));
}

/// A number becomes an integer by dropping its fractional part: of a number that lies, away
/// from zero, at or past the integer `t` and before the next one, `t` is left, or the bound
/// that it lies beyond.  A NaN becomes 0, and an infinity the bound of its sign.
#[verifier::rlimit(30)]
pub proof fn law_integers_are_truncated(v: Binary64, t: int, low: int, high: int)
    requires
        low <= 0 <= high,
        v.is_finite() ==> {
            ||| 0 <= t && t * pow2(1074) <= v.units() < (t + 1) * pow2(1074)
            ||| t <= 0 && (t - 1) * pow2(1074) < v.units() <= t * pow2(1074)
        },
    ensures
        v.is_nan() ==> v.to_integer_spec(low, high) == 0,
        v.is_infinite() ==> v.to_integer_spec(low, high) == if v.negative() {
            low
        } else {
            high
        },
        v.is_finite() ==> v.to_integer_spec(low, high) == if t < low {
            low
        } else if t > high {
            high
        } else {
            t
        },
{
    let p = pow2(1074) as int;
    lemma_pow2_pos(1074);
    if v.is_finite() {
        let m = v.magnitude() as int;
        let size = if t < 0 {
            -t
        } else {
            t
        };
        assert(size * p <= m < (size + 1) * p) by (nonlinear_arith)
            requires
                p > 0,
                m >= 0,
                size == (if t < 0 { -t } else { t }),
                v.units() == m || v.units() == -m,
                (0 <= t && t * p <= v.units() < (t + 1) * p) || (t <= 0 && (t - 1) * p < v.units()
                    <= t * p),
        ;
        lemma_fundamental_div_mod(m, p);
        lemma_mod_bound(m, p);
        let q = m / p;
        assert(q == size) by (nonlinear_arith)
            requires
                m == p * q + m % p,
                0 <= m % p < p,
                size * p <= m < (size + 1) * p,
                p > 0,
        ;
        assert(t > 0 ==> v.units() > 0) by (nonlinear_arith)
            requires
                p > 0,
                t > 0 ==> t * p <= v.units(),
        ;
        assert(t < 0 ==> v.units() < 0) by (nonlinear_arith)
            requires
                p > 0,
                t < 0 ==> v.units() <= t * p,
        ;
    }
}

/// Integers of at most 53 binary digits are numbers.
pub proof fn law_integers_are_numbers(n: int)
    requires
        -0x20_0000_0000_0000 < n < 0x20_0000_0000_0000,
    ensures
        Binary64::from_integer_spec(n).is_finite(),
        Binary64::from_integer_spec(n).units() == n * pow2(1074),
        Binary64::from_integer_spec(n).negative() == (n < 0),
{
    binary64::lemma_integer(n);
}

/// A number becomes the nearest binary32 number: no finite one, given by its encoding `c`,
/// is closer to it, and where another one is as close the last bit is 0.  Numbers from
/// halfway between the largest binary32 number and 2^128 on become infinite, infinities
/// stay, and a NaN keeps the first bits of its fraction, the first one set.  The sign stays.
#[verifier::rlimit(30)]
pub proof fn law_binary32_numbers_are_nearest(v: Binary64, c: u32)
    ensures
        ({
            let r = v.narrowed_spec();
            let size = r as int % 0x8000_0000;
            let fraction = v.bits as int % 0x10_0000_0000_0000 / 0x2000_0000;
            let near = Binary64::widened_spec(r);
            let other = Binary64::widened_spec(c);
            &&& (r >= 0x8000_0000) == v.negative()
            &&& v.is_infinite() ==> size == 0x7f80_0000
            &&& v.is_nan() ==> size == 0x7f80_0000 + if fraction < 0x40_0000 {
                fraction + 0x40_0000
            } else {
                fraction
            }
            &&& v.is_finite() ==> {
                &&& size <= 0x7f80_0000
                &&& size == 0x7f80_0000 <==> v.magnitude() >= pow2(1202) - pow2(1177)
                &&& size < 0x7f80_0000 && c as int % 0x8000_0000 < 0x7f80_0000 ==> {
                    &&& gap(near.units(), v.units()) <= gap(other.units(), v.units())
                    &&& gap(near.units(), v.units()) == gap(other.units(), v.units())
                        && near.units() != other.units() ==> r % 2 == 0
                }
            }
        }),
{
    let inf = 0x7f80_0000nat;
    lemma2_to64();
    lemma2_to64_rest();
    assert((24 - 1) as nat == 23);
    law_encodings_stand_for_numbers(v);
    let r = v.narrowed_spec();
    if v.is_finite() {
        let x = v.magnitude();
        let e = rounding::nearest(x, 24, 925, inf);
        lemma_overflow(x, 24, 925, 253, inf);
        assert(binary64::encoding32(r) == e);
        assert(binary64::encoding32(c) == c as int % 0x8000_0000);
        lemma_mul_basics(pow2(925) as int);
        assert(rounding::magnitude(0, 24, 925) == 0);
        if e < inf && binary64::encoding32(c) < inf {
            binary64::lemma_widened(r);
            binary64::lemma_widened(c);
            rounding::law_nearest_is_nearest(x, 24, 925, inf, binary64::encoding32(c));
            rounding::law_nearest_is_nearest(x, 24, 925, inf, 0);
            assert(r % 2 == 0 <==> e % 2 == 0);
        }
    }
}

/// The least and the greatest integer of an integer type.
pub open spec fn bounds(dt: DataType) -> (int, int) {
    let half = pow2((8 * encode_stream::type_size(dt) - 1) as nat) as int;
    match dt {
        DataType::Char | DataType::Short | DataType::Int => (-half, half - 1),
        _ => (0, 2 * half - 1),
    }
}

/// Whether samples of a type are integers.
pub open spec fn has_integers(dt: DataType) -> bool {
    dt != DataType::Float && dt != DataType::Double
}

/// The bytes of an integer of a type, in two's complement, the least significant one first.
pub open spec fn integer_bytes(n: int, dt: DataType) -> Seq<u8> {
    encode::word(
        (if n < 0 {
            n + pow2(8 * encode_stream::type_size(dt))
        } else {
            n
        }) as nat,
        encode_stream::type_size(dt),
    )
}

/// The bytes of an element, given the least significant one first, as they stand in a raster.
pub open spec fn in_order(s: Seq<u8>, order: ByteOrder) -> Seq<u8> {
    match order {
        ByteOrder::Little => s,
        ByteOrder::Big => s.reverse(),
    }
}

/// Stored samples of integer types are two's complement integers.
#[verifier::rlimit(30)]
pub proof fn law_integer_samples_are_read_back(n: int, dt: DataType)
    requires
        has_integers(dt),
        bounds(dt).0 <= n <= bounds(dt).1,
    ensures
        ({
            let v = sample::stored_value(integer_bytes(n, dt), dt);
            &&& v.is_finite()
            &&& v.units() == n * pow2(1074)
            &&& v.negative() == (n < 0)
        }),
{
    lemma2_to64();
    lemma2_to64_rest();
    let size = encode_stream::type_size(dt);
    let w = (if n < 0 {
        n + pow2(8 * size)
    } else {
        n
    }) as nat;
    encode::law_words_are_read_back(w, size);
    binary64::lemma_integer(n);
    assert(sample::stored_value(integer_bytes(n, dt), dt) == Binary64::from_integer_spec(n));
}

/// Stored samples of floating-point types are the encodings of their numbers.
pub proof fn law_floating_point_samples_are_read_back(bits32: u32, bits64: u64)
    ensures
        sample::stored_value(encode::word(bits32 as nat, 4), DataType::Float)
            == Binary64::widened_spec(bits32),
        sample::stored_value(encode::word(bits64 as nat, 8), DataType::Double).bits == bits64,
{
    lemma2_to64();
    lemma2_to64_rest();
    encode::law_words_are_read_back(bits32 as nat, 4);
    encode::law_words_are_read_back(bits64 as nat, 8);
}

/// What a number becomes in a raster of integers: the integer that is left without its
/// fractional part, or the bound of the type that it lies beyond, in two's complement; 0 for
/// a NaN, and the bound of its sign for an infinity.
#[verifier::rlimit(30)]
pub proof fn law_integers_are_cast(v: Binary64, t: int, n_depth: i32, dt: DataType, order: ByteOrder)
    requires
        has_integers(dt),
        v.is_finite() ==> {
            ||| 0 <= t && t * pow2(1074) <= v.units() < (t + 1) * pow2(1074)
            ||| t <= 0 && (t - 1) * pow2(1074) < v.units() <= t * pow2(1074)
        },
    ensures
        ({
            let (low, high) = bounds(dt);
            let n = if v.is_nan() {
                0
            } else if v.is_infinite() {
                if v.negative() {
                    low
                } else {
                    high
                }
            } else if t < low {
                low
            } else if t > high {
                high
            } else {
                t
            };
            (raster::Layout { n_depth, dt, order }).word(v) == in_order(integer_bytes(n, dt), order)
        }),
{
    lemma2_to64();
    lemma2_to64_rest();
    let size = encode_stream::type_size(dt);
    let (low, high) = bounds(dt);
    assert(low == sample::integer_range(dt).0 && high == sample::integer_range(dt).1);
    law_integers_are_truncated(v, t, low, high);
    let n = v.to_integer_spec(low, high);
    let w = (if n < 0 {
        n + pow2(8 * size)
    } else {
        n
    }) as nat;
    assert(sample::sample_word(v, dt) == w);
    encode::law_words_are_read_back(w, size);
}

/// What a number becomes in a raster of floating-point numbers.
pub proof fn law_floating_point_numbers_are_cast(v: Binary64, n_depth: i32, order: ByteOrder)
    ensures
        (raster::Layout { n_depth, dt: DataType::Float, order }).word(v) == in_order(
            encode::word(v.narrowed_spec() as nat, 4),
            order,
        ),
        (raster::Layout { n_depth, dt: DataType::Double, order }).word(v) == in_order(
            encode::word(v.bits as nat, 8),
            order,
        ),
{
    lemma2_to64();
    lemma2_to64_rest();
    encode::law_words_are_read_back(v.narrowed_spec() as nat, 4);
    encode::law_words_are_read_back(v.bits as nat, 8);
}

/// The number that an element of a raster stands for is the one that its bytes stand for as
/// a stored sample, once they are in little-endian order.
pub proof fn law_elements_are_samples(
    hd: HeaderInfo,
    order: ByteOrder,
    out: Seq<u8>,
    i: int,
    j: int,
    depth: int,
)
    ensures
        (raster::Layout { n_depth: hd.n_depth, dt: hd.dt, order }).get(
            out,
            i * hd.n_cols + j,
            depth,
        ) == sample::stored_value(
            in_order(encode_stream::element(hd, out, i, j, depth), order),
            hd.dt,
        ),
{
}

} // verus!
