//! Samples as binary64 numbers, in stored little-endian bytes and in the raster.
use vstd::arithmetic::power2::*;
use vstd::prelude::*;

use crate::binary64;
use crate::binary64::Binary64;
use crate::bytes;
use crate::bytes::ByteOrder;
use crate::data_type::DataType;

verus! {

/// The number that a word stands for as a sample of type `dt`.
pub open spec fn sample_value(word: nat, dt: DataType) -> Binary64 {
    match dt {
        DataType::Char => Binary64::from_integer_spec(bytes::signed(word, 0x80)),
        DataType::Short => Binary64::from_integer_spec(bytes::signed(word, 0x8000)),
        DataType::Int => Binary64::from_integer_spec(bytes::signed(word, 0x8000_0000)),
        DataType::Byte | DataType::UShort | DataType::UInt => Binary64::from_integer_spec(
            word as int,
        ),
        DataType::Float => Binary64::widened_spec(word as u32),
        DataType::Double => Binary64 { bits: word as u64 },
    }
}

/// The word of the sample of type `dt` that a number is cast to: integers without
/// the fractional part and within the range of the type, in two's complement;
/// binary32 numbers rounded to nearest.
pub open spec fn sample_word(v: Binary64, dt: DataType) -> nat {
    match dt {
        DataType::Char => (v.to_integer_spec(-0x80, 0x7f) % 0x100) as nat,
        DataType::Byte => v.to_integer_spec(0, 0xff) as nat,
        DataType::Short => (v.to_integer_spec(-0x8000, 0x7fff) % 0x1_0000) as nat,
        DataType::UShort => v.to_integer_spec(0, 0xffff) as nat,
        DataType::Int => (v.to_integer_spec(-0x8000_0000, 0x7fff_ffff) % 0x1_0000_0000) as nat,
        DataType::UInt => v.to_integer_spec(0, 0xffff_ffff) as nat,
        DataType::Float => v.narrowed_spec() as nat,
        DataType::Double => v.bits as nat,
    }
}

/// The number that little-endian bytes stand for as a sample of type `dt`.
pub open spec fn stored_value(s: Seq<u8>, dt: DataType) -> Binary64 {
    sample_value(bytes::le_value(s), dt)
}

/// The bytes of element `idx` of a raster.
pub open spec fn element(out: Seq<u8>, idx: int, dt: DataType) -> Seq<u8> {
    out.subrange(idx * dt.size_spec(), idx * dt.size_spec() + dt.size_spec())
}

/// The number that element `idx` of a raster stands for.
pub open spec fn element_value(out: Seq<u8>, idx: int, dt: DataType, order: ByteOrder) -> Binary64 {
    sample_value(bytes::value_of(element(out, idx, dt), order), dt)
}

/// A raster with element `idx` set to a number.
pub open spec fn with_element(
    out: Seq<u8>,
    idx: int,
    dt: DataType,
    v: Binary64,
    order: ByteOrder,
) -> Seq<u8> {
    bytes::overwritten(
        out,
        idx * dt.size_spec(),
        bytes::bytes_of(sample_word(v, dt), dt.size_spec(), order),
    )
}

/// The number that a word stands for as a sample of type `dt`.
fn value_from_word(word: u64, dt: DataType) -> (v: Binary64)
    requires
        word < pow2(8 * dt.size_spec()),
    ensures
        v == sample_value(word as nat, dt),
{
    proof {
        lemma2_to64();
        lemma2_to64_rest();
    }
    match dt {
        DataType::Char => Binary64::from_integer(
            if word < 0x80 {
                word as i64
            } else {
                word as i64 - 0x100
            },
        ),
        DataType::Short => Binary64::from_integer(
            if word < 0x8000 {
                word as i64
            } else {
                word as i64 - 0x1_0000
            },
        ),
        DataType::Int => Binary64::from_integer(
            if word < 0x8000_0000 {
                word as i64
            } else {
                word as i64 - 0x1_0000_0000
            },
        ),
        DataType::Byte | DataType::UShort | DataType::UInt => Binary64::from_integer(word as i64),
        DataType::Float => Binary64::widened(word as u32),
        DataType::Double => Binary64 { bits: word },
    }
}

/// The word of the sample of type `dt` that a number is cast to.
fn word_from_value(v: Binary64, dt: DataType) -> (word: u64)
    ensures
        word == sample_word(v, dt),
        word < pow2(8 * dt.size_spec()),
{
    proof {
        lemma2_to64();
        lemma2_to64_rest();
    }
    match dt {
        DataType::Char => {
            let n: i64 = v.to_integer(-0x80, 0x7f);
            if n < 0 {
                (n + 0x100) as u64
            } else {
                n as u64
            }
        },
        DataType::Byte => v.to_integer(0, 0xff) as u64,
        DataType::Short => {
            let n: i64 = v.to_integer(-0x8000, 0x7fff);
            if n < 0 {
                (n + 0x1_0000) as u64
            } else {
                n as u64
            }
        },
        DataType::UShort => v.to_integer(0, 0xffff) as u64,
        DataType::Int => {
            let n: i64 = v.to_integer(-0x8000_0000, 0x7fff_ffff);
            if n < 0 {
                (n + 0x1_0000_0000) as u64
            } else {
                n as u64
            }
        },
        DataType::UInt => v.to_integer(0, 0xffff_ffff) as u64,
        DataType::Float => v.narrowed() as u64,
        DataType::Double => v.bits,
    }
}

/// The number that the first bytes of `src`, little-endian, stand for as a sample
/// of type `dt`.
pub fn read_native_from_le(src: &[u8], dt: DataType) -> (v: Binary64)
    requires
        src@.len() >= dt.size_spec(),
    ensures
        v == stored_value(src@.take(dt.size_spec() as int), dt),
{
    let word: u64 = bytes::get_word(src, 0, dt.size(), ByteOrder::Little);
    value_from_word(word, dt)
}

/// Sets element `idx` of a raster to a number.
pub fn write_value(out: &mut [u8], idx: usize, dt: DataType, v: Binary64, order: ByteOrder)
    requires
        (idx + 1) * dt.size_spec() <= old(out)@.len(),
    ensures
        final(out)@ == with_element(old(out)@, idx as int, dt, v, order),
{
    let sz: usize = dt.size();
    assert(out.len() <= usize::MAX);
    proof {
        assert((idx + 1) * sz == idx * sz + sz) by (nonlinear_arith);
    }
    bytes::put_word(out, idx * sz, sz, word_from_value(v, dt), order);
}

/// The number that element `idx` of a raster stands for.
pub fn read_value(out: &[u8], idx: usize, dt: DataType, order: ByteOrder) -> (v: Binary64)
    requires
        (idx + 1) * dt.size_spec() <= out@.len(),
    ensures
        v == element_value(out@, idx as int, dt, order),
{
    let sz: usize = dt.size();
    assert(out.len() <= usize::MAX);
    proof {
        assert((idx + 1) * sz == idx * sz + sz) by (nonlinear_arith);
    }
    let word: u64 = bytes::get_word(out, idx * sz, sz, order);
    value_from_word(word, dt)
}

/// Sets element `m` of a raster to the number in the element before it.
pub fn copy_prev_depth(out: &mut [u8], m: usize, dt: DataType, order: ByteOrder)
    requires
        m >= 1,
        (m + 1) * dt.size_spec() <= old(out)@.len(),
    ensures
        final(out)@ == with_element(
            old(out)@,
            m as int,
            dt,
            element_value(old(out)@, m - 1, dt, order),
            order,
        ),
{
    proof {
        let sz = dt.size_spec();
        assert((m - 1 + 1) * sz <= (m + 1) * sz) by (nonlinear_arith)
            requires
                sz >= 0,
        ;
    }
    let v: Binary64 = read_value(out, m - 1, dt, order);
    write_value(out, m, dt, v, order);
}

/// A word is within its type.
pub proof fn lemma_word_bound(v: Binary64, dt: DataType)
    ensures
        sample_word(v, dt) < pow2(8 * dt.size_spec()),
{
    lemma2_to64();
    lemma2_to64_rest();
}

/// Whether little-endian bytes are a sample of type `dt` that is not a binary32
/// NaN.
pub open spec fn is_exact_sample(s: Seq<u8>, dt: DataType) -> bool {
    s.len() == dt.size_spec() && (dt == DataType::Float ==> {
        let word = bytes::le_value(s);
        0x7f80_0000 >= if word >= 0x8000_0000 {
            word - 0x8000_0000
        } else {
            word as int
        }
    })
}

/// A stored sample that is not a binary32 NaN comes out of the decoder with the
/// word it was stored with, in the byte order of the raster.
pub proof fn law_samples_are_exact(s: Seq<u8>, dt: DataType, order: ByteOrder)
    requires
        is_exact_sample(s, dt),
    ensures
        sample_word(stored_value(s, dt), dt) == bytes::le_value(s),
        bytes::bytes_of(sample_word(stored_value(s, dt), dt), dt.size_spec(), order) == match order {
            ByteOrder::Little => s,
            ByteOrder::Big => s.reverse(),
        },
{
    let word = bytes::le_value(s);
    bytes::lemma_le_value_bound(s);
    lemma2_to64();
    lemma2_to64_rest();
    match dt {
        DataType::Char => binary64::law_integers_are_exact(bytes::signed(word, 0x80), -0x80, 0x7f),
        DataType::Byte => binary64::law_integers_are_exact(word as int, 0, 0xff),
        DataType::Short => binary64::law_integers_are_exact(
            bytes::signed(word, 0x8000),
            -0x8000,
            0x7fff,
        ),
        DataType::UShort => binary64::law_integers_are_exact(word as int, 0, 0xffff),
        DataType::Int => binary64::law_integers_are_exact(
            bytes::signed(word, 0x8000_0000),
            -0x8000_0000,
            0x7fff_ffff,
        ),
        DataType::UInt => binary64::law_integers_are_exact(word as int, 0, 0xffff_ffff),
        DataType::Float => binary64::law_widening_is_lossless(word as u32),
        DataType::Double => {},
    }
    bytes::law_bytes_of_value(s, ByteOrder::Little);
}

/// The elements of a raster do not overlap: setting one makes it the word of the
/// number that was written, and leaves the others and the length as they were.
pub proof fn law_elements_are_independent(
    out: Seq<u8>,
    idx: int,
    dt: DataType,
    v: Binary64,
    order: ByteOrder,
)
    requires
        0 <= idx,
        (idx + 1) * dt.size_spec() <= out.len(),
    ensures
        with_element(out, idx, dt, v, order).len() == out.len(),
        element(with_element(out, idx, dt, v, order), idx, dt) == bytes::bytes_of(
            sample_word(v, dt),
            dt.size_spec(),
            order,
        ),
        element_value(with_element(out, idx, dt, v, order), idx, dt, order) == sample_value(
            sample_word(v, dt),
            dt,
        ),
        forall|other: int|
            0 <= other && other != idx && (other + 1) * dt.size_spec() <= out.len() ==> #[trigger] element(
                with_element(out, idx, dt, v, order),
                other,
                dt,
            ) == element(out, other, dt),
{
    let sz = dt.size_spec() as int;
    let word = sample_word(v, dt);
    let part = bytes::bytes_of(word, dt.size_spec(), order);
    let after = with_element(out, idx, dt, v, order);
    lemma_word_bound(v, dt);
    bytes::law_value_of_bytes(word, dt.size_spec(), order);
    assert((idx + 1) * sz == idx * sz + sz) by (nonlinear_arith);
    assert(0 <= idx * sz) by (nonlinear_arith)
        requires
            0 <= idx,
            0 <= sz,
    ;
    assert(element(after, idx, dt) =~= part);
    assert forall|other: int|
        0 <= other && other != idx && (other + 1) * sz <= out.len() implies #[trigger] element(
        after,
        other,
        dt,
    ) == element(out, other, dt) by {
        assert((other + 1) * sz == other * sz + sz) by (nonlinear_arith);
        assert(0 <= other * sz) by (nonlinear_arith)
            requires
                0 <= other,
                0 <= sz,
        ;
        if other < idx {
            assert((other + 1) * sz <= idx * sz) by (nonlinear_arith)
                requires
                    other + 1 <= idx,
                    0 <= sz,
            ;
        } else {
            assert((idx + 1) * sz <= other * sz) by (nonlinear_arith)
                requires
                    idx + 1 <= other,
                    0 <= sz,
            ;
        }
        assert(element(after, other, dt) =~= element(out, other, dt));
    }
}

/// The number that a sample of type `dt` stands for after a number was written to it.
pub open spec fn written(v: Binary64, dt: DataType) -> Binary64 {
    sample_value(sample_word(v, dt), dt)
}

/// Whether a number is one that samples of type `dt` stand for.
pub open spec fn is_sample(v: Binary64, dt: DataType) -> bool {
    v.is_finite() && written(v, dt).is_finite() && written(v, dt).units() == v.units()
}

/// The range of the integers of a type.
pub open spec fn integer_range(dt: DataType) -> (int, int) {
    match dt {
        DataType::Char => (-0x80, 0x7f),
        DataType::Byte => (0, 0xff),
        DataType::Short => (-0x8000, 0x7fff),
        DataType::UShort => (0, 0xffff),
        DataType::Int => (-0x8000_0000, 0x7fff_ffff),
        _ => (0, 0xffff_ffff),
    }
}

/// What a sample of an integer type stands for.
proof fn lemma_written_integer(v: Binary64, dt: DataType)
    requires
        v.is_finite(),
        dt != DataType::Float,
        dt != DataType::Double,
    ensures
        ({
            let (low, high) = integer_range(dt);
            let n = v.to_integer_spec(low, high);
            &&& low <= n <= high
            &&& written(v, dt) == Binary64::from_integer_spec(n)
            &&& written(v, dt).is_finite()
            &&& written(v, dt).units() == n * pow2(1074)
        }),
{
    let (low, high) = integer_range(dt);
    binary64::lemma_integer(v.to_integer_spec(low, high));
}

/// A number that is written lies between any two numbers of the type that it lay between
/// before: being cast to the type of the raster does not take it past them.
pub proof fn law_casts_stay_between(z: Binary64, low: Binary64, high: Binary64, dt: DataType)
    requires
        z.is_finite(),
        is_sample(low, dt),
        is_sample(high, dt),
        low.units() <= z.units() <= high.units(),
    ensures
        written(z, dt).is_finite(),
        low.units() <= written(z, dt).units() <= high.units(),
{
    match dt {
        DataType::Double => {},
        DataType::Float => {
            let a = low.narrowed_spec();
            let b = high.narrowed_spec();
            assert(binary64::encoding32(a) < binary64::INFINITY32);
            assert(binary64::encoding32(b) < binary64::INFINITY32);
            binary64::law_narrowing_stays_between(z, a, b);
        },
        _ => {
            let (least, most) = integer_range(dt);
            let a = low.to_integer_spec(least, most);
            let b = high.to_integer_spec(least, most);
            lemma_written_integer(low, dt);
            lemma_written_integer(high, dt);
            lemma_written_integer(z, dt);
            let p = pow2(1074) as int;
            lemma_pow2_pos(1074);
            assert(a <= b) by (nonlinear_arith)
                requires
                    a * p <= b * p,
                    p > 0,
            ;
            binary64::law_truncation_stays_between(z, a, b, least, most);
            let n = z.to_integer_spec(least, most);
            assert(a * p <= n * p <= b * p) by (nonlinear_arith)
                requires
                    a <= n <= b,
                    p > 0,
            ;
        },
    }
}

} // verus!
