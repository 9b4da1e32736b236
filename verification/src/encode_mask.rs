//! How a mask is written, and that reading it undoes it.
use vstd::arithmetic::power2::*;
use vstd::prelude::*;

use crate::bytes;
use crate::decoder;
use crate::encode;
use crate::error::Fault;
use crate::header::HeaderInfo;
use crate::mask;
use crate::mask::{RlePart, Validity};

verus! {

/// One where pixel `k` is valid, and zero where it is not or does not exist.
pub open spec fn bit(valid: Seq<bool>, k: int) -> nat {
    if k < valid.len() && valid[k] {
        1
    } else {
        0
    }
}

/// The bytes of a mask: eight pixels a byte, the first of them in the highest bit.
pub open spec fn mask_bytes(valid: Seq<bool>) -> Seq<u8> {
    Seq::new(
        (valid.len() + 7) / 8,
        |b: int|
            (128 * bit(valid, 8 * b) + 64 * bit(valid, 8 * b + 1) + 32 * bit(valid, 8 * b + 2) + 16
                * bit(valid, 8 * b + 3) + 8 * bit(valid, 8 * b + 4) + 4 * bit(valid, 8 * b + 5) + 2
                * bit(valid, 8 * b + 6) + bit(valid, 8 * b + 7)) as u8,
    )
}

/// The number of valid pixels.
pub open spec fn count(valid: Seq<bool>) -> nat
    decreases valid.len(),
{
    if valid.len() == 0 {
        0
    } else {
        count(valid.drop_last()) + bit(valid, valid.len() - 1)
    }
}

/// The bits of a byte.
proof fn lemma_bits(b0: u8, b1: u8, b2: u8, b3: u8, b4: u8, b5: u8, b6: u8, b7: u8, x: u8)
    by (bit_vector)
    requires
        b0 <= 1,
        b1 <= 1,
        b2 <= 1,
        b3 <= 1,
        b4 <= 1,
        b5 <= 1,
        b6 <= 1,
        b7 <= 1,
        x == 128 * b0 + 64 * b1 + 32 * b2 + 16 * b3 + 8 * b4 + 4 * b5 + 2 * b6 + b7,
    ensures
        (x & (0x80u8 >> 0u8) != 0) == (b0 == 1),
        (x & (0x80u8 >> 1u8) != 0) == (b1 == 1),
        (x & (0x80u8 >> 2u8) != 0) == (b2 == 1),
        (x & (0x80u8 >> 3u8) != 0) == (b3 == 1),
        (x & (0x80u8 >> 4u8) != 0) == (b4 == 1),
        (x & (0x80u8 >> 5u8) != 0) == (b5 == 1),
        (x & (0x80u8 >> 6u8) != 0) == (b6 == 1),
        (x & (0x80u8 >> 7u8) != 0) == (b7 == 1),
{
}

/// A mask says of every pixel what was written of it: pixel `k` is valid if and only if bit
/// `k` is one, the bits of each byte counted from the highest one down.
pub proof fn law_mask_bits_are_read_back(valid: Seq<bool>, k: int)
    requires
        0 <= k < valid.len(),
    ensures
        Validity::Bits(mask_bytes(valid)).valid(k) == valid[k],
        Validity::All.valid(k),
{
    let b = k / 8;
    let x = mask_bytes(valid)[b];
    lemma_bits(
        bit(valid, 8 * b) as u8,
        bit(valid, 8 * b + 1) as u8,
        bit(valid, 8 * b + 2) as u8,
        bit(valid, 8 * b + 3) as u8,
        bit(valid, 8 * b + 4) as u8,
        bit(valid, 8 * b + 5) as u8,
        bit(valid, 8 * b + 6) as u8,
        bit(valid, 8 * b + 7) as u8,
        x,
    );
    assert(k == 8 * b + k % 8);
}

/// A mask covers as many pixels as it was written for.
pub proof fn law_mask_covers_its_pixels(valid: Seq<bool>)
    ensures
        Validity::Bits(mask_bytes(valid)).covers(valid.len() as int),
{
}

/// The code of parts without an end.
pub open spec fn parts_code(parts: Seq<RlePart>) -> Seq<u8>
    decreases parts.len(),
{
    if parts.len() == 0 {
        Seq::empty()
    } else {
        parts_code(parts.drop_last()) + part_code(parts.last())
    }
}

/// The code of a part: a positive count and its bytes, or a count that is not positive and
/// the byte that is repeated.
pub open spec fn part_code(part: RlePart) -> Seq<u8> {
    match part {
        RlePart::Literal(s) => encode::word(s.len(), 2) + s,
        RlePart::Run(b, n) => encode::word(((0x1_0000 - n) % 0x1_0000) as nat, 2) + seq![b],
    }
}

/// The bytes that a part stands for.
pub open spec fn part_bytes(part: RlePart) -> Seq<u8> {
    match part {
        RlePart::Literal(s) => s,
        RlePart::Run(b, n) => Seq::new(n, |i: int| b),
    }
}

/// The bytes that parts stand for.
pub open spec fn parts_bytes(parts: Seq<RlePart>) -> Seq<u8>
    decreases parts.len(),
{
    if parts.len() == 0 {
        Seq::empty()
    } else {
        parts_bytes(parts.drop_last()) + part_bytes(parts.last())
    }
}

/// A part whose count can be written: 1 to 32767 literal bytes, or 0 to 32767 repetitions.
pub open spec fn is_part(part: RlePart) -> bool {
    match part {
        RlePart::Literal(s) => 1 <= s.len() <= 32767,
        RlePart::Run(b, n) => n <= 32767,
    }
}

/// All parts have counts that can be written.
pub open spec fn are_parts(parts: Seq<RlePart>) -> bool {
    forall|i: int| 0 <= i < parts.len() ==> is_part(#[trigger] parts[i])
}

/// The word that ends a code.
pub open spec fn code_end() -> Seq<u8> {
    seq![0u8, 128u8]
}

/// The count at a place where a word stands.
proof fn lemma_count(src: Seq<u8>, sp: int, v: nat)
    requires
        0 <= sp,
        sp + 2 <= src.len(),
        v < 0x1_0000,
        src.subrange(sp, sp + 2) == encode::word(v, 2),
    ensures
        mask::rle_count(src, sp) == if v < 0x8000 {
            v as int
        } else {
            v - 0x1_0000
        },
{
    lemma2_to64();
    encode::law_words_are_read_back(v, 2);
}

/// The count of the end of a code.
proof fn lemma_end(src: Seq<u8>, sp: int)
    requires
        0 <= sp,
        sp + 2 <= src.len(),
        src.subrange(sp, sp + 2) == code_end(),
    ensures
        mask::rle_count(src, sp) == -32768,
{
    lemma2_to64();
    assert(0x8000nat / 1 % 256 == 0);
    assert(encode::word(0x8000, 2) =~= code_end());
    lemma_count(src, sp, 0x8000);
}

/// Decoding one part.
proof fn lemma_part(src: Seq<u8>, sp: int, out: Seq<u8>, op: int, part: RlePart)
    requires
        0 <= sp,
        sp + part_code(part).len() <= src.len(),
        src.subrange(sp, sp + part_code(part).len()) == part_code(part),
        is_part(part),
        0 <= op,
    ensures
        op + part_bytes(part).len() <= out.len() ==> mask::rle_from(src, sp, out, op)
            == mask::rle_from(
            src,
            sp + part_code(part).len(),
            bytes::overwritten(out, op, part_bytes(part)),
            op + part_bytes(part).len(),
        ),
        op + part_bytes(part).len() > out.len() ==> mask::rle_from(src, sp, out, op) == (
            Err::<(), Fault>(
                Fault::InvalidData(
                    if part is Literal {
                        "LERC RLE literal overrun"@
                    } else {
                        "LERC RLE run overrun"@
                    },
                ),
            ),
            out,
        ),
{
    let code = part_code(part);
    let here = src.subrange(sp, sp + code.len());
    assert(src.subrange(sp, sp + 2) =~= here.subrange(0, 2));
    match part {
        RlePart::Literal(s) => {
            assert(code.subrange(0, 2) =~= encode::word(s.len(), 2));
            lemma_count(src, sp, s.len());
            assert(src.subrange(sp + 2, sp + 2 + s.len()) =~= here.subrange(
                2,
                (2 + s.len()) as int,
            ));
            assert(code.subrange(2, (2 + s.len()) as int) =~= s);
        },
        RlePart::Run(b, n) => {
            let v = ((0x1_0000 - n) % 0x1_0000) as nat;
            assert(code.subrange(0, 2) =~= encode::word(v, 2));
            lemma_count(src, sp, v);
            assert(here[2] == b);
            assert(src[sp + 2] == b);
            assert(Seq::new(n, |i: int| src[sp + 2]) =~= part_bytes(part));
        },
    }
}

/// Decoding parts that fit.
proof fn lemma_parts(src: Seq<u8>, out: Seq<u8>, parts: Seq<RlePart>)
    requires
        parts_code(parts).is_prefix_of(src),
        are_parts(parts),
        parts_bytes(parts).len() <= out.len(),
    ensures
        mask::rle_from(src, 0, out, 0) == mask::rle_from(
            src,
            parts_code(parts).len() as int,
            bytes::overwritten(out, 0, parts_bytes(parts)),
            parts_bytes(parts).len() as int,
        ),
    decreases parts.len(),
{
    let code = parts_code(parts);
    if parts.len() == 0 {
        assert(bytes::overwritten(out, 0, parts_bytes(parts)) =~= out);
    } else {
        let first = parts.drop_last();
        let last = parts.last();
        let sp = parts_code(first).len() as int;
        let op = parts_bytes(first).len() as int;
        assert(code =~= src.subrange(0, code.len() as int));
        assert(parts_code(first) =~= src.subrange(0, sp)) by {
            assert forall|i: int| 0 <= i < sp implies parts_code(first)[i] == #[trigger] src.subrange(
                0,
                sp,
            )[i] by {
                assert(code[i] == parts_code(first)[i]);
            }
        }
        lemma_parts(src, out, first);
        let next = bytes::overwritten(out, 0, parts_bytes(first));
        assert(src.subrange(sp, sp + part_code(last).len()) =~= part_code(last)) by {
            assert forall|i: int| 0 <= i < part_code(last).len() implies #[trigger] src.subrange(
                sp,
                sp + part_code(last).len(),
            )[i] == part_code(last)[i] by {
                assert(code[sp + i] == part_code(last)[i]);
            }
        }
        assert(parts[parts.len() - 1] == last);
        lemma_part(src, sp, next, op, last);
        assert(bytes::overwritten(next, op, part_bytes(last)) =~= bytes::overwritten(
            out,
            0,
            parts_bytes(parts),
        ));
    }
}

/// Run-length decoding undoes coding: the bytes that parts stand for come out at the start
/// of `out`, and the rest of it is left as it was.
pub proof fn law_runs_are_read_back(parts: Seq<RlePart>, rest: Seq<u8>, out: Seq<u8>)
    requires
        are_parts(parts),
        parts_bytes(parts).len() <= out.len(),
    ensures
        mask::rle_from(parts_code(parts) + code_end() + rest, 0, out, 0) == (
            Ok::<(), Fault>(()),
            parts_bytes(parts) + out.skip(parts_bytes(parts).len() as int),
        ),
{
    let code = parts_code(parts);
    let src = code + code_end() + rest;
    let n = code.len() as int;
    assert(code =~= src.subrange(0, n));
    lemma_parts(src, out, parts);
    assert(src.subrange(n, n + 2) =~= code_end());
    lemma_end(src, n);
    assert(bytes::overwritten(out, 0, parts_bytes(parts)) =~= parts_bytes(parts) + out.skip(
        parts_bytes(parts).len() as int,
    ));
}

/// A part that does not fit is refused, and what the parts before it stand for is kept.
pub proof fn law_runs_that_do_not_fit_are_refused(
    parts: Seq<RlePart>,
    part: RlePart,
    rest: Seq<u8>,
    out: Seq<u8>,
)
    requires
        are_parts(parts),
        is_part(part),
        parts_bytes(parts).len() <= out.len() < parts_bytes(parts).len() + part_bytes(part).len(),
    ensures
        mask::rle_from(parts_code(parts) + part_code(part) + rest, 0, out, 0) == (
            Err::<(), Fault>(
                Fault::InvalidData(
                    if part is Literal {
                        "LERC RLE literal overrun"@
                    } else {
                        "LERC RLE run overrun"@
                    },
                ),
            ),
            parts_bytes(parts) + out.skip(parts_bytes(parts).len() as int),
        ),
{
    let code = parts_code(parts);
    let src = code + part_code(part) + rest;
    let n = code.len() as int;
    assert(code =~= src.subrange(0, n));
    lemma_parts(src, out, parts);
    assert(src.subrange(n, n + part_code(part).len()) =~= part_code(part));
    lemma_part(
        src,
        n,
        bytes::overwritten(out, 0, parts_bytes(parts)),
        parts_bytes(parts).len() as int,
        part,
    );
    assert(bytes::overwritten(out, 0, parts_bytes(parts)) =~= parts_bytes(parts) + out.skip(
        parts_bytes(parts).len() as int,
    ));
}

/// A code without an end is refused: one that stops between parts or within a count, one
/// that stops within literal bytes, and one that stops before the byte of a run.
pub proof fn law_runs_without_an_end_are_refused(
    parts: Seq<RlePart>,
    part: RlePart,
    cut: int,
    out: Seq<u8>,
)
    requires
        are_parts(parts),
        is_part(part),
        parts_bytes(parts).len() + part_bytes(part).len() <= out.len(),
        0 <= cut < part_code(part).len(),
    ensures
        mask::rle_from(parts_code(parts) + part_code(part).take(cut), 0, out, 0) == (
            Err::<(), Fault>(
                Fault::InvalidData(
                    if cut < 2 {
                        "truncated LERC RLE"@
                    } else if part is Literal {
                        "LERC RLE literal overrun"@
                    } else {
                        "LERC RLE run overrun"@
                    },
                ),
            ),
            parts_bytes(parts) + out.skip(parts_bytes(parts).len() as int),
        ),
{
    let code = parts_code(parts);
    let src = code + part_code(part).take(cut);
    let n = code.len() as int;
    assert(code =~= src.subrange(0, n));
    lemma_parts(src, out, parts);
    if cut >= 2 {
        let v = match part {
            RlePart::Literal(s) => s.len(),
            RlePart::Run(b, n) => ((0x1_0000 - n) % 0x1_0000) as nat,
        };
        assert(src.subrange(n, n + 2) =~= encode::word(v, 2));
        lemma_count(src, n, v);
    }
    assert(bytes::overwritten(out, 0, parts_bytes(parts)) =~= parts_bytes(parts) + out.skip(
        parts_bytes(parts).len() as int,
    ));
}

/// A mask as it is written: the number of its bytes, and its run-length code.  None is
/// written where all pixels are valid or none is.
pub open spec fn mask_code(valid: Seq<bool>, parts: Seq<RlePart>) -> Seq<u8> {
    if count(valid) == 0 || count(valid) == valid.len() {
        encode::int_word(0)
    } else {
        let code = parts_code(parts) + code_end();
        encode::int_word(code.len() as int) + code
    }
}

/// The number of valid pixels, and what it says about single ones.
pub proof fn lemma_counted(valid: Seq<bool>)
    ensures
        count(valid) <= valid.len(),
        count(valid) == 0 ==> forall|k: int| 0 <= k < valid.len() ==> !#[trigger] valid[k],
        count(valid) == valid.len() ==> forall|k: int|
            0 <= k < valid.len() ==> #[trigger] valid[k],
    decreases valid.len(),
{
    if valid.len() > 0 {
        let first = valid.drop_last();
        lemma_counted(first);
        assert forall|k: int| 0 <= k < valid.len() - 1 implies #[trigger] valid[k]
            == first[k] by {}
        assert(count(valid) == count(first) + bit(valid, valid.len() - 1));
        if count(valid) == 0 {
            assert forall|k: int| 0 <= k < valid.len() implies !#[trigger] valid[k] by {
                if k < first.len() {
                    assert(!first[k]);
                }
            }
        }
        if count(valid) == valid.len() {
            assert forall|k: int| 0 <= k < valid.len() implies #[trigger] valid[k] by {
                if k < first.len() {
                    assert(first[k]);
                }
            }
        }
    }
}

/// Reading a mask undoes writing it: however its bytes are cut into runs, each pixel is
/// valid if and only if it was written so, and the mask ends where its code ends.
pub proof fn law_mask_is_read_back(
    hd: HeaderInfo,
    valid: Seq<bool>,
    parts: Seq<RlePart>,
    buf: Seq<u8>,
    pos: int,
)
    requires
        0 < hd.n_rows,
        0 < hd.n_cols,
        valid.len() == hd.n_rows * hd.n_cols <= 0x7fff_ffff,
        hd.num_valid_pixel == count(valid),
        are_parts(parts),
        parts_bytes(parts) == mask_bytes(valid),
        parts_code(parts).len() + 2 <= 0x7fff_ffff,
        0 <= pos <= buf.len(),
        mask_code(valid, parts).is_prefix_of(buf.skip(pos)),
    ensures
        ({
            let (mask, end) = decoder::mask_at(hd, buf, pos);
            &&& mask is Ok
            &&& end == pos + mask_code(valid, parts).len()
            &&& mask->Ok_0.covers(valid.len() as int)
            &&& forall|k: int|
                0 <= k < valid.len() ==> #[trigger] mask->Ok_0.valid(k) == valid[k]
        }),
{
    let all = mask_code(valid, parts);
    let (mask, end) = decoder::mask_at(hd, buf, pos);
    let n = count(valid);
    let total = valid.len() as int;
    let code = parts_code(parts) + code_end();
    lemma_counted(valid);
    assert(all =~= buf.skip(pos).subrange(0, all.len() as int));
    assert(buf.subrange(pos, pos + 4) =~= all.subrange(0, 4)) by {
        assert forall|i: int| 0 <= i < 4 implies #[trigger] buf.subrange(pos, pos + 4)[i]
            == all.subrange(0, 4)[i] by {
            assert(all[i] == buf.skip(pos)[i]);
        }
    }
    if n == 0 || n == valid.len() {
        assert(all.subrange(0, 4) =~= encode::int_word(0));
        encode::lemma_int(buf, pos, 0);
        if n == 0 {
            let blank = decoder::no_bits(total);
            assert(mask_bytes(valid) =~= blank) by {
                assert forall|b: int| 0 <= b < blank.len() implies #[trigger] mask_bytes(valid)[b]
                    == blank[b] by {
                    assert forall|k: int| bit(valid, k) == 0 || k < 0 by {}
                }
            }
            assert forall|k: int| 0 <= k < total implies #[trigger] mask->Ok_0.valid(k)
                == valid[k] by {
                law_mask_bits_are_read_back(valid, k);
            }
        }
    } else {
        let len = code.len() as int;
        assert(all.subrange(0, 4) =~= encode::int_word(len));
        encode::lemma_int(buf, pos, len);
        let src = buf.subrange(pos + 4, pos + 4 + len);
        assert(src =~= code + Seq::<u8>::empty()) by {
            assert forall|i: int| 0 <= i < len implies #[trigger] src[i] == code[i] by {
                assert(all[4 + i] == code[i]);
                assert(all[4 + i] == buf.skip(pos)[4 + i]);
            }
        }
        let blank = decoder::no_bits(total);
        law_runs_are_read_back(parts, Seq::empty(), blank);
        assert(parts_bytes(parts) + blank.skip(parts_bytes(parts).len() as int) =~= mask_bytes(
            valid,
        ));
        assert forall|k: int| 0 <= k < total implies #[trigger] mask->Ok_0.valid(k)
            == valid[k] by {
            law_mask_bits_are_read_back(valid, k);
        }
    }
}

/// A mask is refused where its length is negative, where one is stored though all pixels
/// are valid or none is, and where none is stored though some are valid and some are not.
pub proof fn law_misplaced_masks_are_refused(hd: HeaderInfo, buf: Seq<u8>, pos: int, n: int)
    requires
        0 <= pos,
        pos + 4 <= buf.len(),
        i32::MIN <= n <= i32::MAX,
        buf.subrange(pos, pos + 4) == encode::int_word(n),
    ensures
        ({
            let result = decoder::mask_at(hd, buf, pos).0;
            let uniform = hd.num_valid_pixel == 0 || hd.num_valid_pixel == hd.n_rows * hd.n_cols;
            &&& n < 0 ==> result == Err::<Validity, Fault>(
                Fault::InvalidData("negative mask byte count"@),
            )
            &&& n > 0 && uniform ==> result == Err::<Validity, Fault>(
                Fault::InvalidData("mask stored for all/none-valid tile"@),
            )
            &&& n == 0 && !uniform ==> result == Err::<Validity, Fault>(
                Fault::InvalidData("missing LERC2 mask"@),
            )
            &&& n > 0 && !uniform && pos + 4 + n > buf.len() ==> result == Err::<Validity, Fault>(
                Fault::InvalidData("unexpected end of LERC blob"@),
            )
        }),
{
    encode::lemma_int(buf, pos, n);
}

/// The bits of a byte from the most significant one down.
proof fn lemma_byte_bits(b: u8)
    by (bit_vector)
    ensures
        (b & (0x80u8 >> 0u8) != 0) == (b / 128 % 2 == 1),
        (b & (0x80u8 >> 1u8) != 0) == (b / 64 % 2 == 1),
        (b & (0x80u8 >> 2u8) != 0) == (b / 32 % 2 == 1),
        (b & (0x80u8 >> 3u8) != 0) == (b / 16 % 2 == 1),
        (b & (0x80u8 >> 4u8) != 0) == (b / 8 % 2 == 1),
        (b & (0x80u8 >> 5u8) != 0) == (b / 4 % 2 == 1),
        (b & (0x80u8 >> 6u8) != 0) == (b / 2 % 2 == 1),
        (b & (0x80u8 >> 7u8) != 0) == (b % 2 == 1),
{
}

/// Pixel `k` of a mask is the binary digit of byte `k / 8` that is counted from the most
/// significant one on.
pub proof fn law_pixels_are_digits_of_bytes(bits: Seq<u8>, k: int)
    requires
        0 <= k < 8 * bits.len(),
    ensures
        Validity::Bits(bits).valid(k) <==> bits[k / 8] as nat / pow2((7 - k % 8) as nat) % 2 == 1,
{
    let b = bits[k / 8];
    lemma_byte_bits(b);
    lemma2_to64();
    let s = k % 8;
    let p = pow2((7 - s) as nat);
    vstd::arithmetic::div_mod::lemma_div_basics(b as int);
    assert(s == 0 ==> p == 128);
    assert(s == 1 ==> p == 64);
    assert(s == 2 ==> p == 32);
    assert(s == 3 ==> p == 16);
    assert(s == 4 ==> p == 8);
    assert(s == 5 ==> p == 4);
    assert(s == 6 ==> p == 2);
    assert(s == 7 ==> p == 1);
    assert(bits[k / 8] & (0x80u8 >> (s as u8)) != 0 <==> b as nat / p % 2 == 1);
}

/// A mask that is stored is read as it stands, whether or not it has as many valid pixels as
/// the header says: bytes that its runs do not reach are zeros, and what follows the end of
/// the runs has no influence.
pub proof fn law_stored_mask_is_read_as_it_stands(
    hd: HeaderInfo,
    parts: Seq<RlePart>,
    extra: Seq<u8>,
    buf: Seq<u8>,
    pos: int,
    k: int,
)
    requires
        0 < hd.n_rows,
        0 < hd.n_cols,
        0 < hd.num_valid_pixel < hd.n_rows * hd.n_cols <= 0x7fff_ffff,
        are_parts(parts),
        8 * parts_bytes(parts).len() < hd.n_rows * hd.n_cols + 8,
        parts_code(parts).len() + 2 + extra.len() <= 0x7fff_ffff,
        0 <= pos <= buf.len(),
        ({
            let code = parts_code(parts) + code_end() + extra;
            (encode::int_word(code.len() as int) + code).is_prefix_of(buf.skip(pos))
        }),
        0 <= k < hd.n_rows * hd.n_cols,
    ensures
        ({
            let (mask, end) = decoder::mask_at(hd, buf, pos);
            let stored = parts_bytes(parts);
            &&& mask is Ok
            &&& end == pos + 4 + parts_code(parts).len() + 2 + extra.len()
            &&& mask->Ok_0.covers(hd.n_rows * hd.n_cols)
            &&& mask->Ok_0.valid(k) <==> k / 8 < stored.len() && stored[k / 8] as nat / pow2(
                (7 - k % 8) as nat,
            ) % 2 == 1
        }),
{
    let code = parts_code(parts) + code_end() + extra;
    let len = code.len() as int;
    let all = encode::int_word(len) + code;
    let total = hd.n_rows * hd.n_cols;
    let stored = parts_bytes(parts);
    let (mask, end) = decoder::mask_at(hd, buf, pos);
    assert(all =~= buf.skip(pos).subrange(0, all.len() as int));
    assert(buf.subrange(pos, pos + 4) =~= encode::int_word(len)) by {
        assert forall|i: int| 0 <= i < 4 implies #[trigger] buf.subrange(pos, pos + 4)[i]
            == encode::int_word(len)[i] by {
            assert(all[i] == buf.skip(pos)[i]);
        }
    }
    encode::lemma_int(buf, pos, len);
    let src = buf.subrange(pos + 4, pos + 4 + len);
    assert(src =~= code) by {
        assert forall|i: int| 0 <= i < len implies #[trigger] src[i] == code[i] by {
            assert(all[4 + i] == code[i]);
            assert(all[4 + i] == buf.skip(pos)[4 + i]);
        }
    }
    let blank = decoder::no_bits(total);
    assert(stored.len() <= blank.len());
    law_runs_are_read_back(parts, extra, blank);
    let bits = stored + blank.skip(stored.len() as int);
    assert(mask->Ok_0 == Validity::Bits(bits));
    law_pixels_are_digits_of_bytes(bits, k);
    if k / 8 >= stored.len() {
        assert(bits[k / 8] == 0);
        lemma_pow2_pos((7 - k % 8) as nat);
        vstd::arithmetic::div_mod::lemma_div_basics(pow2((7 - k % 8) as nat) as int);
    }
}

/// A mask whose runs are refused is refused for the same reason.
pub proof fn law_broken_runs_break_the_mask(
    hd: HeaderInfo,
    buf: Seq<u8>,
    pos: int,
    code: Seq<u8>,
    fault: Fault,
)
    requires
        0 < hd.num_valid_pixel < hd.n_rows * hd.n_cols,
        0 <= pos,
        pos + 4 + code.len() <= buf.len(),
        0 < code.len() <= 0x7fff_ffff,
        buf.subrange(pos, pos + 4) == encode::int_word(code.len() as int),
        buf.subrange(pos + 4, pos + 4 + code.len()) == code,
        mask::rle_from(
            code,
            0,
            Seq::new(((hd.n_rows * hd.n_cols + 7) / 8) as nat, |b: int| 0u8),
            0,
        ).0 == Err::<(), Fault>(fault),
    ensures
        decoder::mask_at(hd, buf, pos).0 == Err::<Validity, Fault>(fault),
{
    encode::lemma_int(buf, pos, code.len() as int);
    assert(decoder::no_bits(hd.n_rows * hd.n_cols) =~= Seq::new(
        ((hd.n_rows * hd.n_cols + 7) / 8) as nat,
        |b: int| 0u8,
    ));
}

} // verus!
