//! How a block of values is written, and that reading it undoes it.
use vstd::arithmetic::div_mod::*;
use vstd::arithmetic::power2::*;
use vstd::prelude::*;

use crate::bit_stuffer;
use crate::bytes;
use crate::encode;
use crate::error::Fault;
use crate::rounding;

verus! {

/// The start of a block: a byte with the width of the count in its highest two bits (0 for
/// four bytes, 1 for two, 2 for one), whether there is a table in the bit after them and the
/// number of bits of a value in the lowest five, and the count.
pub open spec fn block_start(n: nat, width: nat, has_table: bool, bits: nat) -> Seq<u8> {
    seq![
        ((if width == 4 {
            0int
        } else if width == 2 {
            64
        } else {
            128
        }) + (if has_table {
            32int
        } else {
            0
        }) + bits) as u8,
    ] + encode::word(n, width)
}

/// Whether a count of `n` can be written in `width` bytes.
pub open spec fn has_width(n: nat, width: nat) -> bool {
    ||| width == 1 && n <= 0xff
    ||| width == 2 && n <= 0xffff
    ||| width == 4 && n <= 0xffff_ffff
}

/// Whether `len` is the least number of bytes that `n` values of `bits` bits each fit into.
pub open spec fn is_least_len(len: nat, n: nat, bits: nat) -> bool {
    8 * len - 8 < n * bits <= 8 * len
}

/// Values of `bits` bits each in `len` bytes, the first of them in the lowest bits.
pub open spec fn values_code(values: Seq<u32>, bits: nat, len: nat) -> Seq<u8> {
    encode::word(bit_stuffer::packed(values, bits), len)
}

/// A block without a table.
pub open spec fn block_code(values: Seq<u32>, width: nat, bits: nat, len: nat) -> Seq<u8> {
    block_start(values.len(), width, false, bits) + values_code(values, bits, len)
}

/// A block with a table.
pub open spec fn table_code(
    table: Seq<u32>,
    places: Seq<u32>,
    width: nat,
    bits: nat,
    table_len: nat,
    place_bits: nat,
    places_len: nat,
) -> Seq<u8> {
    block_start(places.len(), width, true, bits) + seq![(table.len() + 1) as u8] + values_code(
        table,
        bits,
        table_len,
    ) + values_code(places, place_bits, places_len)
}

/// The start of a block in the words of the reader.
proof fn lemma_start(n: nat, width: nat, has_table: bool, bits: nat)
    requires
        width == 1 || width == 2 || width == 4,
    ensures
        block_start(n, width, has_table, bits) == bit_stuffer::block_head(
            n,
            width,
            has_table,
            bits,
        ),
        has_width(n, width) ==> n < pow2(8 * width),
{
    lemma2_to64();
    encode::lemma_word(n, width);
    assert(block_start(n, width, has_table, bits) =~= bit_stuffer::block_head(
        n,
        width,
        has_table,
        bits,
    ));
}

/// Packed values in the words of the reader.
proof fn lemma_values(values: Seq<u32>, bits: nat, len: nat)
    requires
        is_least_len(len, values.len(), bits),
    ensures
        values_code(values, bits, len) == bit_stuffer::stuffed(values, bits),
        len == bit_stuffer::stuffed_len(values.len(), bits),
{
    encode::lemma_word(bit_stuffer::packed(values, bits), len);
}

/// Reading a block undoes writing it: the values come out that were packed, however many
/// bits they have and however wide the count is, and the block ends where its code ends.
pub proof fn law_block_is_read_back(
    buf: Seq<u8>,
    pos: int,
    max: nat,
    values: Seq<u32>,
    width: nat,
    bits: nat,
    len: nat,
)
    requires
        0 <= pos <= buf.len(),
        0 < values.len() <= max,
        has_width(values.len(), width),
        1 <= bits <= 31,
        forall|i: int| 0 <= i < values.len() ==> #[trigger] values[i] < pow2(bits),
        is_least_len(len, values.len(), bits),
        block_code(values, width, bits, len).is_prefix_of(buf.skip(pos)),
    ensures
        bit_stuffer::block_at(buf, pos, max) == (
            Ok::<Seq<u32>, Fault>(values),
            pos + block_code(values, width, bits, len).len(),
        ),
{
    lemma_start(values.len(), width, false, bits);
    lemma_values(values, bits, len);
    bit_stuffer::law_block_holds_its_values(buf, pos, max, width, values, bits);
}

/// A block whose values have no bits holds zeros.
pub proof fn law_block_without_bits_is_zero(buf: Seq<u8>, pos: int, max: nat, n: nat, width: nat)
    requires
        0 <= pos <= buf.len(),
        n <= max,
        has_width(n, width),
        block_start(n, width, false, 0).is_prefix_of(buf.skip(pos)),
    ensures
        bit_stuffer::block_at(buf, pos, max) == (
            Ok::<Seq<u32>, Fault>(Seq::new(n, |i: int| 0u32)),
            pos + 1 + width,
        ),
{
    lemma_start(n, width, false, 0);
    bit_stuffer::lemma_block_head(buf, pos, n, width, false, 0);
    assert(bit_stuffer::block_at(buf, pos, max).0->Ok_0 =~= Seq::new(n, |i: int| 0u32));
}

/// Reading a block with a table undoes writing it: where each value is zero and has place
/// zero, or is the entry of the table that its place counts to from one on, the values come
/// out.  A place takes as many bits as the number of entries has.
pub proof fn law_table_block_is_read_back(
    buf: Seq<u8>,
    pos: int,
    max: nat,
    values: Seq<u32>,
    table: Seq<u32>,
    places: Seq<u32>,
    width: nat,
    bits: nat,
    table_len: nat,
    place_bits: nat,
    places_len: nat,
)
    requires
        0 <= pos <= buf.len(),
        0 < values.len() <= max,
        has_width(values.len(), width),
        1 <= bits <= 31,
        1 <= table.len() <= 254,
        forall|i: int| 0 <= i < table.len() ==> #[trigger] table[i] < pow2(bits),
        places.len() == values.len(),
        forall|i: int|
            0 <= i < values.len() ==> {
                ||| #[trigger] places[i] == 0 && values[i] == 0
                ||| 1 <= places[i] <= table.len() && values[i] == table[places[i] - 1]
            },
        1 <= place_bits,
        pow2((place_bits - 1) as nat) <= table.len() < pow2(place_bits),
        is_least_len(table_len, table.len(), bits),
        is_least_len(places_len, places.len(), place_bits),
        table_code(
            table,
            places,
            width,
            bits,
            table_len,
            place_bits,
            places_len,
        ).is_prefix_of(buf.skip(pos)),
    ensures
        bit_stuffer::block_at(buf, pos, max) == (
            Ok::<Seq<u32>, Fault>(values),
            pos + table_code(
                table,
                places,
                width,
                bits,
                table_len,
                place_bits,
                places_len,
            ).len(),
        ),
{
    lemma_start(values.len(), width, true, bits);
    rounding::lemma_excess(table.len(), 0, place_bits);
    lemma_values(table, bits, table_len);
    lemma_values(places, place_bits, places_len);
    assert forall|i: int| 0 <= i < places.len() implies #[trigger] places[i]
        <= table.len() by {}
    bit_stuffer::law_table_block_holds_its_values(
        buf,
        pos,
        max,
        width,
        table,
        places,
        bits,
    );
    assert(bit_stuffer::looked_up(table, places) =~= values);
}

/// A block with a place beyond its table is refused.
pub proof fn law_places_beyond_the_table_are_refused(
    buf: Seq<u8>,
    pos: int,
    max: nat,
    table: Seq<u32>,
    places: Seq<u32>,
    width: nat,
    bits: nat,
    table_len: nat,
    place_bits: nat,
    places_len: nat,
    bad: int,
)
    requires
        0 <= pos <= buf.len(),
        0 < places.len() <= max,
        has_width(places.len(), width),
        1 <= bits <= 31,
        1 <= table.len() <= 254,
        forall|i: int| 0 <= i < table.len() ==> #[trigger] table[i] < pow2(bits),
        0 <= bad < places.len(),
        places[bad] > table.len(),
        1 <= place_bits,
        pow2((place_bits - 1) as nat) <= table.len() < pow2(place_bits),
        forall|i: int| 0 <= i < places.len() ==> #[trigger] places[i] < pow2(place_bits),
        is_least_len(table_len, table.len(), bits),
        is_least_len(places_len, places.len(), place_bits),
        table_code(
            table,
            places,
            width,
            bits,
            table_len,
            place_bits,
            places_len,
        ).is_prefix_of(buf.skip(pos)),
    ensures
        bit_stuffer::block_at(buf, pos, max).0 == Err::<Seq<u32>, Fault>(
            Fault::InvalidData("LERC2 LUT index out of range"@),
        ),
{
    lemma_start(places.len(), width, true, bits);
    rounding::lemma_excess(table.len(), 0, place_bits);
    lemma_values(table, bits, table_len);
    lemma_values(places, place_bits, places_len);
    bit_stuffer::lemma_table_block(buf, pos, max, width, table, places, bits);
    assert(places[bad] > table.len());
}

/// A block is refused where the width of its count does not exist, where it has more values
/// than the tile has pixels, where it has none, where its table has no bits or no entries.
pub proof fn law_malformed_blocks_are_refused(
    buf: Seq<u8>,
    pos: int,
    max: nat,
    n: nat,
    width: nat,
    has_table: bool,
    bits: nat,
)
    requires
        0 <= pos < buf.len(),
        bits <= 31,
        has_width(n, width),
        buf[pos] >= 192 || block_start(n, width, has_table, bits).is_prefix_of(buf.skip(pos)),
    ensures
        ({
            let result = bit_stuffer::block_at(buf, pos, max).0;
            let at = pos + 1 + width;
            if buf[pos] >= 192 {
                result == Err::<Seq<u32>, Fault>(Fault::InvalidData("bad LERC2 count byte width"@))
            } else if n > max {
                result == Err::<Seq<u32>, Fault>(
                    Fault::InvalidData("LERC2 element count exceeds tile"@),
                )
            } else if has_table && bits == 0 {
                result == Err::<Seq<u32>, Fault>(Fault::InvalidData("LERC2 LUT with zero bits"@))
            } else if has_table && at < buf.len() && buf[at] < 2 {
                result == Err::<Seq<u32>, Fault>(Fault::InvalidData("LERC2 LUT too small"@))
            } else {
                n == 0 && bits > 0 && !has_table ==> result == Err::<Seq<u32>, Fault>(
                    Fault::InvalidData("bad LERC2 bit-unstuff params"@),
                )
            }
        }),
{
    if buf[pos] < 192 {
        lemma_start(n, width, has_table, bits);
        bit_stuffer::lemma_block_head(buf, pos, n, width, has_table, bits);
    }
}

/// A block that is cut is refused.
pub proof fn law_cut_blocks_are_refused(
    buf: Seq<u8>,
    pos: int,
    max: nat,
    values: Seq<u32>,
    width: nat,
    bits: nat,
    len: nat,
    cut: int,
)
    requires
        0 <= pos <= buf.len(),
        0 < values.len() <= max,
        has_width(values.len(), width),
        1 <= bits <= 31,
        is_least_len(len, values.len(), bits),
        0 <= cut < block_code(values, width, bits, len).len(),
        buf.skip(pos) == block_code(values, width, bits, len).take(cut),
    ensures
        bit_stuffer::block_at(buf, pos, max).0 == Err::<Seq<u32>, Fault>(
            Fault::InvalidData("unexpected end of LERC blob"@),
        ),
{
    let code = block_code(values, width, bits, len);
    let n = values.len();
    lemma_start(n, width, false, bits);
    lemma_values(values, bits, len);
    let start = block_start(n, width, false, bits);
    lemma2_to64();
    assert(buf.skip(pos).len() == buf.len() - pos);
    assert(code.take(cut).len() == cut);
    if cut >= 1 {
        assert(buf[pos] == buf.skip(pos)[0]);
        assert(buf[pos] == code[0]);
        assert(start[0] == code[0]);
    }
    if cut >= start.len() {
        assert(start.is_prefix_of(buf.skip(pos))) by {
            assert(start =~= buf.skip(pos).subrange(0, start.len() as int));
        }
        bit_stuffer::lemma_block_head(buf, pos, n, width, false, bits);
    }
}

/// A binary digit of a remainder of a power of two is that of the number.
proof fn lemma_digit_of_remainder(x: nat, bits: nat, b: nat)
    requires
        b < bits,
    ensures
        x % pow2(bits) / pow2(b) % 2 == x / pow2(b) % 2,
{
    let p = pow2(bits) as int;
    let q = pow2(b) as int;
    let up = (bits - b - 1) as nat;
    let k = x as int / p;
    let y = x as int % p;
    lemma_pow2_pos(bits);
    lemma_pow2_pos(b);
    lemma_pow2_adds(b, (bits - b) as nat);
    lemma_pow2_unfold((bits - b) as nat);
    lemma_fundamental_div_mod(x as int, p);
    let u = pow2(up) as int;
    assert(p * k == q * (2 * (u * k))) by (nonlinear_arith)
        requires
            p == q * (2 * u),
    ;
    lemma_hoist_over_denominator(y, 2 * (u * k), q as nat);
    assert(x as int / q == y / q + 2 * (u * k)) by {
        assert(x == y + (2 * (u * k)) * q) by (nonlinear_arith)
            requires
                x == p * k + y,
                p * k == q * (2 * (u * k)),
        ;
    }
    lemma_mod_multiples_vanish(u * k, y / q, 2);
}

/// A binary digit of a little-endian number is one of its bytes.
proof fn lemma_digit_of_bytes(s: Seq<u8>, at: nat)
    requires
        at < 8 * s.len(),
    ensures
        bytes::le_value(s) / pow2(at) % 2 == s[at as int / 8] as nat / pow2(at % 8) % 2,
    decreases s.len(),
{
    let v = bytes::le_value(s);
    let rest = bytes::le_value(s.drop_first());
    lemma2_to64();
    if at < 8 {
        lemma_digit_of_remainder(v, 8, at);
        assert(v % 256 == s[0]);
    } else {
        let before = (at - 8) as nat;
        lemma_digit_of_bytes(s.drop_first(), before);
        lemma_pow2_adds(8, before);
        lemma_pow2_pos(before);
        lemma_div_denominator(v as int, 256, pow2(before) as int);
        assert(v / 256 == rest);
        assert(at as int / 8 == before as int / 8 + 1);
        assert(at % 8 == before % 8);
        assert(s.drop_first()[before as int / 8] == s[at as int / 8]);
    }
}

/// Packed values lie one after the other in the bits of their bytes, which are counted from
/// the lowest one of the first byte on: bit `b` of value `i` is bit `i * bits + b`.
pub proof fn law_packed_values_lie_in_order(s: Seq<u8>, n: nat, bits: nat, i: nat, b: nat)
    requires
        1 <= bits <= 31,
        n * bits <= 8 * s.len(),
        i < n,
        b < bits,
    ensures
        ({
            let value = bit_stuffer::unstuffed(s, n, bits)[i as int];
            let at = i * bits + b;
            &&& value < pow2(bits)
            &&& value as nat / pow2(b) % 2 == s[at as int / 8] as nat / pow2(at % 8) % 2
        }),
{
    let v = bytes::le_value(s);
    let x = v / pow2(i * bits);
    let at = i * bits + b;
    lemma2_to64();
    if bits < 31 {
        lemma_pow2_strictly_increases(bits, 31);
    }
    lemma_pow2_pos(bits);
    lemma_pow2_pos(b);
    lemma_pow2_pos(i * bits);
    assert(i * bits + bits <= n * bits) by (nonlinear_arith)
        requires
            i + 1 <= n,
    ;
    lemma_mod_bound(x as int, pow2(bits) as int);
    lemma_digit_of_remainder(x, bits, b);
    lemma_pow2_adds(i * bits, b);
    lemma_div_denominator(v as int, pow2(i * bits) as int, pow2(b) as int);
    lemma_digit_of_bytes(s, at);
}

/// Packed values take the least number of bytes that has room for their bits, are refused
/// where the stream holds fewer, and there are none of no bits or of 32 bits and more.
pub proof fn law_packed_values_take_as_few_bytes_as_they_can(
    buf: Seq<u8>,
    pos: int,
    n: nat,
    bits: int,
    len: nat,
)
    requires
        0 <= pos <= buf.len(),
        0 < bits ==> is_least_len(len, n, bits as nat),
    ensures
        bit_stuffer::packed_at(buf, pos, n, bits) == if n == 0 || bits < 1 || bits > 31 {
            (Err::<Seq<u32>, Fault>(Fault::InvalidData("bad LERC2 bit-unstuff params"@)), pos)
        } else if pos + len > buf.len() {
            (Err(Fault::InvalidData("unexpected end of LERC blob"@)), pos)
        } else {
            (
                Ok(bit_stuffer::unstuffed(buf.subrange(pos, pos + len), n, bits as nat)),
                pos + len,
            )
        },
        n > 0 && 1 <= bits <= 31 ==> bit_stuffer::unstuffed(
            buf.subrange(pos, pos + len),
            n,
            bits as nat,
        ).len() == n,
{
}

/// Values that are written over the start of a shorter slice are cut where it ends.
pub proof fn law_overwriting_ends_with_the_slice(out: Seq<u32>, part: Seq<u32>)
    ensures
        out.len() <= part.len() ==> bytes::overwritten(out, 0, part) == part.take(
            out.len() as int,
        ),
        part.len() <= out.len() ==> bytes::overwritten(out, 0, part) == part + out.skip(
            part.len() as int,
        ),
{
    if out.len() <= part.len() {
        assert(bytes::overwritten(out, 0, part) =~= part.take(out.len() as int));
    }
    if part.len() <= out.len() {
        assert(bytes::overwritten(out, 0, part) =~= part + out.skip(part.len() as int));
    }
}

/// Counts are numbers of one, two or four bytes, the least significant one first; other
/// widths are refused, and so are counts that are cut.
pub proof fn law_counts_are_read_back(buf: Seq<u8>, pos: int, n: nat, width: int)
    requires
        0 <= pos <= buf.len(),
        (width == 1 || width == 2 || width == 4) && pos + width <= buf.len() ==> has_width(
            n,
            width as nat,
        ) && encode::word(n, width as nat).is_prefix_of(buf.skip(pos)),
    ensures
        bit_stuffer::count_at(buf, pos, width) == if !(width == 1 || width == 2 || width == 4) {
            (Err::<u32, Fault>(Fault::InvalidData("bad LERC2 count byte width"@)), pos)
        } else if pos + width > buf.len() {
            (Err(Fault::InvalidData("unexpected end of LERC blob"@)), pos)
        } else {
            (Ok(n as u32), pos + width)
        },
{
    lemma2_to64();
    if (width == 1 || width == 2 || width == 4) && pos + width <= buf.len() {
        encode::law_words_are_read_back(n, width as nat);
        assert(buf.subrange(pos, pos + width) =~= encode::word(n, width as nat)) by {
            assert(encode::word(n, width as nat) =~= buf.skip(pos).subrange(0, width));
        }
    }
}

/// A number of bits that is negative is taken for the unsigned one of 64 bits with the same
/// two's complement.
pub proof fn law_negative_bit_counts_wrap(num_bits: i32)
    ensures
        0 <= bit_stuffer::as_unsigned(num_bits) < 0x1_0000_0000_0000_0000,
        bit_stuffer::as_unsigned(num_bits) % 0x1_0000_0000_0000_0000 == num_bits as int
            % 0x1_0000_0000_0000_0000,
{
}

/// The bytes of the last 32-bit word that are not needed are those without bits: what is
/// left of the words has room for the bits, and with one byte less it would not.
pub proof fn law_needed_bytes_hold_the_bits(total_bits: int)
    requires
        0 <= total_bits,
    ensures
        ({
            let words = (total_bits + 31) / 32;
            let left = 4 * words - bit_stuffer::unneeded_tail(total_bits);
            8 * (left - 1) < total_bits <= 8 * left
        }),
{
}

} // verus!
