//! Unsigned integers packed into as few bits as the largest of them needs.
use vstd::arithmetic::div_mod::*;
use vstd::arithmetic::mul::*;
use vstd::arithmetic::power2::*;
use vstd::prelude::*;

use crate::bytes;
use crate::error;
use crate::error::{lerc_err, Fault, LercError};
use crate::reader;
use crate::reader::ByteReader;
use crate::rounding;

verus! {

/// The number of bytes that `n` values of `bits` bits each take.
pub open spec fn stuffed_len(n: nat, bits: nat) -> nat {
    (n * bits + 7) / 8
}

/// The value at `i` of values of `bits` bits each that are packed into `v`, the
/// first of them in the lowest bits.
pub open spec fn field(v: nat, i: nat, bits: nat) -> nat {
    v / pow2(i * bits) % pow2(bits)
}

/// The `n` values of `bits` bits each that are packed into bytes, the first of them
/// in the lowest bits of the little-endian number that the bytes stand for.
pub open spec fn unstuffed(s: Seq<u8>, n: nat, bits: nat) -> Seq<u32> {
    Seq::new(n, |i: int| field(bytes::le_value(s), i as nat, bits) as u32)
}

/// What reading `n` packed values of `bits` bits each at `pos` gives, and the
/// position after it.
pub open spec fn packed_at(buf: Seq<u8>, pos: int, n: nat, bits: int) -> (
    Result<Seq<u32>, Fault>,
    int,
) {
    if n == 0 || bits >= 32 || bits <= 0 {
        (Err(Fault::InvalidData("bad LERC2 bit-unstuff params"@)), pos)
    } else {
        let len = stuffed_len(n, bits as nat) as int;
        if reader::available(buf, pos, len) {
            (Ok(unstuffed(buf.subrange(pos, pos + len), n, bits as nat)), pos + len)
        } else {
            (Err(reader::end_of_blob()), pos)
        }
    }
}

/// The number `num_bits` as an unsigned 64-bit integer.
pub open spec fn as_unsigned(num_bits: i32) -> int {
    if num_bits < 0 {
        num_bits + 0x1_0000_0000_0000_0000
    } else {
        num_bits as int
    }
}

/// The number of bytes of the last 32-bit word that carry no bits.
pub open spec fn unneeded_tail(total_bits: int) -> int {
    let tail_bytes = (total_bits % 32 + 7) / 8;
    if tail_bytes > 0 {
        4 - tail_bytes
    } else {
        0
    }
}

/// The number of bytes of the last 32-bit word of packed values that carry no bits.
pub fn num_tail_bytes_not_needed(num_elements: usize, num_bits: i32) -> (r: usize)
    requires
        num_elements * as_unsigned(num_bits) <= u64::MAX,
    ensures
        r == unneeded_tail(num_elements * as_unsigned(num_bits)),
        r <= 3,
{
    let bits: u64 = if num_bits < 0 {
        0xffff_ffff_ffff_ffff - (-(num_bits as i64 + 1)) as u64
    } else {
        num_bits as u64
    };
    proof {
        assert(num_elements * bits >= 0) by (nonlinear_arith)
            requires
                num_elements >= 0,
                bits >= 0,
        ;
    }
    let tail_bits: u64 = (num_elements as u64 * bits) % 32;
    let tail_bytes: u64 = (tail_bits + 7) / 8;
    if tail_bytes > 0 {
        (4 - tail_bytes) as usize
    } else {
        0
    }
}

/// Whole 32-bit words without the bytes that carry no bits are as many bytes as the
/// values take.
pub proof fn law_tail_is_cut(n: nat, bits: nat)
    ensures
        4 * ((n * bits + 31) / 32) - unneeded_tail((n * bits) as int) == stuffed_len(n, bits),
{
}

/// One more byte of packed bits.
proof fn lemma_next_byte(s: Seq<u8>, at: int, weight: nat)
    requires
        0 <= at < s.len(),
    ensures
        bytes::le_value(s.skip(at)) * weight == bytes::le_value(s.skip(at + 1)) * (256 * weight)
            + s[at] * weight,
{
    let rest = s.skip(at);
    assert(rest.drop_first() =~= s.skip(at + 1));
    let low = s[at] as int;
    let high = bytes::le_value(s.skip(at + 1)) as int;
    assert((low + 256 * high) * weight == high * (256 * weight) + low * weight)
        by (nonlinear_arith);
}

/// Taking one value off the packed bits.
proof fn lemma_take_field(v: nat, i: nat, bits: nat, high: nat, weight: nat, acc: nat, w: nat)
    requires
        v / pow2(i * bits) == high * weight + acc,
        weight == w * pow2(bits),
        acc < weight,
    ensures
        field(v, i, bits) == acc % pow2(bits),
        v / pow2((i + 1) * bits) == high * w + acc / pow2(bits),
        acc / pow2(bits) < w,
{
    let p = pow2(bits) as int;
    let x = v as int / pow2(i * bits) as int;
    lemma_pow2_pos(bits);
    lemma_pow2_pos(i * bits);
    lemma_fundamental_div_mod(acc as int, p);
    let q = acc as int / p;
    let r = acc as int % p;
    assert(x == (high * w + q) * p + r) by (nonlinear_arith)
        requires
            x == high * weight + acc,
            weight == w * p,
            acc == p * q + r,
    ;
    lemma_fundamental_div_mod_converse(x, p, high * w + q, r);
    assert((i + 1) * bits == i * bits + bits) by (nonlinear_arith);
    lemma_pow2_adds(i * bits, bits);
    lemma_div_denominator(v as int, pow2(i * bits) as int, p);
    assert(q < w) by (nonlinear_arith)
        requires
            p * q <= acc,
            acc < w * p,
            p > 0,
    ;
}

/// Reads `num_elements` packed values of `num_bits` bits each into `data`, as far as
/// it has room.
pub fn bit_unstuff(
    r: &mut ByteReader,
    data: &mut [u32],
    num_elements: usize,
    num_bits: i32,
) -> (res: Result<(), LercError>)
    requires
        old(r).wf(),
        0 < num_bits < 32 ==> num_elements * num_bits <= usize::MAX,
    ensures
        ({
            let (values, pos) = packed_at(
                old(r).buf@,
                old(r).pos as int,
                num_elements as nat,
                num_bits as int,
            );
            &&& final(r).wf()
            &&& final(r).buf == old(r).buf
            &&& final(r).pos == pos
            &&& final(data)@ == match values {
                Ok(s) => bytes::overwritten(old(data)@, 0, s),
                Err(_) => old(data)@,
            }
            &&& error::viewed(res) == match values {
                Ok(_) => Ok(()),
                Err(fault) => Err(fault),
            }
        }),
{
    if num_elements == 0 || num_bits >= 32 || num_bits <= 0 {
        return Err(lerc_err("bad LERC2 bit-unstuff params"));
    }
    let bits: usize = num_bits as usize;
    let total_bits: usize = num_elements * bits;
    let num_uints: usize = if total_bits % 32 == 0 {
        total_bits / 32
    } else {
        total_bits / 32 + 1
    };
    let num_bytes: usize = num_uints * 4;
    let num_bytes_used: usize = num_bytes - num_tail_bytes_not_needed(num_elements, num_bits);
    proof {
        law_tail_is_cut(num_elements as nat, bits as nat);
    }
    let src: &[u8] = r.read_bytes(num_bytes_used)?;
    let ghost v = bytes::le_value(src@);
    let modulus: u64 = rounding::power_of_two(num_bits as u32) as u64;
    proof {
        lemma2_to64();
        lemma_pow2_strictly_increases(bits as nat, 32);
        lemma_mul_basics(bits as int);
        lemma_mul_basics(v as int);
        assert(src@.skip(0) =~= src@);
        lemma_div_basics(v as int);
    }
    // The bits that were read and not handed out yet are the number `acc`, which is
    // below `weight`.
    let mut acc: u64 = 0;
    let mut weight: u64 = 1;
    let mut next: usize = 0;
    let ghost mut have: nat = 0;
    let mut i: usize = 0;
    while i < num_elements && i < data.len()
        invariant
            0 < bits < 32,
            num_elements * bits <= usize::MAX,
            modulus == pow2(bits as nat),
            2 <= modulus <= 0x8000_0000,
            src@.len() == stuffed_len(num_elements as nat, bits as nat),
            v == bytes::le_value(src@),
            i <= num_elements,
            i <= data@.len(),
            data@.len() == old(data)@.len(),
            have < bits + 8,
            weight == pow2(have),
            acc < weight,
            8 * next == i * bits + have,
            next <= src@.len(),
            v / pow2((i * bits) as nat) == bytes::le_value(src@.skip(next as int)) * weight + acc,
            forall|j: int|
                0 <= j < data@.len() ==> #[trigger] data@[j] == if j < i {
                    field(v, j as nat, bits as nat) as u32
                } else {
                    old(data)@[j]
                },
        decreases num_elements - i,
    {
        proof {
            assert((i + 1) * bits <= num_elements * bits) by (nonlinear_arith)
                requires
                    i + 1 <= num_elements,
            ;
            assert((i + 1) * bits == i * bits + bits) by (nonlinear_arith);
            if have > 0 {
                lemma_pow2_strictly_increases(have, 40);
            }
            lemma2_to64_rest();
        }
        while weight < modulus
            invariant
                0 < bits < 32,
                modulus == pow2(bits as nat),
                2 <= modulus <= 0x8000_0000,
                i * bits + bits <= num_elements * bits,
                src@.len() == stuffed_len(num_elements as nat, bits as nat),
                have < bits + 8,
                weight == pow2(have),
                acc < weight,
                8 * next == i * bits + have,
                next <= src@.len(),
                v / pow2((i * bits) as nat) == bytes::le_value(src@.skip(next as int)) * weight
                    + acc,
            decreases bits + 8 - have,
        {
            proof {
                if have >= bits {
                    if have > bits {
                        lemma_pow2_strictly_increases(bits as nat, have);
                    }
                    assert(false);
                }
                lemma_next_byte(src@, next as int, weight as nat);
                lemma_pow2_adds(have, 8);
                lemma2_to64();
                assert(src@[next as int] * weight + weight <= 256 * weight) by (nonlinear_arith)
                    requires
                        src@[next as int] + 1 <= 256,
                        weight >= 0,
                ;
            }
            acc = acc + src[next] as u64 * weight;
            weight = 256 * weight;
            next = next + 1;
            proof {
                have = have + 8;
            }
        }
        let ghost w: nat = pow2((have - bits) as nat);
        proof {
            if have < bits {
                lemma_pow2_strictly_increases(have, bits as nat);
            }
            lemma_pow2_adds((have - bits) as nat, bits as nat);
            lemma_take_field(
                v,
                i as nat,
                bits as nat,
                bytes::le_value(src@.skip(next as int)),
                weight as nat,
                acc as nat,
                w,
            );
            lemma_pow2_pos(bits as nat);
            lemma_div_by_multiple(w as int, modulus as int);
        }
        data[i] = (acc % modulus) as u32;
        acc = acc / modulus;
        weight = weight / modulus;
        proof {
            have = (have - bits) as nat;
        }
        i = i + 1;
    }
    assert(data@ =~= bytes::overwritten(
        old(data)@,
        0,
        unstuffed(src@, num_elements as nat, bits as nat),
    ));
    Ok(())
}

/// What reading a count of `width` bytes at `pos` gives, and the position after it.
pub open spec fn count_at(buf: Seq<u8>, pos: int, width: int) -> (Result<u32, Fault>, int) {
    if width != 1 && width != 2 && width != 4 {
        (Err(Fault::InvalidData("bad LERC2 count byte width"@)), pos)
    } else if reader::available(buf, pos, width) {
        (Ok(reader::word_at(buf, pos, width) as u32), pos + width)
    } else {
        (Err(reader::end_of_blob()), pos)
    }
}

/// Reads a count of `num_bytes` bytes.
pub fn decode_uint(r: &mut ByteReader, num_bytes: i32) -> (res: Result<u32, LercError>)
    requires
        old(r).wf(),
    ensures
        ({
            let (count, pos) = count_at(old(r).buf@, old(r).pos as int, num_bytes as int);
            &&& final(r).wf()
            &&& final(r).buf == old(r).buf
            &&& final(r).pos == pos
            &&& error::viewed(res) == count
        }),
{
    match num_bytes {
        1 => {
            let b: u8 = r.read_u8()?;
            proof {
                let s = old(r).buf@.subrange(old(r).pos as int, old(r).pos + 1);
                assert(s.drop_first() =~= Seq::empty());
                assert(bytes::le_value(s) == s[0]) by {
                    reveal_with_fuel(bytes::le_value, 2);
                }
            }
            Ok(b as u32)
        },
        2 => {
            let w: u16 = r.read_u16()?;
            Ok(w as u32)
        },
        4 => r.read_u32(),
        _ => Err(lerc_err("bad LERC2 count byte width")),
    }
}

/// The number of bytes of the element count of a block with the given first byte.
pub open spec fn count_width(head: u8) -> int {
    let code = head as int / 64;
    if code == 0 {
        4
    } else {
        3 - code
    }
}

/// What reading a block of at most `max` values at `pos` gives, and the position
/// after it.
///
/// The first byte holds the width of the element count, whether the block has a
/// lookup table, and the number of bits of a value.  Without a table the values
/// follow; with one, its entries, whose count is one less than the byte before them
/// says, and then for each value its place in the table: zero stands for the value
/// zero, and `i` for entry `i - 1`.
pub open spec fn block_at(buf: Seq<u8>, pos: int, max: nat) -> (Result<Seq<u32>, Fault>, int) {
    if !reader::available(buf, pos, 1) {
        (Err(reader::end_of_blob()), pos)
    } else {
        let head = buf[pos];
        let bits = head as int % 32;
        let has_table = head as int / 32 % 2 == 1;
        let (count, body) = count_at(buf, pos + 1, count_width(head));
        match count {
            Err(fault) => (Err(fault), body),
            Ok(n) => if n > max {
                (Err(Fault::InvalidData("LERC2 element count exceeds tile"@)), body)
            } else if has_table {
                table_block_at(buf, body, n as nat, bits)
            } else if bits == 0 {
                (Ok(Seq::new(n as nat, |i: int| 0u32)), body)
            } else {
                packed_at(buf, body, n as nat, bits)
            },
        }
    }
}

/// What reading the lookup table and the `n` table places of a block at `pos` gives,
/// and the position after it.
pub open spec fn table_block_at(buf: Seq<u8>, pos: int, n: nat, bits: int) -> (
    Result<Seq<u32>, Fault>,
    int,
) {
    if bits == 0 {
        (Err(Fault::InvalidData("LERC2 LUT with zero bits"@)), pos)
    } else if !reader::available(buf, pos, 1) {
        (Err(reader::end_of_blob()), pos)
    } else if buf[pos] < 2 {
        (Err(Fault::InvalidData("LERC2 LUT too small"@)), pos + 1)
    } else {
        let entries = (buf[pos] - 1) as nat;
        let (table, places_pos) = packed_at(buf, pos + 1, entries, bits);
        match table {
            Err(fault) => (Err(fault), places_pos),
            Ok(values) => {
                let (places, end) = packed_at(
                    buf,
                    places_pos,
                    n,
                    rounding::excess(entries, 0) as int,
                );
                match places {
                    Err(fault) => (Err(fault), end),
                    Ok(ix) => if exists|i: int| 0 <= i < n && #[trigger] ix[i] > entries {
                        (Err(Fault::InvalidData("LERC2 LUT index out of range"@)), end)
                    } else {
                        (Ok(looked_up(values, ix)), end)
                    },
                }
            },
        }
    }
}

/// The values at places of a table, which starts with an entry zero that is not
/// stored.
pub open spec fn looked_up(table: Seq<u32>, places: Seq<u32>) -> Seq<u32> {
    Seq::new(
        places.len(),
        |i: int|
            if places[i] == 0 {
                0u32
            } else {
                table[places[i] - 1]
            },
    )
}

/// Reads a block of at most `max_element_count` values (see `block_at`).
pub fn bit_stuffer2_decode(
    r: &mut ByteReader,
    max_element_count: usize,
    _lerc2_version: i32,
) -> (res: Result<Vec<u32>, LercError>)
    requires
        old(r).wf(),
        max_element_count * 31 <= usize::MAX || u32::MAX * 31 <= usize::MAX,
    ensures
        ({
            let (values, pos) = block_at(
                old(r).buf@,
                old(r).pos as int,
                max_element_count as nat,
            );
            &&& final(r).wf()
            &&& final(r).buf == old(r).buf
            &&& final(r).pos == pos
            &&& res is Ok <==> values is Ok
            &&& res matches Ok(data) ==> data@ == values->Ok_0
            &&& res matches Err(e) ==> e@ == values->Err_0
        }),
{
    let head: u8 = r.read_u8()?;
    let code: u8 = head / 64;
    let width: i32 = if code == 0 {
        4
    } else {
        3 - code as i32
    };
    let has_table: bool = head / 32 % 2 == 1;
    let bits: i32 = (head % 32) as i32;
    let num_elements: usize = decode_uint(r, width)? as usize;
    if num_elements > max_element_count {
        return Err(lerc_err("LERC2 element count exceeds tile"));
    }
    let mut data: Vec<u32> = vec![0u32; num_elements];
    proof {
        assert(num_elements * 31 <= usize::MAX) by (nonlinear_arith)
            requires
                num_elements <= max_element_count,
                num_elements <= u32::MAX,
                max_element_count * 31 <= usize::MAX || u32::MAX * 31 <= usize::MAX,
        ;
        assert(num_elements * bits <= num_elements * 31) by (nonlinear_arith)
            requires
                0 <= bits <= 31,
        ;
    }
    if !has_table {
        if bits > 0 {
            bit_unstuff(r, &mut data, num_elements, bits)?;
        }
        assert(data@ =~= block_at(
            old(r).buf@,
            old(r).pos as int,
            max_element_count as nat,
        ).0->Ok_0);
        return Ok(data);
    }
    if bits == 0 {
        return Err(lerc_err("LERC2 LUT with zero bits"));
    }
    let stored: u8 = r.read_u8()?;
    if stored < 2 {
        return Err(lerc_err("LERC2 LUT too small"));
    }
    let entries: usize = stored as usize - 1;
    let mut table: Vec<u32> = vec![0u32; entries];
    proof {
        assert(entries * bits <= 255 * 31) by (nonlinear_arith)
            requires
                entries <= 255,
                0 <= bits <= 31,
        ;
    }
    let ghost before_table = *r;
    bit_unstuff(r, &mut table, entries, bits)?;
    let ghost values = unstuffed(
        before_table.buf@.subrange(
            before_table.pos as int,
            before_table.pos + stuffed_len(entries as nat, bits as nat),
        ),
        entries as nat,
        bits as nat,
    );
    assert(table@ =~= values);
    let place_bits: i32 = table_place_bits(entries);
    proof {
        assert(num_elements * place_bits <= num_elements * 31) by (nonlinear_arith)
            requires
                0 <= place_bits <= 31,
        ;
    }
    let ghost before_places = *r;
    bit_unstuff(r, &mut data, num_elements, place_bits)?;
    let ghost places = unstuffed(
        before_places.buf@.subrange(
            before_places.pos as int,
            before_places.pos + stuffed_len(num_elements as nat, place_bits as nat),
        ),
        num_elements as nat,
        place_bits as nat,
    );
    assert(data@ =~= places);
    match look_up(&table, &data) {
        Some(found) => Ok(found),
        None => Err(lerc_err("LERC2 LUT index out of range")),
    }
}

/// The values at places of a table (see `looked_up`), unless a place is not in it.
fn look_up(table: &[u32], places: &[u32]) -> (r: Option<Vec<u32>>)
    requires
        table@.len() <= 255,
    ensures
        r is None <==> exists|i: int|
            0 <= i < places@.len() && #[trigger] places@[i] > table@.len(),
        r matches Some(found) ==> found@ == looked_up(table@, places@),
{
    let mut found: Vec<u32> = Vec::new();
    let mut i: usize = 0;
    while i < places.len()
        invariant
            i <= places@.len(),
            found@.len() == i,
            table@.len() <= 255,
            forall|j: int| 0 <= j < i ==> #[trigger] places@[j] <= table@.len(),
            forall|j: int| 0 <= j < i ==> #[trigger] found@[j] == looked_up(table@, places@)[j],
        decreases places@.len() - i,
    {
        let place: usize = places[i] as usize;
        if place > table.len() {
            assert(places@[i as int] > table@.len());
            return None;
        }
        found.push(
            if place == 0 {
                0
            } else {
                table[place - 1]
            },
        );
        i = i + 1;
    }
    assert(found@ =~= looked_up(table@, places@));
    Some(found)
}

/// The number of binary digits of the number of table entries.
fn table_place_bits(entries: usize) -> (bits: i32)
    requires
        0 < entries <= 255,
    ensures
        bits == rounding::excess(entries as nat, 0),
        1 <= bits <= 8,
{
    let mut rest: usize = entries;
    let mut bits: i32 = 0;
    proof {
        lemma2_to64();
    }
    while rest != 0
        invariant
            0 < entries <= 255,
            pow2(0) == 1,
            rounding::excess(entries as nat, 0) == bits + rounding::excess(rest as nat, 0),
            0 <= bits <= 8,
            rest < pow2((8 - bits) as nat),
        decreases rest,
    {
        proof {
            if bits < 8 {
                lemma_pow2_unfold((8 - bits) as nat);
            }
        }
        rest = rest / 2;
        bits = bits + 1;
    }
    bits
}

/// The number that values of `bits` bits each make when they are packed, the first of
/// them in the lowest bits.
pub open spec fn packed(values: Seq<u32>, bits: nat) -> nat
    decreases values.len(),
{
    if values.len() == 0 {
        0
    } else {
        values[0] as nat + pow2(bits) * packed(values.drop_first(), bits)
    }
}

/// The bytes of packed values.
pub open spec fn stuffed(values: Seq<u32>, bits: nat) -> Seq<u8> {
    bytes::le_bytes(packed(values, bits), stuffed_len(values.len(), bits))
}

/// Each of the values has at most `bits` bits.
pub open spec fn fit_into(values: Seq<u32>, bits: nat) -> bool {
    forall|i: int| 0 <= i < values.len() ==> #[trigger] values[i] < pow2(bits)
}

/// The bound on packed values.
proof fn lemma_packed_bound(values: Seq<u32>, bits: nat)
    requires
        fit_into(values, bits),
    ensures
        packed(values, bits) < pow2(values.len() * bits),
    decreases values.len(),
{
    if values.len() == 0 {
        lemma2_to64();
        lemma_mul_basics(bits as int);
    } else {
        let rest = values.drop_first();
        let p = pow2(bits);
        let r = packed(rest, bits);
        let high = pow2(rest.len() * bits);
        lemma_packed_bound(rest, bits);
        assert(values.len() * bits == bits + rest.len() * bits) by (nonlinear_arith)
            requires
                values.len() == rest.len() + 1,
        ;
        lemma_pow2_adds(bits, rest.len() * bits);
        assert(values[0] < p);
        let v = values[0] as nat;
        assert(v + p * r < p * high) by (nonlinear_arith)
            requires
                v < p,
                r + 1 <= high,
        ;
    }
}

/// A field of packed values is the value that was packed.
proof fn lemma_packed_field(values: Seq<u32>, bits: nat, i: nat)
    requires
        fit_into(values, bits),
        i < values.len(),
    ensures
        field(packed(values, bits), i, bits) == values[i as int],
    decreases i,
{
    let rest = values.drop_first();
    let p = pow2(bits) as int;
    let v = packed(values, bits) as int;
    let r = packed(rest, bits) as int;
    lemma_pow2_pos(bits);
    assert(values[0] < pow2(bits));
    assert(p * r == r * p) by (nonlinear_arith);
    lemma_fundamental_div_mod_converse(v, p, r, values[0] as int);
    if i == 0 {
        lemma_mul_basics(bits as int);
        lemma2_to64();
        lemma_div_basics(v);
    } else {
        let before = (i - 1) as nat;
        lemma_packed_field(rest, bits, before);
        assert(i * bits == bits + before * bits) by (nonlinear_arith)
            requires
                i == before + 1,
        ;
        lemma_pow2_adds(bits, before * bits);
        lemma_pow2_pos(before * bits);
        lemma_div_denominator(v, p, pow2(before * bits) as int);
    }
}

/// Unpacking undoes packing.
pub proof fn law_unstuffing_undoes_stuffing(values: Seq<u32>, bits: nat)
    requires
        fit_into(values, bits),
    ensures
        stuffed(values, bits).len() == stuffed_len(values.len(), bits),
        unstuffed(stuffed(values, bits), values.len(), bits) == values,
{
    let v = packed(values, bits);
    let total = values.len() * bits;
    let len = stuffed_len(values.len(), bits);
    lemma_packed_bound(values, bits);
    if total < 8 * len {
        lemma_pow2_strictly_increases(total, 8 * len);
    }
    bytes::law_value_of_bytes(v, len, bytes::ByteOrder::Little);
    assert forall|i: int| 0 <= i < values.len() implies #[trigger] unstuffed(
        stuffed(values, bits),
        values.len(),
        bits,
    )[i] == values[i] by {
        lemma_packed_field(values, bits, i as nat);
    }
    assert(unstuffed(stuffed(values, bits), values.len(), bits) =~= values);
}

/// The first bytes of a block: the width of the count, whether there is a table, the
/// number of bits, and the count.
pub open spec fn block_head(n: nat, width: nat, has_table: bool, bits: nat) -> Seq<u8> {
    let code = if width == 4 {
        0int
    } else {
        3 - width
    };
    let table = if has_table {
        32int
    } else {
        0
    };
    seq![(64 * code + table + bits) as u8] + bytes::le_bytes(n, width)
}

/// What the first bytes of a block say.
pub proof fn lemma_block_head(buf: Seq<u8>, pos: int, n: nat, width: nat, has_table: bool, bits: nat)
    requires
        0 <= pos,
        width == 1 || width == 2 || width == 4,
        n < pow2(8 * width),
        bits < 32,
        block_head(n, width, has_table, bits).is_prefix_of(buf.skip(pos)),
        pos <= buf.len(),
    ensures
        pos + 1 + width <= buf.len(),
        buf[pos] as int % 32 == bits,
        (buf[pos] as int / 32 % 2 == 1) == has_table,
        count_at(buf, pos + 1, count_width(buf[pos])) == (
            Ok::<u32, Fault>(n as u32),
            pos + 1 + width,
        ),
        n <= u32::MAX,
{
    let head = block_head(n, width, has_table, bits);
    lemma2_to64();
    bytes::law_value_of_bytes(n, width, bytes::ByteOrder::Little);
    assert(head[0] == buf.skip(pos)[0]);
    assert(buf.subrange(pos + 1, pos + 1 + width) =~= bytes::le_bytes(n, width)) by {
        assert(head =~= buf.skip(pos).subrange(0, head.len() as int));
        assert forall|i: int| 0 <= i < width implies #[trigger] buf.subrange(
            pos + 1,
            pos + 1 + width,
        )[i] == bytes::le_bytes(n, width)[i] by {
            assert(head[1 + i] == buf.skip(pos)[1 + i]);
        }
    }
}

/// A block gives the values that were packed into it.
pub proof fn law_block_holds_its_values(
    buf: Seq<u8>,
    pos: int,
    max: nat,
    width: nat,
    values: Seq<u32>,
    bits: nat,
)
    requires
        0 <= pos <= buf.len(),
        width == 1 || width == 2 || width == 4,
        0 < values.len() <= max,
        values.len() < pow2(8 * width),
        0 < bits < 32,
        fit_into(values, bits),
        (block_head(values.len(), width, false, bits) + stuffed(values, bits)).is_prefix_of(
            buf.skip(pos),
        ),
    ensures
        block_at(buf, pos, max) == (
            Ok::<Seq<u32>, Fault>(values),
            pos + 1 + width + stuffed_len(values.len(), bits),
        ),
{
    let n = values.len();
    let head = block_head(n, width, false, bits);
    let body = stuffed(values, bits);
    let code = head + body;
    let at = pos + 1 + width;
    bytes::lemma_le_bytes_len(n, width);
    law_unstuffing_undoes_stuffing(values, bits);
    assert(code =~= buf.skip(pos).subrange(0, code.len() as int));
    assert(head.is_prefix_of(buf.skip(pos))) by {
        assert(head =~= buf.skip(pos).subrange(0, head.len() as int)) by {
            assert forall|i: int| 0 <= i < head.len() implies head[i] == #[trigger] buf.skip(
                pos,
            ).subrange(0, head.len() as int)[i] by {
                assert(code[i] == head[i]);
            }
        }
    }
    lemma_block_head(buf, pos, n, width, false, bits);
    assert(buf.subrange(at, at + body.len()) =~= body) by {
        assert forall|i: int| 0 <= i < body.len() implies #[trigger] buf.subrange(
            at,
            at + body.len(),
        )[i] == body[i] by {
            assert(code[1 + width + i] == body[i]);
            assert(code[1 + width + i] == buf.skip(pos)[1 + width + i]);
        }
    }
}

/// Packed values are found where they stand.
proof fn lemma_packed_at(
    buf: Seq<u8>,
    pos: int,
    code: Seq<u8>,
    at: int,
    values: Seq<u32>,
    bits: nat,
)
    requires
        0 <= pos <= buf.len(),
        code.is_prefix_of(buf.skip(pos)),
        0 <= at,
        at + stuffed_len(values.len(), bits) <= code.len(),
        code.subrange(at, at + stuffed_len(values.len(), bits)) == stuffed(values, bits),
        0 < values.len(),
        0 < bits < 32,
        fit_into(values, bits),
    ensures
        packed_at(buf, pos + at, values.len(), bits as int) == (
            Ok::<Seq<u32>, Fault>(values),
            pos + at + stuffed_len(values.len(), bits),
        ),
{
    let len = stuffed_len(values.len(), bits) as int;
    law_unstuffing_undoes_stuffing(values, bits);
    assert(code =~= buf.skip(pos).subrange(0, code.len() as int));
    let part = buf.subrange(pos + at, pos + at + len);
    assert(part =~= stuffed(values, bits)) by {
        assert forall|i: int| 0 <= i < len implies #[trigger] part[i] == stuffed(
            values,
            bits,
        )[i] by {
            assert(code.subrange(at, at + len)[i] == code[at + i]);
            assert(code[at + i] == buf.skip(pos)[at + i]);
        }
    }
}

/// The table and the places of a block are found where they stand.
pub proof fn lemma_table_block(
    buf: Seq<u8>,
    pos: int,
    max: nat,
    width: nat,
    table: Seq<u32>,
    places: Seq<u32>,
    bits: nat,
)
    requires
        0 <= pos <= buf.len(),
        width == 1 || width == 2 || width == 4,
        0 < places.len() <= max,
        places.len() < pow2(8 * width),
        0 < bits < 32,
        0 < table.len() < 255,
        fit_into(table, bits),
        fit_into(places, rounding::excess(table.len(), 0)),
        (block_head(places.len(), width, true, bits) + seq![(table.len() + 1) as u8] + stuffed(
            table,
            bits,
        ) + stuffed(places, rounding::excess(table.len(), 0))).is_prefix_of(buf.skip(pos)),
    ensures
        block_at(buf, pos, max) == (
            if exists|i: int| 0 <= i < places.len() && #[trigger] places[i] > table.len() {
                Err::<Seq<u32>, Fault>(Fault::InvalidData("LERC2 LUT index out of range"@))
            } else {
                Ok(looked_up(table, places))
            },
            pos + 2 + width + stuffed_len(table.len(), bits) + stuffed_len(
                places.len(),
                rounding::excess(table.len(), 0),
            ),
        ),
{
    let n = places.len();
    let head = block_head(n, width, true, bits);
    let place_bits = rounding::excess(table.len(), 0);
    let one = stuffed(table, bits);
    let two = stuffed(places, place_bits);
    let code = head + seq![(table.len() + 1) as u8] + one + two;
    let at = (2 + width) as int;
    lemma2_to64();
    bytes::lemma_le_bytes_len(n, width);
    rounding::lemma_excess_bounds(table.len(), 0);
    if place_bits > 8 {
        if place_bits > 9 {
            lemma_pow2_strictly_increases(8, (place_bits - 1) as nat);
        }
        assert(false);
    }
    law_unstuffing_undoes_stuffing(table, bits);
    law_unstuffing_undoes_stuffing(places, place_bits);
    assert(code =~= buf.skip(pos).subrange(0, code.len() as int));
    assert(head.is_prefix_of(buf.skip(pos))) by {
        assert(head =~= buf.skip(pos).subrange(0, head.len() as int)) by {
            assert forall|i: int| 0 <= i < head.len() implies head[i] == #[trigger] buf.skip(
                pos,
            ).subrange(0, head.len() as int)[i] by {
                assert(code[i] == head[i]);
            }
        }
    }
    lemma_block_head(buf, pos, n, width, true, bits);
    assert(code[1 + width as int] == (table.len() + 1) as u8);
    assert(code[1 + width as int] == buf.skip(pos)[1 + width as int]);
    assert(code.subrange(at, at + one.len()) =~= one);
    lemma_packed_at(buf, pos, code, at, table, bits);
    assert(code.subrange(at + one.len(), at + one.len() + two.len()) =~= two);
    lemma_packed_at(buf, pos, code, at + one.len(), places, place_bits);
}

/// A block with a table gives the values that its places stand for.
pub proof fn law_table_block_holds_its_values(
    buf: Seq<u8>,
    pos: int,
    max: nat,
    width: nat,
    table: Seq<u32>,
    places: Seq<u32>,
    bits: nat,
)
    requires
        0 <= pos <= buf.len(),
        width == 1 || width == 2 || width == 4,
        0 < places.len() <= max,
        places.len() < pow2(8 * width),
        0 < bits < 32,
        0 < table.len() < 255,
        fit_into(table, bits),
        forall|i: int| 0 <= i < places.len() ==> #[trigger] places[i] <= table.len(),
        (block_head(places.len(), width, true, bits) + seq![(table.len() + 1) as u8] + stuffed(
            table,
            bits,
        ) + stuffed(places, rounding::excess(table.len(), 0))).is_prefix_of(buf.skip(pos)),
    ensures
        block_at(buf, pos, max) == (
            Ok::<Seq<u32>, Fault>(looked_up(table, places)),
            pos + 2 + width + stuffed_len(table.len(), bits) + stuffed_len(
                places.len(),
                rounding::excess(table.len(), 0),
            ),
        ),
{
    rounding::lemma_excess_bounds(table.len(), 0);
    assert(fit_into(places, rounding::excess(table.len(), 0)));
    lemma_table_block(buf, pos, max, width, table, places, bits);
}

} // verus!
