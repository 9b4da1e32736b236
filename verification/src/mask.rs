//! The validity mask of a raster and its run-length coding.
use vstd::prelude::*;

use crate::bytes;
use crate::bytes::ByteOrder;
use crate::error;
use crate::error::{lerc_err, Fault, LercError};
use crate::reader;

verus! {

/// Which pixels of a raster are valid: all of them, or those whose bit is one, the
/// bits of a byte taken from the most significant one down.
#[derive(Debug)]
pub struct BitMask {
    pub bits: Vec<u8>,
    pub all_valid: bool,
}

/// Bit `k` of bytes, the bits of a byte taken from the most significant one down.
pub open spec fn bit_at(bits: Seq<u8>, k: int) -> bool {
    bits[k / 8] & (0x80u8 >> (k % 8) as u8) != 0
}

/// Which pixels of a raster are valid.
pub enum Validity {
    /// All of them.
    All,
    /// Those whose bit is one.
    Bits(Seq<u8>),
}

impl Validity {
    /// Whether pixel `k` is valid.
    pub open spec fn valid(self, k: int) -> bool {
        match self {
            Validity::All => true,
            Validity::Bits(bits) => bit_at(bits, k),
        }
    }

    /// Whether it is known of each of `n` pixels if it is valid.
    pub open spec fn covers(self, n: int) -> bool {
        match self {
            Validity::All => true,
            Validity::Bits(bits) => n <= 8 * bits.len(),
        }
    }
}

impl View for BitMask {
    type V = Validity;

    open spec fn view(&self) -> Validity {
        if self.all_valid {
            Validity::All
        } else {
            Validity::Bits(self.bits@)
        }
    }
}

impl BitMask {
    /// The mask of a raster without invalid pixels.
    pub fn all_valid() -> (m: BitMask)
        ensures
            m@ == Validity::All,
            m.bits@.len() == 0,
    {
        BitMask { bits: Vec::new(), all_valid: true }
    }

    /// Whether pixel `k` is valid.
    pub fn is_valid(&self, k: i64) -> (r: bool)
        requires
            self.all_valid || 0 <= k < 8 * self.bits.len(),
        ensures
            r == self@.valid(k as int),
    {
        if self.all_valid {
            return true;
        }
        let byte: u8 = self.bits[(k / 8) as usize];
        let bit: u8 = 0x80u8 >> (k % 8) as u8;
        (byte & bit) != 0
    }
}

/// The count that stands at `sp` of a run-length code.
pub open spec fn rle_count(src: Seq<u8>, sp: int) -> int {
    bytes::signed(reader::word_at(src, sp, 2), 0x8000)
}

/// What decoding `src` from `sp` on into `out` from `op` on gives, and `out` after
/// it.
///
/// The code is a sequence of 16-bit counts.  A positive count stands before that
/// many literal bytes; a count that is not positive stands before one byte, to be
/// repeated as often as its magnitude says; -32768 ends the code.
pub open spec fn rle_from(src: Seq<u8>, sp: int, out: Seq<u8>, op: int) -> (
    Result<(), Fault>,
    Seq<u8>,
)
    decreases src.len() - sp,
{
    let count = rle_count(src, sp);
    if sp + 2 > src.len() {
        (Err(Fault::InvalidData("truncated LERC RLE"@)), out)
    } else if count == -32768 {
        (Ok(()), out)
    } else if count > 0 {
        if sp + 2 + count > src.len() || op + count > out.len() {
            (Err(Fault::InvalidData("LERC RLE literal overrun"@)), out)
        } else {
            rle_from(
                src,
                sp + 2 + count,
                bytes::overwritten(out, op, src.subrange(sp + 2, sp + 2 + count)),
                op + count,
            )
        }
    } else if sp + 3 > src.len() || op - count > out.len() {
        (Err(Fault::InvalidData("LERC RLE run overrun"@)), out)
    } else {
        rle_from(
            src,
            sp + 3,
            bytes::overwritten(out, op, Seq::new((-count) as nat, |i: int| src[sp + 2])),
            op - count,
        )
    }
}

/// Decoding a run-length code keeps the length of what it decodes into.
pub proof fn lemma_rle_len(src: Seq<u8>, sp: int, out: Seq<u8>, op: int)
    ensures
        rle_from(src, sp, out, op).1.len() == out.len(),
    decreases src.len() - sp,
{
    let count = rle_count(src, sp);
    if sp + 2 > src.len() || count == -32768 {
    } else if count > 0 {
        if sp + 2 + count <= src.len() && op + count <= out.len() {
            let next = bytes::overwritten(out, op, src.subrange(sp + 2, sp + 2 + count));
            lemma_rle_len(src, sp + 2 + count, next, op + count);
        }
    } else if sp + 3 <= src.len() && op - count <= out.len() {
        let next = bytes::overwritten(out, op, Seq::new((-count) as nat, |i: int| src[sp + 2]));
        lemma_rle_len(src, sp + 3, next, op - count);
    }
}

/// Sets `n` bytes of `out` from `at` on to `b`.
fn fill(out: &mut [u8], at: usize, n: usize, b: u8)
    requires
        at + n <= old(out)@.len(),
    ensures
        final(out)@ == bytes::overwritten(old(out)@, at as int, Seq::new(n as nat, |i: int| b)),
{
    let mut i: usize = 0;
    while i < n
        invariant
            i <= n,
            at + n <= out.len(),
            out@ == bytes::overwritten(old(out)@, at as int, Seq::new(i as nat, |j: int| b)),
            out@.len() == old(out)@.len(),
        decreases n - i,
    {
        out[at + i] = b;
        i = i + 1;
        assert(out@ =~= bytes::overwritten(old(out)@, at as int, Seq::new(i as nat, |j: int| b)));
    }
    assert(out@ =~= bytes::overwritten(old(out)@, at as int, Seq::new(n as nat, |j: int| b)));
}

/// Decodes a run-length code into `out` (see `rle_from`).
pub fn rle_decompress(src: &[u8], out: &mut [u8]) -> (res: Result<(), LercError>)
    ensures
        (error::viewed(res), final(out)@) == rle_from(src@, 0, old(out)@, 0),
{
    let mut sp: usize = 0;
    let mut op: usize = 0;
    let ghost whole = rle_from(src@, 0, out@, 0);
    loop
        invariant
            sp <= src.len(),
            op <= out.len(),
            whole == rle_from(src@, 0, old(out)@, 0),
            whole == rle_from(src@, sp as int, out@, op as int),
        decreases src@.len() - sp,
    {
        if src.len() - sp < 2 {
            return Err(lerc_err("truncated LERC RLE"));
        }
        let word: u64 = bytes::get_word(src, sp, 2, ByteOrder::Little);
        proof {
            vstd::arithmetic::power2::lemma2_to64();
        }
        let count: i32 = if word < 0x8000 {
            word as i32
        } else {
            word as i32 - 0x1_0000
        };
        assert(count == rle_count(src@, sp as int));
        if count == -32768 {
            return Ok(());
        }
        sp = sp + 2;
        if count > 0 {
            let n: usize = count as usize;
            if n > src.len() - sp || n > out.len() - op {
                return Err(lerc_err("LERC RLE literal overrun"));
            }
            bytes::copy_to(out, op, &src[sp..sp + n]);
            sp = sp + n;
            op = op + n;
        } else {
            let n: usize = (-count) as usize;
            if src.len() - sp < 1 || n > out.len() - op {
                return Err(lerc_err("LERC RLE run overrun"));
            }
            let b: u8 = src[sp];
            assert(Seq::new(n as nat, |i: int| b) =~= Seq::new(
                n as nat,
                |i: int| src@[sp as int],
            ));
            fill(out, op, n, b);
            sp = sp + 1;
            op = op + n;
        }
    }
}

/// A part of a run-length code.
pub enum RlePart {
    /// Bytes that stand for themselves.
    Literal(Seq<u8>),
    /// A byte that is repeated.
    Run(u8, nat),
}

impl RlePart {
    /// The part has a count of its own.
    pub open spec fn wf(self) -> bool {
        match self {
            RlePart::Literal(s) => 0 < s.len() <= 0x7fff,
            RlePart::Run(b, n) => n <= 0x7fff,
        }
    }

    /// The code of the part.
    pub open spec fn code(self) -> Seq<u8> {
        match self {
            RlePart::Literal(s) => bytes::le_bytes(s.len(), 2) + s,
            RlePart::Run(b, n) => bytes::le_bytes(
                if n == 0 {
                    0
                } else {
                    (0x1_0000 - n) as nat
                },
                2,
            ) + seq![b],
        }
    }

    /// The bytes that the part stands for.
    pub open spec fn expansion(self) -> Seq<u8> {
        match self {
            RlePart::Literal(s) => s,
            RlePart::Run(b, n) => Seq::new(n, |i: int| b),
        }
    }
}

/// The code of parts, with its end.
pub open spec fn rle_code(parts: Seq<RlePart>) -> Seq<u8>
    decreases parts.len(),
{
    if parts.len() == 0 {
        bytes::le_bytes(0x8000, 2)
    } else {
        parts[0].code() + rle_code(parts.drop_first())
    }
}

/// The bytes that parts stand for.
pub open spec fn rle_expansion(parts: Seq<RlePart>) -> Seq<u8>
    decreases parts.len(),
{
    if parts.len() == 0 {
        Seq::empty()
    } else {
        parts[0].expansion() + rle_expansion(parts.drop_first())
    }
}

/// The count at a place of a code where a word stands.
proof fn lemma_count(src: Seq<u8>, sp: int, word: nat)
    requires
        0 <= sp,
        word < 0x1_0000,
        sp <= src.len(),
        bytes::le_bytes(word, 2).is_prefix_of(src.skip(sp)),
    ensures
        sp + 2 <= src.len(),
        rle_count(src, sp) == bytes::signed(word, 0x8000),
{
    vstd::arithmetic::power2::lemma2_to64();
    bytes::law_value_of_bytes(word, 2, ByteOrder::Little);
    assert(src.subrange(sp, sp + 2) =~= src.skip(sp).subrange(0, 2));
}

/// Decoding gives back what parts stand for, wherever their code stands.
proof fn lemma_rle_decodes(src: Seq<u8>, sp: int, out: Seq<u8>, op: int, parts: Seq<RlePart>)
    requires
        0 <= sp <= src.len(),
        0 <= op,
        op + rle_expansion(parts).len() <= out.len(),
        forall|i: int| 0 <= i < parts.len() ==> (#[trigger] parts[i]).wf(),
        rle_code(parts).is_prefix_of(src.skip(sp)),
    ensures
        rle_from(src, sp, out, op) == (
            Ok::<(), Fault>(()),
            bytes::overwritten(out, op, rle_expansion(parts)),
        ),
    decreases parts.len(),
{
    let all = rle_code(parts);
    let left = src.skip(sp);
    assert(all =~= left.subrange(0, all.len() as int));
    if parts.len() == 0 {
        lemma_count(src, sp, 0x8000);
        assert(bytes::overwritten(out, op, rle_expansion(parts)) =~= out);
    } else {
        let part = parts[0];
        let rest = parts.drop_first();
        let code = part.code();
        let expansion = part.expansion();
        let word: nat = match part {
            RlePart::Literal(s) => s.len(),
            RlePart::Run(b, n) => if n == 0 {
                0
            } else {
                (0x1_0000 - n) as nat
            },
        };
        assert(part.wf());
        bytes::lemma_le_bytes_len(word, 2);
        assert(bytes::le_bytes(word, 2) =~= left.subrange(0, 2)) by {
            assert forall|i: int| 0 <= i < 2 implies bytes::le_bytes(word, 2)[i]
                == #[trigger] left.subrange(0, 2)[i] by {
                assert(all[i] == bytes::le_bytes(word, 2)[i]);
            }
        }
        lemma_count(src, sp, word);
        let next = bytes::overwritten(out, op, expansion);
        let after = sp + code.len();
        assert(rle_code(rest).is_prefix_of(src.skip(after))) by {
            let tail = rle_code(rest);
            assert(tail =~= src.skip(after).subrange(0, tail.len() as int)) by {
                assert forall|i: int| 0 <= i < tail.len() implies tail[i] == #[trigger] src.skip(
                    after,
                ).subrange(0, tail.len() as int)[i] by {
                    assert(all[code.len() + i] == tail[i]);
                    assert(all[code.len() + i] == left[code.len() + i]);
                }
            }
        }
        assert forall|i: int| 0 <= i < rest.len() implies (#[trigger] rest[i]).wf() by {
            assert(rest[i] == parts[i + 1]);
        }
        lemma_rle_decodes(src, after, next, op + expansion.len(), rest);
        assert(bytes::overwritten(next, op + expansion.len(), rle_expansion(rest))
            =~= bytes::overwritten(out, op, rle_expansion(parts)));
        match part {
            RlePart::Literal(s) => {
                assert(src.subrange(sp + 2, sp + 2 + s.len()) =~= s) by {
                    assert forall|i: int| 0 <= i < s.len() implies #[trigger] src.subrange(
                        sp + 2,
                        sp + 2 + s.len(),
                    )[i] == s[i] by {
                        assert(all[2 + i] == s[i]);
                        assert(all[2 + i] == left[2 + i]);
                    }
                }
            },
            RlePart::Run(b, n) => {
                assert(all[2] == b);
                assert(all[2] == left[2]);
                assert(Seq::new(n, |i: int| src[sp + 2]) =~= expansion);
            },
        }
    }
}

/// Decoding undoes run-length coding: literal bytes and runs come out in their order,
/// and what follows the end of the code is not looked at.
pub proof fn law_rle_decoding_undoes_coding(parts: Seq<RlePart>, rest: Seq<u8>, out: Seq<u8>)
    requires
        forall|i: int| 0 <= i < parts.len() ==> (#[trigger] parts[i]).wf(),
        rle_expansion(parts).len() <= out.len(),
    ensures
        rle_from(rle_code(parts) + rest, 0, out, 0) == (
            Ok::<(), Fault>(()),
            bytes::overwritten(out, 0, rle_expansion(parts)),
        ),
{
    let src = rle_code(parts) + rest;
    assert(src.skip(0) =~= src);
    assert(rle_code(parts) =~= src.subrange(0, rle_code(parts).len() as int));
    lemma_rle_decodes(src, 0, out, 0, parts);
}

} // verus!
