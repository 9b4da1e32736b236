//! Words in little-endian and big-endian bytes.
use vstd::arithmetic::power2::*;
use vstd::prelude::*;

verus! {

/// The order in which the bytes of a word stand in memory.
#[derive(Clone, Copy, Debug, PartialEq, Eq, Structural)]
pub enum ByteOrder {
    /// The least significant byte comes first.
    Little,
    /// The most significant byte comes first.
    Big,
}

/// The number that bytes stand for, the least significant first.
pub open spec fn le_value(s: Seq<u8>) -> nat
    decreases s.len(),
{
    if s.len() == 0 {
        0
    } else {
        s[0] as nat + 256 * le_value(s.drop_first())
    }
}

/// The last `n` base-256 digits of a number, the least significant first.
pub open spec fn le_bytes(v: nat, n: nat) -> Seq<u8>
    decreases n,
{
    if n == 0 {
        Seq::empty()
    } else {
        seq![(v % 256) as u8] + le_bytes(v / 256, (n - 1) as nat)
    }
}

/// The number that bytes stand for in the given order.
pub open spec fn value_of(s: Seq<u8>, order: ByteOrder) -> nat {
    match order {
        ByteOrder::Little => le_value(s),
        ByteOrder::Big => le_value(s.reverse()),
    }
}

/// The last `n` base-256 digits of a number in the given order.
pub open spec fn bytes_of(v: nat, n: nat, order: ByteOrder) -> Seq<u8> {
    match order {
        ByteOrder::Little => le_bytes(v, n),
        ByteOrder::Big => le_bytes(v, n).reverse(),
    }
}

/// `out` with `part` in place of what stands from `at` on.
pub open spec fn overwritten<T>(out: Seq<T>, at: int, part: Seq<T>) -> Seq<T> {
    Seq::new(
        out.len(),
        |i: int|
            if at <= i < at + part.len() {
                part[i - at]
            } else {
                out[i]
            },
    )
}

/// The integer that a two's complement word of `2 * half` values stands for.
pub open spec fn signed(v: nat, half: nat) -> int {
    if v < half {
        v as int
    } else {
        v - 2 * half
    }
}

/// Every number has as many digits as it is asked for.
pub proof fn lemma_le_bytes_len(v: nat, n: nat)
    ensures
        le_bytes(v, n).len() == n,
    decreases n,
{
    if n > 0 {
        lemma_le_bytes_len(v / 256, (n - 1) as nat);
    }
}

/// The bound on a number of `s.len()` base-256 digits.
pub proof fn lemma_le_value_bound(s: Seq<u8>)
    ensures
        le_value(s) < pow2(8 * s.len()),
    decreases s.len(),
{
    lemma2_to64();
    if s.len() > 0 {
        lemma_le_value_bound(s.drop_first());
        lemma_pow2_adds(8, 8 * s.drop_first().len());
        assert(8 * s.len() == 8 + 8 * s.drop_first().len());
    }
}

/// Bytes are the digits of the number that they stand for.
pub proof fn law_bytes_of_value(s: Seq<u8>, order: ByteOrder)
    ensures
        bytes_of(value_of(s, order), s.len(), order) == s,
{
    match order {
        ByteOrder::Little => lemma_le_bytes_of_value(s),
        ByteOrder::Big => {
            lemma_le_bytes_of_value(s.reverse());
            assert(s.reverse().reverse() =~= s);
        },
    }
}

proof fn lemma_le_bytes_of_value(s: Seq<u8>)
    ensures
        le_bytes(le_value(s), s.len()) == s,
    decreases s.len(),
{
    if s.len() > 0 {
        lemma_le_bytes_of_value(s.drop_first());
        assert(le_value(s) / 256 == le_value(s.drop_first()));
        assert(le_value(s) % 256 == s[0]);
        assert(seq![s[0]] + s.drop_first() =~= s);
    } else {
        assert(s =~= Seq::empty());
    }
}

/// The digits of a number stand for it, where there are enough of them.
pub proof fn law_value_of_bytes(v: nat, n: nat, order: ByteOrder)
    requires
        v < pow2(8 * n),
    ensures
        bytes_of(v, n, order).len() == n,
        value_of(bytes_of(v, n, order), order) == v,
{
    lemma_le_value_of_bytes(v, n);
    lemma_le_bytes_len(v, n);
    assert(le_bytes(v, n).reverse().reverse() =~= le_bytes(v, n));
}

proof fn lemma_le_value_of_bytes(v: nat, n: nat)
    requires
        v < pow2(8 * n),
    ensures
        le_value(le_bytes(v, n)) == v,
    decreases n,
{
    lemma2_to64();
    if n > 0 {
        lemma_pow2_adds(8, (8 * (n - 1)) as nat);
        lemma_le_value_of_bytes(v / 256, (n - 1) as nat);
        assert(le_bytes(v, n).drop_first() =~= le_bytes(v / 256, (n - 1) as nat));
    }
}

/// The word of `n` bytes that stands at `at`.
pub fn get_word(s: &[u8], at: usize, n: usize, order: ByteOrder) -> (v: u64)
    requires
        at + n <= s@.len(),
        n <= 8,
    ensures
        v == value_of(s@.subrange(at as int, at + n), order),
        v < pow2(8 * n as nat),
{
    let ghost part = s@.subrange(at as int, at + n);
    let ghost digits = match order {
        ByteOrder::Little => part,
        ByteOrder::Big => part.reverse(),
    };
    let mut v: u64 = 0;
    let mut left: usize = n;
    proof {
        assert(digits.skip(n as int) =~= Seq::empty());
        lemma_le_value_bound(digits);
        lemma2_to64();
        lemma2_to64_rest();
    }
    while left > 0
        invariant
            left <= n <= 8,
            at + n <= s.len(),
            part == s@.subrange(at as int, at + n),
            digits == match order {
                ByteOrder::Little => part,
                ByteOrder::Big => part.reverse(),
            },
            v == le_value(digits.skip(left as int)),
        decreases left,
    {
        left = left - 1;
        let b: u8 = match order {
            ByteOrder::Little => s[at + left],
            ByteOrder::Big => s[at + (n - 1 - left)],
        };
        proof {
            let rest = digits.skip(left as int);
            assert(rest.drop_first() =~= digits.skip(left + 1));
            assert(rest[0] == b);
            lemma_le_value_bound(rest);
            lemma2_to64();
            lemma2_to64_rest();
            if rest.len() < 8 {
                lemma_pow2_strictly_increases(8 * rest.len(), 64);
            }
        }
        v = b as u64 + 256 * v;
    }
    proof {
        assert(digits.skip(0) =~= digits);
    }
    v
}

/// Stores the last `n` bytes of a word at `at`.
pub fn put_word(out: &mut [u8], at: usize, n: usize, v: u64, order: ByteOrder)
    requires
        at + n <= old(out)@.len(),
    ensures
        final(out)@ == overwritten(old(out)@, at as int, bytes_of(v as nat, n as nat, order)),
{
    let ghost all = le_bytes(v as nat, n as nat);
    let ghost whole = bytes_of(v as nat, n as nat, order);
    let mut rest: u64 = v;
    let mut i: usize = 0;
    proof {
        lemma_le_bytes_len(v as nat, n as nat);
        assert(all.skip(0) =~= all);
    }
    while i < n
        invariant
            i <= n,
            at + n <= out.len(),
            out@.len() == old(out)@.len(),
            all.len() == n,
            whole == match order {
                ByteOrder::Little => all,
                ByteOrder::Big => all.reverse(),
            },
            all.skip(i as int) == le_bytes(rest as nat, (n - i) as nat),
            forall|j: int|
                0 <= j < out@.len() ==> #[trigger] out@[j] == if at <= j < at + n && (match order {
                    ByteOrder::Little => j < at + i,
                    ByteOrder::Big => j >= at + n - i,
                }) {
                    whole[j - at]
                } else {
                    old(out)@[j]
                },
        decreases n - i,
    {
        let b: u8 = (rest % 256) as u8;
        proof {
            let s = all.skip(i as int);
            assert(s[0] == b);
            assert(all.skip(i + 1) =~= s.drop_first());
            assert(s.drop_first() =~= le_bytes(rest as nat / 256, (n - i - 1) as nat));
        }
        match order {
            ByteOrder::Little => {
                out[at + i] = b;
            },
            ByteOrder::Big => {
                out[at + (n - 1 - i)] = b;
            },
        }
        rest = rest / 256;
        i = i + 1;
    }
    assert(out@ =~= overwritten(old(out)@, at as int, whole));
}

/// The byte order of the machine.
pub open spec fn machine_order() -> ByteOrder {
    match vstd::endian::endianness() {
        vstd::endian::Endian::Little => ByteOrder::Little,
        vstd::endian::Endian::Big => ByteOrder::Big,
    }
}

/// The number that the bytes 1, 0 stand for in the order of this machine.
///
/// Calls `u16::from_ne_bytes`, which reads the bytes in the machine's own order:
/// they are 1 in little-endian order and 256 in big-endian order.  Which of the two
/// orders is the machine's is left open.
#[verifier::external_body]
fn native_word_of_one_zero() -> (v: u16)
    ensures
        v == match machine_order() {
            ByteOrder::Little => 1u16,
            ByteOrder::Big => 256u16,
        },
{
    u16::from_ne_bytes([1, 0])
}

/// The byte order in which the bytes 1, 0 stand for `word`.
pub fn order_of_word(word: u16) -> (order: ByteOrder)
    requires
        word == 1 || word == 256,
    ensures
        order == if word == 1 {
            ByteOrder::Little
        } else {
            ByteOrder::Big
        },
        value_of(seq![1u8, 0u8], order) == word,
{
    proof {
        let s = seq![1u8, 0u8];
        reveal_with_fuel(le_value, 3);
        assert(s.drop_first() =~= seq![0u8]);
        assert(s.drop_first().drop_first() =~= Seq::<u8>::empty());
        assert(s.reverse() =~= seq![0u8, 1u8]);
        assert(s.reverse().drop_first() =~= seq![1u8]);
        assert(s.reverse().drop_first().drop_first() =~= Seq::<u8>::empty());
    }
    if word == 1 {
        ByteOrder::Little
    } else {
        ByteOrder::Big
    }
}

/// The byte order of this machine.
pub(crate) fn native_order() -> (order: ByteOrder)
    ensures
        order == machine_order(),
{
    order_of_word(native_word_of_one_zero())
}

/// Copies `part` to `out` at `at`.
pub fn copy_to(out: &mut [u8], at: usize, part: &[u8])
    requires
        at + part@.len() <= old(out)@.len(),
    ensures
        final(out)@ == overwritten(old(out)@, at as int, part@),
{
    let mut i: usize = 0;
    while i < part.len()
        invariant
            i <= part@.len(),
            at + part@.len() <= out.len(),
            out@ == overwritten(old(out)@, at as int, part@.take(i as int)),
            out@.len() == old(out)@.len(),
        decreases part@.len() - i,
    {
        out[at + i] = part[i];
        i = i + 1;
        assert(out@ =~= overwritten(old(out)@, at as int, part@.take(i as int)));
    }
    assert(part@.take(i as int) =~= part@);
    assert(out@ =~= overwritten(old(out)@, at as int, part@));
}

} // verus!
