//! Variable-width big-endian integers.
//!
//! A value is written in as few bytes as can hold it, most significant byte
//! first, and in at least one byte. The byte count is found by rounding up to
//! a power of two, which bounds the value's bit length. That rounding widens
//! through five doubling steps only, so values of 2^32 and above are refused.

use crate::error::{outcome, EncodeError};
use vstd::arithmetic::power2::{
    lemma2_to64, lemma_pow2_adds, lemma_pow2_pos, lemma_pow2_strictly_increases, lemma_pow2_unfold,
    pow2,
};
use vstd::prelude::*;

verus! {

/// Values of this size and above are too wide to encode.
pub const WIDTH_LIMIT: u64 = 0x1_0000_0000;

/// `n` is 2 raised to some natural number.
pub open spec fn is_power_of_two(n: nat) -> bool {
    exists|e: nat| n == pow2(e)
}

/// `p` is the least power of two that is not below `n`.
pub open spec fn is_least_pow2_at_least(p: nat, n: nat) -> bool {
    &&& is_power_of_two(p)
    &&& n <= p
    &&& forall|q: nat| #[trigger] is_power_of_two(q) && n <= q ==> p <= q
}

/// Number of bytes in the shortest encoding of `v`: one for values up to 255,
/// and one more for each further factor of 256.
pub open spec fn byte_width(v: nat) -> nat
    decreases v,
{
    if v < 256 {
        1
    } else {
        1 + byte_width(v / 256)
    }
}

/// The shortest big-endian encoding of `v`, at least one byte long.
pub open spec fn be_bytes(v: nat) -> Seq<u8>
    decreases v,
{
    if v < 256 {
        seq![v as u8]
    } else {
        be_bytes(v / 256).push((v % 256) as u8)
    }
}

/// What encoding `v` gives: its shortest big-endian bytes, or the refusal of
/// a value at or above the width limit.
pub open spec fn encode_int(v: nat) -> Result<Seq<u8>, EncodeError> {
    if v >= WIDTH_LIMIT {
        Err(EncodeError::ValueTooWide)
    } else {
        Ok(be_bytes(v))
    }
}

/// The number that the bytes `s` spell, most significant byte first.
pub open spec fn be_value(s: Seq<u8>) -> nat
    decreases s.len(),
{
    if s.len() == 0 {
        0
    } else {
        be_value(s.drop_last()) * 256 + s.last() as nat
    }
}

/// The `w` least significant base-256 digits of `v`, most significant first.
spec fn be_digits(v: nat, w: nat) -> Seq<u8>
    decreases w,
{
    if w == 0 {
        Seq::empty()
    } else {
        be_digits(v / 256, (w - 1) as nat).push((v % 256) as u8)
    }
}

/// The encoding of `v` is `byte_width(v)` bytes long.
pub proof fn lemma_be_bytes_len(v: nat)
    ensures
        be_bytes(v).len() == byte_width(v),
        byte_width(v) >= 1,
    decreases v,
{
    if v >= 256 {
        lemma_be_bytes_len(v / 256);
    }
}

/// Every value up to 255 is encoded in one byte, which holds the value, and
/// 256 is encoded in two bytes.
pub proof fn lemma_one_byte_up_to_255(v: nat)
    ensures
        v <= 255 ==> encode_int(v) == Ok::<Seq<u8>, EncodeError>(seq![v as u8]),
        v <= 255 ==> be_bytes(v).len() == 1,
        encode_int(256) == Ok::<Seq<u8>, EncodeError>(seq![1u8, 0u8]),
        be_bytes(256).len() == 2,
{
    assert(be_bytes(256) == be_bytes(1).push(0u8));
    assert(be_bytes(1).push(0u8) == seq![1u8, 0u8]);
}

/// The encoding spells the value it was made from.
pub proof fn lemma_be_bytes_value(v: nat)
    ensures
        be_value(be_bytes(v)) == v,
    decreases v,
{
    if v < 256 {
        let s = seq![v as u8];
        assert(s.drop_last().len() == 0);
        assert(be_value(s.drop_last()) == 0);
        assert(s.last() == v as u8);
    } else {
        let head = be_bytes(v / 256);
        let s = head.push((v % 256) as u8);
        lemma_be_bytes_value(v / 256);
        assert(s.drop_last() == head);
        assert(s.last() == (v % 256) as u8);
    }
}

/// No byte sequence that spells `v` is shorter than the encoding of `v`.
pub proof fn lemma_be_bytes_shortest(s: Seq<u8>, v: nat)
    requires
        s.len() >= 1,
        be_value(s) == v,
    ensures
        be_bytes(v).len() <= s.len(),
    decreases s.len(),
{
    lemma_be_bytes_len(v);
    if v >= 256 {
        let head = s.drop_last();
        if head.len() == 0 {
            assert(be_value(head) == 0);
            assert(false);
        }
        assert(be_value(head) == v / 256);
        lemma_be_bytes_shortest(head, v / 256);
        lemma_be_bytes_len(v / 256);
    }
}

/// The encoding of `v` is its `byte_width(v)` lowest base-256 digits.
proof fn lemma_be_bytes_are_digits(v: nat)
    ensures
        be_bytes(v) == be_digits(v, byte_width(v)),
    decreases v,
{
    if v < 256 {
        assert(be_digits(v / 256, 0) == Seq::<u8>::empty());
        assert(be_digits(v, 1) == Seq::<u8>::empty().push((v % 256) as u8));
        assert(be_bytes(v) == be_digits(v, 1));
    } else {
        lemma_be_bytes_are_digits(v / 256);
    }
}

/// The bit length of a value gives its byte count: a value below `2^e`, and
/// not below `2^(e-1)` unless `e` is zero, takes `ceil(e / 8)` bytes, and one
/// byte at least.
pub proof fn lemma_byte_width_of_bit_length(v: nat, e: nat)
    requires
        v < pow2(e),
        e > 0 ==> pow2((e - 1) as nat) <= v,
    ensures
        byte_width(v) == if e <= 8 {
            1
        } else {
            (e + 7) / 8
        },
    decreases e,
{
    lemma2_to64();
    if e > 8 {
        lemma_pow2_adds(8, (e - 8) as nat);
        lemma_pow2_adds(8, (e - 9) as nat);
        lemma_pow2_pos((e - 9) as nat);
        let hi = pow2((e - 8) as nat);
        let lo = pow2((e - 9) as nat);
        assert(pow2(e) == 256 * hi);
        assert(pow2((e - 1) as nat) == 256 * lo);
        assert(v >= 256);
        assert(v / 256 < hi);
        assert(lo <= v / 256);
        lemma_byte_width_of_bit_length(v / 256, (e - 8) as nat);
    } else {
        if e < 8 {
            lemma_pow2_strictly_increases(e, 8);
        }
    }
}

/// A power of two at or above `n` whose half, where it has one, lies below
/// `n` is the least one at or above `n`.
proof fn lemma_least_pow2(e: nat, n: nat)
    requires
        n <= pow2(e),
        e > 0 ==> pow2((e - 1) as nat) < n,
    ensures
        is_least_pow2_at_least(pow2(e), n),
{
    let p = pow2(e);
    assert(is_power_of_two(p));
    assert forall|q: nat| #[trigger] is_power_of_two(q) && n <= q implies p <= q by {
        let f = choose|f: nat| q == pow2(f);
        if f < e {
            if f < e - 1 {
                lemma_pow2_strictly_increases(f, (e - 1) as nat);
            }
            assert(false);
        }
        if f > e {
            lemma_pow2_strictly_increases(e, f);
        }
    }
}

/// A power of two is the least one at or above `n` only if half of it, where
/// it has a half, lies below `n`.
proof fn lemma_least_pow2_half(e: nat, n: nat)
    requires
        is_least_pow2_at_least(pow2(e), n),
        e > 0,
    ensures
        pow2((e - 1) as nat) < n,
{
    let h = pow2((e - 1) as nat);
    assert(is_power_of_two(h));
    lemma_pow2_strictly_increases((e - 1) as nat, e);
}

/// What smearing the highest set bit of `m` over all lower bits gives.
proof fn lemma_smear_rounds_up(m: u64, s: u64)
    by (bit_vector)
    requires
        m < 0x1_0000_0000,
        s == {
            let a = m | (m >> 1);
            let b = a | (a >> 2);
            let c = b | (b >> 4);
            let d = c | (c >> 8);
            d | (d >> 16)
        },
    ensures
        m <= s < 0x1_0000_0000,
        s & ((s + 1) as u64) == 0,
        m >= 1 ==> (s + 1) / 2 <= m,
        s == 0 <==> m == 0,
{
}

/// Dropping the lowest bit of a nonzero run of low bits leaves a shorter run.
proof fn lemma_mask_halves(s: u64)
    by (bit_vector)
    requires
        s < 0x1_0000_0000,
        s & ((s + 1) as u64) == 0,
        s != 0,
    ensures
        (s >> 1) < s,
        (s >> 1) & (((s >> 1) + 1) as u64) == 0,
        s == 2 * (s >> 1) + 1,
{
}

/// A number whose set bits are all its lowest bits is one less than a power
/// of two.
proof fn lemma_mask_successor_is_pow2(s: u64)
    requires
        s < 0x1_0000_0000,
        s & ((s + 1) as u64) == 0,
    ensures
        is_power_of_two((s + 1) as nat),
    decreases s,
{
    if s == 0 {
        lemma2_to64();
        assert(s + 1 == pow2(0));
    } else {
        let h = s >> 1;
        lemma_mask_halves(s);
        lemma_mask_successor_is_pow2(h);
        let e = choose|e: nat| (h + 1) as nat == pow2(e);
        lemma_pow2_unfold(e + 1);
        assert(s + 1 == pow2(e + 1));
    }
}

/// Rounds `n` up to a power of two: returns the least power of two that is
/// not below `n`, which is 1 for `n == 0`.
///
/// The rounding covers `n` up to `2^32`; a greater `n` is refused.
pub fn next_pow2(n: u64) -> (r: Result<u64, EncodeError>)
    ensures
        r is Err <==> n > WIDTH_LIMIT,
        r is Err ==> r == Err::<u64, EncodeError>(EncodeError::ValueTooWide),
        r matches Ok(p) ==> is_least_pow2_at_least(p as nat, n as nat),
{
    if n > WIDTH_LIMIT {
        return Err(EncodeError::ValueTooWide);
    }
    if n == 0 {
        proof {
            lemma2_to64();
            lemma_least_pow2(0, 0);
        }
        return Ok(1);
    }
    let m: u64 = n - 1;
    let a: u64 = m | (m >> 1);
    let b: u64 = a | (a >> 2);
    let c: u64 = b | (b >> 4);
    let d: u64 = c | (c >> 8);
    let s: u64 = d | (d >> 16);
    proof {
        lemma_smear_rounds_up(m, s);
        lemma_mask_successor_is_pow2(s);
        let e = choose|e: nat| (s + 1) as nat == pow2(e);
        if e > 0 {
            lemma_pow2_unfold(e);
            lemma_pow2_pos((e - 1) as nat);
        }
        lemma_least_pow2(e, n as nat);
    }
    Ok(s + 1)
}

/// Encodes `d` in the fewest big-endian bytes that hold it, and in one byte
/// at least. A value of `2^32` or above is refused.
pub fn short_be_bytes(d: usize) -> (r: Result<Vec<u8>, EncodeError>)
    ensures
        outcome(r) == encode_int(d as nat),
{
    if d as u64 >= WIDTH_LIMIT {
        return Err(EncodeError::ValueTooWide);
    }
    let bound: u64 = match next_pow2(d as u64 + 1) {
        Ok(p) => p,
        Err(e) => {
            return Err(e);
        },
    };
    // `bound` is 2 to the bit length of `d`; count that exponent.
    let ghost bits: nat = choose|e: nat| bound == pow2(e);
    proof {
        lemma2_to64();
        assert(is_power_of_two(pow2(32)));
        if bits > 32 {
            lemma_pow2_strictly_increases(32, bits);
        }
        if bits > 0 {
            lemma_least_pow2_half(bits, (d + 1) as nat);
        }
        lemma_byte_width_of_bit_length(d as nat, bits);
    }
    let mut power: u64 = bound;
    let mut exp: usize = 0;
    while power != 1
        invariant
            exp <= bits <= 32,
            power == pow2((bits - exp) as nat),
        decreases bits - exp,
    {
        proof {
            lemma2_to64();
            if exp < bits {
                lemma_pow2_unfold((bits - exp) as nat);
            }
        }
        power = power / 2;
        exp = exp + 1;
    }
    proof {
        lemma2_to64();
        if exp < bits {
            lemma_pow2_strictly_increases(0, (bits - exp) as nat);
        }
    }
    let width: usize = if exp <= 8 {
        1
    } else {
        (exp + 7) / 8
    };
    assert(width == byte_width(d as nat));
    let mut res: Vec<u8> = vec![0u8; width];
    let mut rest: usize = d;
    let mut idx: usize = width;
    while idx > 0
        invariant
            idx <= width,
            res@.len() == width,
            be_digits(d as nat, width as nat) == be_digits(rest as nat, idx as nat) + res@.skip(
                idx as int,
            ),
        decreases idx,
    {
        let ghost before = res@;
        idx = idx - 1;
        res.set(idx, (rest % 256) as u8);
        proof {
            let tail = before.skip(idx + 1);
            let head = be_digits((rest / 256) as nat, idx as nat);
            let digit = (rest % 256) as u8;
            assert(be_digits(rest as nat, (idx + 1) as nat) == head.push(digit));
            assert(res@.skip(idx as int) == seq![digit] + tail);
            assert(head.push(digit) + tail == head + (seq![digit] + tail));
        }
        rest = rest / 256;
    }
    proof {
        assert(be_digits(rest as nat, 0) == Seq::<u8>::empty());
        assert(res@.skip(0) == res@);
        assert(Seq::<u8>::empty() + res@ == res@);
        lemma_be_bytes_are_digits(d as nat);
    }
    Ok(res)
}

} // verus!
