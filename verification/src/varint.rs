//! Unsigned LEB128 for numbers of up to 32 bits.

use crate::buffer::{buffer_limit, bytes_len, contents, get_u8, has_room, put_u8, written};
use crate::error::{outcome, ErrorView, ImprintError};
use bytes::{Bytes, BytesMut};
use vstd::prelude::*;

verus! {

const CONTINUATION_BIT: u8 = 0x80;

const SEGMENT_BITS: u8 = 0x7f;

const MAX_VARINT_LEN: usize = 5;

/// The encoding of `v`: groups of seven bits, least significant first, each
/// byte but the last with its high bit set.
pub open spec fn varint(v: nat) -> Seq<u8>
    decreases v,
{
    if v < 128 {
        seq![v as u8]
    } else {
        seq![(128 + v % 128) as u8] + varint(v / 128)
    }
}

/// The weight of the seven-bit group at position `i`: 128 to the power `i`.
pub open spec fn group_weight(i: nat) -> nat {
    if i == 0 {
        1
    } else if i == 1 {
        0x80
    } else if i == 2 {
        0x4000
    } else if i == 3 {
        0x20_0000
    } else {
        0x1000_0000
    }
}

/// Decoding from the group at position `i` on, when the groups before it
/// add up to `acc`.
pub open spec fn parse_varint_from(s: Seq<u8>, i: nat, acc: nat) -> Result<(u32, usize), ErrorView>
    decreases 5 - i,
{
    if i >= 5 {
        Err(ErrorView::InvalidVarInt)
    } else if i >= s.len() {
        Err(ErrorView::BufferUnderflow { needed: 1, available: 0 })
    } else if i == 4 && s[i as int] % 128 > 15 {
        Err(ErrorView::InvalidVarInt)
    } else {
        let sum: nat = acc + (s[i as int] % 128) as nat * group_weight(i);
        if s[i as int] < 128 {
            Ok((sum as u32, (i + 1) as usize))
        } else {
            parse_varint_from(s, i + 1, sum)
        }
    }
}

/// What decoding a varint at the head of `s` gives: the number and how many
/// bytes it took, or the reason why there is none.
///
/// More than five bytes, or a fifth byte with a bit beyond the low four, is
/// an invalid varint; input that ends before a byte with a clear high bit is
/// a buffer underflow.
pub open spec fn parse_varint(s: Seq<u8>) -> Result<(u32, usize), ErrorView> {
    parse_varint_from(s, 0, 0)
}

/// The length of the encoding of `v`, by the size of `v`.
pub open spec fn varint_len(v: nat) -> nat {
    if v < 0x80 {
        1
    } else if v < 0x4000 {
        2
    } else if v < 0x20_0000 {
        3
    } else if v < 0x1000_0000 {
        4
    } else {
        5
    }
}

/// The encoding of a 32-bit number takes between one and five bytes,
/// according to its size.
pub proof fn lemma_varint_len(v: nat)
    requires
        v <= u32::MAX,
    ensures
        varint(v).len() == varint_len(v),
{
    reveal_with_fuel(varint, 6);
}

proof fn lemma_low_bits(val: u32)
    ensures
        (val & 0x7f) == val % 128,
        (val >> 7) == val / 128,
        (val & 0x7f) < 128,
{
    assert((val & 0x7f) == val % 128) by (bit_vector);
    assert((val >> 7) == val / 128) by (bit_vector);
}

proof fn lemma_set_high_bit(byte: u8)
    requires
        byte < 128,
    ensures
        (byte | 0x80) == byte + 128,
{
    assert(byte < 128 ==> (byte | 0x80) == byte + 128) by (bit_vector);
}

/// The number of bytes that [`encode`] appends for `value`.
pub fn encoded_len(value: u32) -> (n: usize)
    ensures
        n == varint(value as nat).len(),
        1 <= n <= 5,
{
    proof {
        lemma_varint_len(value as nat);
    }
    if value < 0x80 {
        1
    } else if value < 0x4000 {
        2
    } else if value < 0x20_0000 {
        3
    } else if value < 0x1000_0000 {
        4
    } else {
        5
    }
}

/// Appends the encoding of `value` to `buf`.
pub fn encode(value: u32, buf: &mut BytesMut)
    requires
        written(*old(buf)).len() + varint(value as nat).len() <= buffer_limit(),
    ensures
        written(*final(buf)) == written(*old(buf)) + varint(value as nat),
{
    let mut val = value;
    loop
        invariant_except_break
            written(*buf) + varint(val as nat) == written(*old(buf)) + varint(value as nat),
            written(*buf).len() + varint(val as nat).len() <= buffer_limit(),
        ensures
            written(*buf) == written(*old(buf)) + varint(value as nat),
        decreases val,
    {
        let ghost before = written(*buf);
        let ghost cur = val;
        proof {
            lemma_low_bits(val);
        }
        let mut byte = (val & (SEGMENT_BITS as u32)) as u8;
        val >>= 7;
        if val != 0 {
            proof {
                lemma_set_high_bit(byte);
            }
            byte |= CONTINUATION_BIT;
        }
        put_u8(buf, byte);
        proof {
            if cur < 128 {
                assert(varint(cur as nat) =~= seq![byte]);
                assert(before + seq![byte] =~= before.push(byte));
            } else {
                assert(varint(cur as nat) =~= seq![byte] + varint(val as nat));
                assert(before.push(byte) + varint(val as nat) =~= before + varint(cur as nat));
            }
        }
        if val == 0 {
            break ;
        }
    }
}

/// Appends the encoding of `value` to `buf` if the buffer has room for it,
/// and says whether it did.
pub fn try_encode(value: u32, buf: &mut BytesMut) -> (done: bool)
    ensures
        done == (written(*old(buf)).len() + varint(value as nat).len() <= buffer_limit()),
        done ==> written(*final(buf)) == written(*old(buf)) + varint(value as nat),
        !done ==> written(*final(buf)) == written(*old(buf)),
{
    if has_room(buf, encoded_len(value)) {
        encode(value, buf);
        true
    } else {
        false
    }
}

proof fn lemma_segment(byte: u8)
    ensures
        (byte & 0x7f) == byte % 128,
        (byte & 0x80 == 0) == (byte < 128),
{
    assert((byte & 0x7f) == byte % 128) by (bit_vector);
    assert((byte & 0x80 == 0) == (byte < 128)) by (bit_vector);
}

proof fn lemma_place_group(result: u32, segment: u32, shift: u32)
    requires
        shift == 0 || shift == 7 || shift == 14 || shift == 21 || shift == 28,
        segment < 128,
        shift == 28 ==> segment < 16,
        result < group_weight((shift / 7) as nat),
    ensures
        (result | (segment << shift)) == result + segment * group_weight((shift / 7) as nat),
        result + segment * group_weight((shift / 7) as nat) < 128 * group_weight(
            (shift / 7) as nat,
        ),
        shift == 28 ==> result + segment * group_weight(4) <= u32::MAX,
{
    if shift == 0 {
        assert(result < 1 && segment < 128 ==> (result | (segment << 0u32)) == result + segment * 1)
            by (bit_vector);
    } else if shift == 7 {
        assert(result < 0x80 && segment < 128 ==> (result | (segment << 7u32)) == result + segment
            * 0x80) by (bit_vector);
    } else if shift == 14 {
        assert(result < 0x4000 && segment < 128 ==> (result | (segment << 14u32)) == result
            + segment * 0x4000) by (bit_vector);
    } else if shift == 21 {
        assert(result < 0x20_0000 && segment < 128 ==> (result | (segment << 21u32)) == result
            + segment * 0x20_0000) by (bit_vector);
    } else {
        assert(result < 0x1000_0000 && segment < 16 ==> (result | (segment << 28u32)) == result
            + segment * 0x1000_0000) by (bit_vector);
    }
}

proof fn lemma_parse_encoded(head: Seq<u8>, w: nat, rest: Seq<u8>, acc: nat)
    requires
        head.len() <= 4,
        acc < group_weight(head.len()),
        acc + w * group_weight(head.len()) <= u32::MAX,
    ensures
        parse_varint_from(head + varint(w) + rest, head.len(), acc) == Ok::<
            (u32, usize),
            ErrorView,
        >(
            (
                (acc + w * group_weight(head.len())) as u32,
                (head.len() + varint(w).len()) as usize,
            ),
        ),
        head.len() + varint(w).len() <= 5,
    decreases w,
{
    let i = head.len();
    let s = head + varint(w) + rest;
    assert(s[i as int] == varint(w)[0]);
    if w >= 128 {
        let byte = (128 + w % 128) as u8;
        let next = head.push(byte);
        assert(i < 4) by {
            if i == 4 {
                assert(w * 0x1000_0000 >= 128 * 0x1000_0000);
            }
        }
        let sum: nat = acc + (w % 128) * group_weight(i);
        assert(sum + (w / 128) * group_weight(i + 1) == acc + w * group_weight(i)) by {
            assert(w == 128 * (w / 128) + w % 128);
            assert(group_weight(i + 1) == 128 * group_weight(i));
            assert((w / 128) * (128 * group_weight(i)) + (w % 128) * group_weight(i) == w
                * group_weight(i)) by (nonlinear_arith)
                requires
                    w == 128 * (w / 128) + w % 128,
            ;
        }
        assert(sum < group_weight(i + 1));
        lemma_parse_encoded(next, w / 128, rest, sum);
        assert(next + varint(w / 128) + rest =~= s);
        assert(byte % 128 == w % 128);
    } else {
        assert(i == 4 ==> w <= 15);
    }
}

/// A number that is encoded and decoded again comes back unchanged, with
/// the length of its encoding, whatever follows the encoding. That length is
/// the shortest that any encoding of the number can have.
pub proof fn lemma_varint_round_trip(v: u32, rest: Seq<u8>)
    ensures
        parse_varint(varint(v as nat) + rest) == Ok::<(u32, usize), ErrorView>(
            (v, varint(v as nat).len() as usize),
        ),
        varint(v as nat).len() == varint_len(v as nat),
{
    lemma_varint_len(v as nat);
    lemma_parse_encoded(Seq::empty(), v as nat, rest, 0);
    assert(Seq::<u8>::empty() + varint(v as nat) + rest =~= varint(v as nat) + rest);
}

proof fn lemma_parsed_below(s: Seq<u8>, i: nat, acc: nat)
    requires
        i <= 4,
        acc < group_weight(i),
        parse_varint_from(s, i, acc) is Ok,
    ensures
        i < parse_varint_from(s, i, acc)->Ok_0.1 <= 5,
        parse_varint_from(s, i, acc)->Ok_0.1 <= s.len(),
        parse_varint_from(s, i, acc)->Ok_0.1 <= 4 ==> parse_varint_from(s, i, acc)->Ok_0.0
            < group_weight(parse_varint_from(s, i, acc)->Ok_0.1 as nat),
    decreases 5 - i,
{
    let sum: nat = acc + (s[i as int] % 128) as nat * group_weight(i);
    if s[i as int] >= 128 {
        assert(i < 4) by {
            if i == 4 {
                assert(parse_varint_from(s, 5, sum) is Err);
            }
        }
        lemma_parsed_below(s, i + 1, sum);
    }
}

/// No sequence of bytes that decodes to a number is shorter than the
/// encoding of that number.
pub proof fn lemma_varint_minimal(s: Seq<u8>)
    requires
        parse_varint(s) is Ok,
    ensures
        varint(parse_varint(s)->Ok_0.0 as nat).len() <= parse_varint(s)->Ok_0.1 <= s.len(),
{
    lemma_parsed_below(s, 0, 0);
    lemma_varint_len(parse_varint(s)->Ok_0.0 as nat);
}

/// Decodes the varint at the head of `bytes`: the number, and how many bytes
/// it took.
pub fn decode(bytes: Bytes) -> (r: Result<(u32, usize), ImprintError>)
    ensures
        outcome(r) == parse_varint(contents(bytes)),
{
    let ghost s = contents(bytes);
    let mut rest = bytes;
    let mut result: u32 = 0;
    let mut shift: u32 = 0;
    let mut bytes_read: usize = 0;
    loop
        invariant_except_break
            s == contents(bytes),
            bytes_read <= MAX_VARINT_LEN,
            bytes_read <= s.len(),
            shift == 7 * bytes_read,
            contents(rest) == s.skip(bytes_read as int),
            bytes_read < 5 ==> result < group_weight(bytes_read as nat),
            parse_varint_from(s, bytes_read as nat, result as nat) == parse_varint(s),
        ensures
            s == contents(bytes),
            parse_varint(s) == Ok::<(u32, usize), ErrorView>((result, bytes_read)),
        decreases MAX_VARINT_LEN - bytes_read,
    {
        if bytes_read >= MAX_VARINT_LEN {
            return Err(ImprintError::InvalidVarInt);
        }
        if bytes_len(&rest) == 0 {
            return Err(ImprintError::BufferUnderflow { needed: 1, available: 0 });
        }
        let ghost i = bytes_read;
        let ghost acc = result;
        let byte = get_u8(&mut rest);
        assert(byte == s[i as int]);
        assert(contents(rest) =~= s.skip(i + 1));
        bytes_read += 1;
        proof {
            lemma_segment(byte);
        }
        let segment = (byte & SEGMENT_BITS) as u32;
        if shift >= 32 || (shift == 28 && segment > 0xF) {
            return Err(ImprintError::InvalidVarInt);
        }
        proof {
            lemma_place_group(result, segment, shift);
        }
        result |= segment << shift;
        assert(result == acc + (s[i as int] % 128) as nat * group_weight(i as nat));
        if byte & CONTINUATION_BIT == 0 {
            break ;
        }
        shift += 7;
    }
    Ok((result, bytes_read))
}

} // verus!
