//! The boundary to the `bytes` crate.
//!
//! A record keeps its payload in a `bytes::Bytes` and is serialised into a
//! `bytes::BytesMut`. Both are opaque to the verifier. What they hold is named
//! by [`contents`] and [`written`], and every call into the crate goes through
//! one item of this module. The contracts of these items restate the crate's
//! documentation; they are assumed, not proved.

use bytes::{Buf, BufMut, Bytes, BytesMut};
use vstd::prelude::*;

verus! {

#[verifier::external_type_specification]
#[verifier::external_body]
pub struct ExBytes(bytes::Bytes);

#[verifier::external_type_specification]
#[verifier::external_body]
pub struct ExBytesMut(bytes::BytesMut);

/// The bytes that a `Bytes` handle gives access to, first to last.
pub uninterp spec fn contents(b: Bytes) -> Seq<u8>;

/// The bytes that have been put into a `BytesMut`, first to last.
pub uninterp spec fn written(b: BytesMut) -> Seq<u8>;

/// The `width` low-order bytes of `x`, least significant first.
pub open spec fn le_bytes(x: nat, width: nat) -> Seq<u8>
    decreases width,
{
    if width == 0 {
        Seq::empty()
    } else {
        seq![(x % 256) as u8] + le_bytes(x / 256, (width - 1) as nat)
    }
}

/// The number whose little-endian bytes are `s`.
pub open spec fn le_value(s: Seq<u8>) -> nat
    decreases s.len(),
{
    if s.len() == 0 {
        0
    } else {
        s[0] as nat + 256 * le_value(s.skip(1))
    }
}

/// The unsigned number that has the two's complement bit pattern of `n`,
/// where `modulus` is two to the power of the width in bits.
pub open spec fn pattern_of(n: int, modulus: int) -> nat {
    if n < 0 {
        (n + modulus) as nat
    } else {
        n as nat
    }
}

/// The signed number whose two's complement bit pattern is `u`.
pub open spec fn signed_of(u: nat, modulus: int) -> int {
    if 2 * u >= modulus {
        u - modulus
    } else {
        u as int
    }
}

/// The most bytes that a `BytesMut` can hold: the largest allocation there
/// is, from which the crate's `remaining_mut` counts down.
pub open spec fn buffer_limit() -> int {
    isize::MAX as int
}

/// `Clone` for `Bytes`: a second handle to the same bytes.
pub assume_specification[ <bytes::Bytes as Clone>::clone ](b: &bytes::Bytes) -> (r: bytes::Bytes)
    ensures
        contents(r) == contents(*b),
;

/// `PartialEq` for `Bytes`: two handles are equal when they hold the same
/// bytes.
pub assume_specification[ <bytes::Bytes as PartialEq>::eq ](
    a: &bytes::Bytes,
    b: &bytes::Bytes,
) -> (r: bool)
    ensures
        r == (contents(*a) == contents(*b)),
;

/// `Bytes::len`: the number of bytes the handle gives access to.
#[verifier::external_body]
pub(crate) fn bytes_len(b: &Bytes) -> (n: usize)
    ensures
        n == contents(*b).len(),
{
    b.len()
}

/// `Bytes::slice`: a handle to the bytes from `begin` up to `end`. The crate
/// panics unless `begin <= end <= len`.
#[verifier::external_body]
pub(crate) fn slice(b: &Bytes, begin: usize, end: usize) -> (r: Bytes)
    requires
        begin <= end <= contents(*b).len(),
    ensures
        contents(r) == contents(*b).subrange(begin as int, end as int),
{
    b.slice(begin..end)
}

/// `AsRef<[u8]>` for `Bytes`: the bytes as a slice.
#[verifier::external_body]
pub(crate) fn as_slice(b: &Bytes) -> (r: &[u8])
    ensures
        r@ == contents(*b),
{
    b.as_ref()
}

/// `Buf::advance` on `Bytes`: moves the handle past its first `cnt` bytes.
/// The crate panics when `cnt` exceeds the length.
#[verifier::external_body]
pub(crate) fn advance(b: &mut Bytes, cnt: usize)
    requires
        cnt <= contents(*old(b)).len(),
    ensures
        contents(*final(b)) == contents(*old(b)).skip(cnt as int),
{
    b.advance(cnt)
}

/// `Buf::get_u8` on `Bytes`: returns the first byte and moves past it. The
/// crate panics on an empty handle.
#[verifier::external_body]
pub(crate) fn get_u8(b: &mut Bytes) -> (r: u8)
    requires
        contents(*old(b)).len() >= 1,
    ensures
        r == contents(*old(b))[0],
        contents(*final(b)) == contents(*old(b)).skip(1),
{
    b.get_u8()
}

/// `Buf::get_u32_le` on `Bytes`: reads four bytes as a little-endian number
/// and moves past them. The crate panics when fewer than four remain.
#[verifier::external_body]
pub(crate) fn get_u32_le(b: &mut Bytes) -> (r: u32)
    requires
        contents(*old(b)).len() >= 4,
    ensures
        r == le_value(contents(*old(b)).take(4)),
        contents(*final(b)) == contents(*old(b)).skip(4),
{
    b.get_u32_le()
}

/// `Buf::get_u64_le` on `Bytes`: reads eight bytes as a little-endian number
/// and moves past them. The crate panics when fewer than eight remain.
#[verifier::external_body]
pub(crate) fn get_u64_le(b: &mut Bytes) -> (r: u64)
    requires
        contents(*old(b)).len() >= 8,
    ensures
        r == le_value(contents(*old(b)).take(8)),
        contents(*final(b)) == contents(*old(b)).skip(8),
{
    b.get_u64_le()
}

/// `Buf::get_i32_le` on `Bytes`: reads four bytes as a little-endian two's
/// complement number and moves past them. The crate panics when fewer than
/// four remain.
#[verifier::external_body]
pub(crate) fn get_i32_le(b: &mut Bytes) -> (r: i32)
    requires
        contents(*old(b)).len() >= 4,
    ensures
        r == signed_of(le_value(contents(*old(b)).take(4)), 0x1_0000_0000),
        contents(*final(b)) == contents(*old(b)).skip(4),
{
    b.get_i32_le()
}

/// `Buf::get_i64_le` on `Bytes`: reads eight bytes as a little-endian two's
/// complement number and moves past them. The crate panics when fewer than
/// eight remain.
#[verifier::external_body]
pub(crate) fn get_i64_le(b: &mut Bytes) -> (r: i64)
    requires
        contents(*old(b)).len() >= 8,
    ensures
        r == signed_of(le_value(contents(*old(b)).take(8)), 0x1_0000_0000_0000_0000),
        contents(*final(b)) == contents(*old(b)).skip(8),
{
    b.get_i64_le()
}

/// `Buf::copy_to_slice` on `Bytes`, into a fresh vector of `n` bytes: copies
/// the first `n` bytes out and moves past them. The crate panics when fewer
/// than `n` remain.
#[verifier::external_body]
pub(crate) fn copy_to_vec(b: &mut Bytes, n: usize) -> (v: Vec<u8>)
    requires
        n <= contents(*old(b)).len(),
    ensures
        v@ == contents(*old(b)).take(n as int),
        contents(*final(b)) == contents(*old(b)).skip(n as int),
{
    let mut v = vec![0u8; n];
    b.copy_to_slice(&mut v);
    v
}

/// `BytesMut::new`: an empty buffer.
#[verifier::external_body]
pub(crate) fn new_buffer() -> (buf: BytesMut)
    ensures
        written(buf) == Seq::<u8>::empty(),
{
    BytesMut::new()
}

/// `BytesMut::len`: the number of bytes in the buffer.
#[verifier::external_body]
pub(crate) fn buffer_len(buf: &BytesMut) -> (n: usize)
    ensures
        n == written(*buf).len(),
{
    buf.len()
}

/// `BytesMut::freeze`: the buffer's bytes as an immutable handle.
#[verifier::external_body]
pub(crate) fn freeze(buf: BytesMut) -> (b: Bytes)
    ensures
        contents(b) == written(buf),
{
    buf.freeze()
}

/// `BufMut::put_u8` on `BytesMut`: appends one byte. The buffer grows as
/// needed; growing panics when the buffer would pass [`buffer_limit`].
#[verifier::external_body]
pub(crate) fn put_u8(buf: &mut BytesMut, n: u8)
    requires
        written(*old(buf)).len() + 1 <= buffer_limit(),
    ensures
        written(*final(buf)) == written(*old(buf)).push(n),
{
    buf.put_u8(n)
}

/// `BufMut::put_slice` on `BytesMut`: appends the bytes of `src`. Growing
/// panics when the buffer would pass [`buffer_limit`].
#[verifier::external_body]
pub(crate) fn put_slice(buf: &mut BytesMut, src: &[u8])
    requires
        written(*old(buf)).len() + src@.len() <= buffer_limit(),
    ensures
        written(*final(buf)) == written(*old(buf)) + src@,
{
    buf.put_slice(src)
}

/// `BufMut::put_u32_le` on `BytesMut`: appends the four little-endian bytes
/// of `n`. Growing panics when the buffer would pass [`buffer_limit`].
#[verifier::external_body]
pub(crate) fn put_u32_le(buf: &mut BytesMut, n: u32)
    requires
        written(*old(buf)).len() + 4 <= buffer_limit(),
    ensures
        written(*final(buf)) == written(*old(buf)) + le_bytes(n as nat, 4),
{
    buf.put_u32_le(n)
}

/// `BufMut::put_u64_le` on `BytesMut`: appends the eight little-endian bytes
/// of `n`. Growing panics when the buffer would pass [`buffer_limit`].
#[verifier::external_body]
pub(crate) fn put_u64_le(buf: &mut BytesMut, n: u64)
    requires
        written(*old(buf)).len() + 8 <= buffer_limit(),
    ensures
        written(*final(buf)) == written(*old(buf)) + le_bytes(n as nat, 8),
{
    buf.put_u64_le(n)
}

/// `BufMut::put_i32_le` on `BytesMut`: appends the four little-endian bytes
/// of the two's complement pattern of `n`. Growing panics when the buffer
/// would pass [`buffer_limit`].
#[verifier::external_body]
pub(crate) fn put_i32_le(buf: &mut BytesMut, n: i32)
    requires
        written(*old(buf)).len() + 4 <= buffer_limit(),
    ensures
        written(*final(buf)) == written(*old(buf)) + le_bytes(
            pattern_of(n as int, 0x1_0000_0000),
            4,
        ),
{
    buf.put_i32_le(n)
}

/// `BufMut::put_i64_le` on `BytesMut`: appends the eight little-endian bytes
/// of the two's complement pattern of `n`. Growing panics when the buffer
/// would pass [`buffer_limit`].
#[verifier::external_body]
pub(crate) fn put_i64_le(buf: &mut BytesMut, n: i64)
    requires
        written(*old(buf)).len() + 8 <= buffer_limit(),
    ensures
        written(*final(buf)) == written(*old(buf)) + le_bytes(
            pattern_of(n as int, 0x1_0000_0000_0000_0000),
            8,
        ),
{
    buf.put_i64_le(n)
}

/// Whether `n` more bytes can be put into `buf`.
pub(crate) fn has_room(buf: &BytesMut, n: usize) -> (r: bool)
    ensures
        r == (written(*buf).len() + n <= buffer_limit()),
{
    let limit: usize = isize::MAX as usize;
    let len = buffer_len(buf);
    len <= limit && n <= limit - len
}

/// The little-endian bytes of a number below `256^width` give the number
/// back.
pub proof fn lemma_le_round_trip(x: nat, width: nat)
    ensures
        le_bytes(x, width).len() == width,
        x < vstd::arithmetic::power::pow(256, width) ==> le_value(le_bytes(x, width)) == x,
    decreases width,
{
    reveal(vstd::arithmetic::power::pow);
    if width > 0 {
        let rest = le_bytes(x / 256, (width - 1) as nat);
        lemma_le_round_trip(x / 256, (width - 1) as nat);
        let s = le_bytes(x, width);
        assert(s.skip(1) =~= rest);
        if x < vstd::arithmetic::power::pow(256, width) {
            assert(vstd::arithmetic::power::pow(256, width) == 256 * vstd::arithmetic::power::pow(
                256,
                (width - 1) as nat,
            ));
            assert(x / 256 < vstd::arithmetic::power::pow(256, (width - 1) as nat));
        }
    }
}

} // verus!
