//! Big-endian fixed-width integers and the byte buffers of the `bytes` crate.
//!
//! The spec functions here define the byte order once; the functions below
//! them are the only places where the `bytes` crate is called. Their
//! contracts are believed, not proved.

use vstd::prelude::*;

verus! {

/// The two bytes that encode `v`, most significant first.
pub open spec fn u16_bytes(v: u16) -> Seq<u8> {
    seq![(v / 256) as u8, (v % 256) as u8]
}

/// The 16-bit value that the two bytes of `s` from position `i` encode.
pub open spec fn u16_at(s: Seq<u8>, i: int) -> int {
    s[i] as int * 256 + s[i + 1] as int
}

/// The four bytes that encode `v`, most significant first.
pub open spec fn u32_bytes(v: u32) -> Seq<u8> {
    seq![
        (v / 0x100_0000) as u8,
        ((v / 0x1_0000) % 256) as u8,
        ((v / 0x100) % 256) as u8,
        (v % 256) as u8,
    ]
}

/// The 32-bit value that the four bytes of `s` from position `i` encode.
pub open spec fn u32_at(s: Seq<u8>, i: int) -> int {
    s[i] as int * 0x100_0000 + s[i + 1] as int * 0x1_0000 + s[i + 2] as int * 0x100 + s[i + 3] as int
}

/// Two bytes are the encoding of the value they decode to.
pub proof fn lemma_u16_bytes_of_value(s: Seq<u8>, i: int)
    requires
        0 <= i,
        i + 2 <= s.len(),
    ensures
        0 <= u16_at(s, i) <= 0xFFFF,
        s.subrange(i, i + 2) == u16_bytes(u16_at(s, i) as u16),
{
    assert(s.subrange(i, i + 2) =~= u16_bytes(u16_at(s, i) as u16));
}

/// The digits of a number written to the base 256 are its quotients and
/// remainders by the powers of 256.
proof fn lemma_base_256_digits(a: int, b: int, c: int, d: int)
    requires
        0 <= a < 256,
        0 <= b < 256,
        0 <= c < 256,
        0 <= d < 256,
    ensures
        (a * 0x100_0000 + b * 0x1_0000 + c * 0x100 + d) / 0x100_0000 == a,
        ((a * 0x100_0000 + b * 0x1_0000 + c * 0x100 + d) / 0x1_0000) % 256 == b,
        ((a * 0x100_0000 + b * 0x1_0000 + c * 0x100 + d) / 0x100) % 256 == c,
        (a * 0x100_0000 + b * 0x1_0000 + c * 0x100 + d) % 256 == d,
{
    let v = a * 0x100_0000 + b * 0x1_0000 + c * 0x100 + d;
    assert(v / 0x100_0000 == a);
    assert(v / 0x1_0000 == a * 0x100 + b);
    assert(v / 0x100 == a * 0x1_0000 + b * 0x100 + c);
}

/// Reading back what `u32_bytes` wrote gives the value written.
pub proof fn lemma_u32_round_trip(v: u32)
    ensures
        u32_bytes(v).len() == 4,
        u32_at(u32_bytes(v), 0) == v,
{
    let a = v as int / 0x100_0000;
    let b = (v as int / 0x1_0000) % 256;
    let c = (v as int / 0x100) % 256;
    let d = v as int % 256;
    assert(v as int == a * 0x100_0000 + b * 0x1_0000 + c * 0x100 + d);
}

/// Four bytes are the encoding of the value they decode to.
pub proof fn lemma_u32_bytes_of_value(s: Seq<u8>, i: int)
    requires
        0 <= i,
        i + 4 <= s.len(),
    ensures
        0 <= u32_at(s, i) <= 0xFFFF_FFFF,
        s.subrange(i, i + 4) == u32_bytes(u32_at(s, i) as u32),
{
    lemma_base_256_digits(s[i] as int, s[i + 1] as int, s[i + 2] as int, s[i + 3] as int);
    let v = u32_at(s, i) as u32;
    assert(u32_bytes(v)[0] == s[i]);
    assert(u32_bytes(v)[1] == s[i + 1]);
    assert(u32_bytes(v)[2] == s[i + 2]);
    assert(u32_bytes(v)[3] == s[i + 3]);
    assert(s.subrange(i, i + 4) =~= u32_bytes(v));
}

/// `bytes::Bytes`, an immutable shared byte buffer.
#[verifier::external_type_specification]
#[verifier::external_body]
pub struct ExBytes(bytes::Bytes);

/// The bytes that a `bytes::Bytes` holds, in order.
pub uninterp spec fn contents(b: bytes::Bytes) -> Seq<u8>;

/// `bytes::BufMut::put_u16` on a `Vec<u8>`: appends the two bytes of `v`,
/// most significant first, and leaves what was there in place.
#[verifier::external_body]
pub(crate) fn put_u16(buf: &mut Vec<u8>, v: u16)
    ensures
        final(buf)@ == old(buf)@ + u16_bytes(v),
{
    bytes::BufMut::put_u16(buf, v)
}

/// `bytes::BufMut::put_u32` on a `Vec<u8>`: appends the four bytes of `v`,
/// most significant first, and leaves what was there in place.
#[verifier::external_body]
pub(crate) fn put_u32(buf: &mut Vec<u8>, v: u32)
    ensures
        final(buf)@ == old(buf)@ + u32_bytes(v),
{
    bytes::BufMut::put_u32(buf, v)
}

/// `bytes::BufMut::put` on a `Vec<u8>` with a byte slice as source: appends
/// the whole of `src`.
#[verifier::external_body]
pub(crate) fn put(buf: &mut Vec<u8>, src: &[u8])
    ensures
        final(buf)@ == old(buf)@ + src@,
{
    bytes::BufMut::put(buf, src)
}

/// `bytes::BufMut::put_slice` on a `Vec<u8>`: appends the whole of `src`.
#[verifier::external_body]
pub(crate) fn put_slice(buf: &mut Vec<u8>, src: &[u8])
    ensures
        final(buf)@ == old(buf)@ + src@,
{
    bytes::BufMut::put_slice(buf, src)
}

/// `bytes::Buf::get_u16` on a byte slice: the big-endian value of its first
/// two bytes. The call panics on a shorter slice, which `requires` leaves
/// out.
#[verifier::external_body]
pub(crate) fn get_u16(src: &[u8]) -> (v: u16)
    requires
        src@.len() >= 2,
    ensures
        v == u16_at(src@, 0),
{
    let mut cursor = src;
    bytes::Buf::get_u16(&mut cursor)
}

/// `bytes::Buf::get_u32` on a byte slice: the big-endian value of its first
/// four bytes. The call panics on a shorter slice, which `requires` leaves
/// out.
#[verifier::external_body]
pub(crate) fn get_u32(src: &[u8]) -> (v: u32)
    requires
        src@.len() >= 4,
    ensures
        v == u32_at(src@, 0),
{
    let mut cursor = src;
    bytes::Buf::get_u32(&mut cursor)
}

/// `bytes::Buf::copy_to_bytes` on a byte slice: a fresh buffer holding the
/// first `len` bytes of `src`. The call panics where `src` is shorter than
/// `len`, which `requires` leaves out.
#[verifier::external_body]
pub(crate) fn copy_to_bytes(src: &[u8], len: usize) -> (b: bytes::Bytes)
    requires
        len <= src@.len(),
    ensures
        contents(b) == src@.take(len as int),
{
    let mut cursor = src;
    bytes::Buf::copy_to_bytes(&mut cursor, len)
}

/// `bytes::Bytes::from` on a `Vec<u8>`: a buffer holding the vector's bytes.
#[verifier::external_body]
pub(crate) fn bytes_from_vec(v: Vec<u8>) -> (b: bytes::Bytes)
    ensures
        contents(b) == v@,
{
    bytes::Bytes::from(v)
}

/// `bytes::Bytes::as_ref`: the buffer's bytes as a slice.
#[verifier::external_body]
pub(crate) fn bytes_as_slice(b: &bytes::Bytes) -> (s: &[u8])
    ensures
        s@ == contents(*b),
{
    b.as_ref()
}

/// `bytes::Bytes::clone`: another handle on the same bytes.
#[verifier::external_body]
pub(crate) fn bytes_clone(b: &bytes::Bytes) -> (c: bytes::Bytes)
    ensures
        contents(c) == contents(*b),
{
    b.clone()
}

} // verus!
