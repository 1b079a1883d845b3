//! Byte-level building blocks of the binary protocols: the little-endian
//! layout of integers, and the calls into the `bytes` crate that write and
//! read them.
use vstd::prelude::*;

verus! {

/// The two bytes of `x` in little-endian order.
pub open spec fn le_u16_bytes(x: u16) -> Seq<u8> {
    seq![(x % 256) as u8, (x / 256) as u8]
}

/// The four bytes of `x` in little-endian order.
pub open spec fn le_u32_bytes(x: u32) -> Seq<u8> {
    seq![
        (x % 256) as u8,
        ((x / 256) % 256) as u8,
        ((x / 65536) % 256) as u8,
        (x / 16777216) as u8,
    ]
}

/// The integer whose little-endian bytes are the first two of `s`.
pub open spec fn le_u16_value(s: Seq<u8>) -> u16
    recommends
        s.len() >= 2,
{
    (s[0] + 256 * s[1]) as u16
}

/// The integer whose little-endian bytes are the first four of `s`.
pub open spec fn le_u32_value(s: Seq<u8>) -> u32
    recommends
        s.len() >= 4,
{
    (s[0] + 256 * s[1] + 65536 * s[2] + 16777216 * s[3]) as u32
}

/// Reading back the bytes written for an integer gives the integer.
pub proof fn lemma_le_u16_roundtrip(x: u16)
    ensures
        le_u16_bytes(x).len() == 2,
        le_u16_value(le_u16_bytes(x)) == x,
{
}

/// Reading back the bytes written for an integer gives the integer.
pub proof fn lemma_le_u32_roundtrip(x: u32)
    ensures
        le_u32_bytes(x).len() == 4,
        le_u32_value(le_u32_bytes(x)) == x,
{
}

/// Writing the integer read from four bytes gives back those bytes.
pub proof fn lemma_le_u32_bytes_of_value(s: Seq<u8>)
    requires
        s.len() == 4,
    ensures
        le_u32_bytes(le_u32_value(s)) == s,
{
    let b0 = s[0] as int;
    let b1 = s[1] as int;
    let b2 = s[2] as int;
    let b3 = s[3] as int;
    let x = b0 + 256 * b1 + 65536 * b2 + 16777216 * b3;
    assert(x % 256 == b0 && (x / 256) % 256 == b1 && (x / 65536) % 256 == b2 && x / 16777216
        == b3) by (nonlinear_arith)
        requires
            0 <= b0 < 256,
            0 <= b1 < 256,
            0 <= b2 < 256,
            0 <= b3 < 256,
            x == b0 + 256 * b1 + 65536 * b2 + 16777216 * b3,
    ;
    assert(le_u32_bytes(le_u32_value(s)) =~= s);
}

/// Writing the integer read from two bytes gives back those bytes.
pub proof fn lemma_le_u16_bytes_of_value(s: Seq<u8>)
    requires
        s.len() == 2,
    ensures
        le_u16_bytes(le_u16_value(s)) == s,
{
    assert(le_u16_bytes(le_u16_value(s)) =~= s);
}

/// `bytes::BytesMut`, the growable byte buffer the encoders write into.
#[verifier::external_type_specification]
#[verifier::external_body]
pub struct ExBytesMut(bytes::BytesMut);

/// The bytes held by a `bytes::BytesMut`, in order.
pub uninterp spec fn bytes_mut_contents(b: bytes::BytesMut) -> Seq<u8>;

/// `bytes::BytesMut::new`: an empty buffer.
#[verifier::external_body]
pub(crate) fn buf_new() -> (b: bytes::BytesMut)
    ensures
        bytes_mut_contents(b) == Seq::<u8>::empty(),
{
    bytes::BytesMut::new()
}

/// `BufMut::put_u8` on a `BytesMut`: appends the byte `n`.
#[verifier::external_body]
pub(crate) fn buf_put_u8(buf: &mut bytes::BytesMut, n: u8)
    requires
        bytes_mut_contents(*old(buf)).len() + 1 <= isize::MAX,
    ensures
        bytes_mut_contents(*final(buf)) == bytes_mut_contents(*old(buf)).push(n),
{
    bytes::BufMut::put_u8(buf, n)
}

/// `BufMut::put_u16_le` on a `BytesMut`: appends the two little-endian bytes of `n`.
#[verifier::external_body]
pub(crate) fn buf_put_u16_le(buf: &mut bytes::BytesMut, n: u16)
    requires
        bytes_mut_contents(*old(buf)).len() + 2 <= isize::MAX,
    ensures
        bytes_mut_contents(*final(buf)) == bytes_mut_contents(*old(buf)) + le_u16_bytes(n),
{
    bytes::BufMut::put_u16_le(buf, n)
}

/// `BufMut::put_u32_le` on a `BytesMut`: appends the four little-endian bytes of `n`.
#[verifier::external_body]
pub(crate) fn buf_put_u32_le(buf: &mut bytes::BytesMut, n: u32)
    requires
        bytes_mut_contents(*old(buf)).len() + 4 <= isize::MAX,
    ensures
        bytes_mut_contents(*final(buf)) == bytes_mut_contents(*old(buf)) + le_u32_bytes(n),
{
    bytes::BufMut::put_u32_le(buf, n)
}

/// `BufMut::put_slice` on a `BytesMut`: appends the bytes of `src`.
#[verifier::external_body]
pub(crate) fn buf_put_slice(buf: &mut bytes::BytesMut, src: &[u8])
    requires
        bytes_mut_contents(*old(buf)).len() + src@.len() <= isize::MAX,
    ensures
        bytes_mut_contents(*final(buf)) == bytes_mut_contents(*old(buf)) + src@,
{
    bytes::BufMut::put_slice(buf, src)
}

/// `BytesMut::freeze` followed by `to_vec`: the buffer's bytes as a vector.
#[verifier::external_body]
pub(crate) fn buf_into_vec(buf: bytes::BytesMut) -> (v: Vec<u8>)
    ensures
        v@ == bytes_mut_contents(buf),
{
    buf.freeze().to_vec()
}

/// `Buf::get_u8` on a byte slice: reads the first byte and moves past it.
#[verifier::external_body]
pub(crate) fn slice_get_u8(buf: &mut &[u8]) -> (n: u8)
    requires
        old(buf)@.len() >= 1,
    ensures
        n == old(buf)@[0],
        final(buf)@ == old(buf)@.skip(1),
{
    bytes::Buf::get_u8(buf)
}

/// `Buf::get_u16_le` on a byte slice: reads a little-endian `u16` and moves past it.
#[verifier::external_body]
pub(crate) fn slice_get_u16_le(buf: &mut &[u8]) -> (n: u16)
    requires
        old(buf)@.len() >= 2,
    ensures
        n == le_u16_value(old(buf)@),
        final(buf)@ == old(buf)@.skip(2),
{
    bytes::Buf::get_u16_le(buf)
}

/// `Buf::get_u32_le` on a byte slice: reads a little-endian `u32` and moves past it.
#[verifier::external_body]
pub(crate) fn slice_get_u32_le(buf: &mut &[u8]) -> (n: u32)
    requires
        old(buf)@.len() >= 4,
    ensures
        n == le_u32_value(old(buf)@),
        final(buf)@ == old(buf)@.skip(4),
{
    bytes::Buf::get_u32_le(buf)
}

/// `Buf::copy_to_slice` on a byte slice into a fresh array of `N` bytes:
/// copies the first `N` bytes and moves past them.
#[verifier::external_body]
pub(crate) fn slice_copy_to_array<const N: usize>(buf: &mut &[u8]) -> (a: [u8; N])
    requires
        old(buf)@.len() >= N,
    ensures
        a@ == old(buf)@.take(N as int),
        final(buf)@ == old(buf)@.skip(N as int),
{
    let mut a = [0u8; N];
    bytes::Buf::copy_to_slice(buf, &mut a);
    a
}

/// `Buf::copy_to_slice` on a byte slice into a fresh vector of `n` bytes:
/// copies the first `n` bytes and moves past them.
#[verifier::external_body]
pub(crate) fn slice_copy_to_vec(buf: &mut &[u8], n: usize) -> (v: Vec<u8>)
    requires
        old(buf)@.len() >= n,
    ensures
        v@ == old(buf)@.take(n as int),
        final(buf)@ == old(buf)@.skip(n as int),
{
    let mut v = vec![0u8; n];
    bytes::Buf::copy_to_slice(buf, &mut v);
    v
}

} // verus!
