//! The byte buffers of the `bytes` crate (re-exported by `tokio_util`), as the
//! codecs use them, and what this library relies on of each operation.
//!
//! `BytesMut` is the growable buffer that a framed reader fills and a framed
//! writer drains; `Bytes` is the frozen, shareable slice that a decoded data
//! event carries. Their contents are named by `buf_contents` and
//! `bytes_contents`; every operation below is stated over those names.
use vstd::prelude::*;
use tokio_util::bytes::{Bytes, BytesMut};

verus! {

#[verifier::external_type_specification]
#[verifier::external_body]
pub struct ExBytesMut(tokio_util::bytes::BytesMut);

#[verifier::external_type_specification]
#[verifier::external_body]
pub struct ExBytes(tokio_util::bytes::Bytes);

#[verifier::external_type_specification]
#[verifier::external_body]
pub struct ExIoError(std::io::Error);

/// The bytes that a `BytesMut` holds, first to last.
pub uninterp spec fn buf_contents(buf: BytesMut) -> Seq<u8>;

/// The bytes that a `Bytes` holds, first to last.
pub uninterp spec fn bytes_contents(bytes: Bytes) -> Seq<u8>;

/// `BytesMut::len`: the number of bytes held.
#[verifier::external_body]
pub(crate) fn buf_len(buf: &BytesMut) -> (n: usize)
    ensures
        n == buf_contents(*buf).len(),
{
    buf.len()
}

/// `BytesMut::is_empty`: whether no byte is held.
#[verifier::external_body]
pub(crate) fn buf_is_empty(buf: &BytesMut) -> (empty: bool)
    ensures
        empty == (buf_contents(*buf).len() == 0),
{
    buf.is_empty()
}

/// Indexing a `BytesMut` (through its `Deref` to `[u8]`): the byte at `i`.
#[verifier::external_body]
pub(crate) fn buf_byte(buf: &BytesMut, i: usize) -> (b: u8)
    requires
        i < buf_contents(*buf).len(),
    ensures
        b == buf_contents(*buf)[i as int],
{
    buf[i]
}

/// `BytesMut::split`: hands out every byte held and leaves the buffer empty.
#[verifier::external_body]
pub(crate) fn buf_split(buf: &mut BytesMut) -> (taken: BytesMut)
    ensures
        buf_contents(taken) == buf_contents(*old(buf)),
        buf_contents(*final(buf)) == Seq::<u8>::empty(),
{
    buf.split()
}

/// `BytesMut::split_to`: hands out the first `at` bytes and keeps the rest.
/// It panics when `at` exceeds the length, which `requires` rules out.
#[verifier::external_body]
pub(crate) fn buf_split_to(buf: &mut BytesMut, at: usize) -> (taken: BytesMut)
    requires
        at <= buf_contents(*old(buf)).len(),
    ensures
        buf_contents(taken) == buf_contents(*old(buf)).take(at as int),
        buf_contents(*final(buf)) == buf_contents(*old(buf)).skip(at as int),
{
    buf.split_to(at)
}

/// `Buf::advance` on a `BytesMut`: drops the first `cnt` bytes.
/// It panics when `cnt` exceeds the length, which `requires` rules out.
#[verifier::external_body]
pub(crate) fn buf_advance(buf: &mut BytesMut, cnt: usize)
    requires
        cnt <= buf_contents(*old(buf)).len(),
    ensures
        buf_contents(*final(buf)) == buf_contents(*old(buf)).skip(cnt as int),
{
    tokio_util::bytes::Buf::advance(buf, cnt)
}

/// `BytesMut::reserve`: makes room for `additional` more bytes and leaves the
/// contents as they are. It panics when the new capacity overflows; the
/// bound in `requires` excludes that as far as the contents tell it, while
/// room already given up at the front of a split buffer is not modelled.
#[verifier::external_body]
pub(crate) fn buf_reserve(buf: &mut BytesMut, additional: usize)
    requires
        buf_contents(*old(buf)).len() + additional <= isize::MAX,
    ensures
        buf_contents(*final(buf)) == buf_contents(*old(buf)),
{
    buf.reserve(additional)
}

/// `BufMut::put_u8` on a `BytesMut`: appends one byte. The bound in
/// `requires` excludes the capacity overflow on which it panics, as far as
/// the contents tell it.
#[verifier::external_body]
pub(crate) fn buf_put_u8(buf: &mut BytesMut, byte: u8)
    requires
        buf_contents(*old(buf)).len() + 1 <= isize::MAX,
    ensures
        buf_contents(*final(buf)) == buf_contents(*old(buf)).push(byte),
{
    tokio_util::bytes::BufMut::put_u8(buf, byte)
}

/// `Extend<u8>` for `BytesMut`: appends the three bytes in order. The bound
/// in `requires` excludes the capacity overflow on which it panics, as far as
/// the contents tell it.
#[verifier::external_body]
pub(crate) fn buf_extend(buf: &mut BytesMut, items: [u8; 3])
    requires
        buf_contents(*old(buf)).len() + 3 <= isize::MAX,
    ensures
        buf_contents(*final(buf)) == buf_contents(*old(buf)) + items@,
{
    buf.extend(items)
}

/// `From<BytesMut> for Bytes` (a freeze): the same bytes, now immutable.
#[verifier::external_body]
pub(crate) fn bytes_from_buf(buf: BytesMut) -> (bytes: Bytes)
    ensures
        bytes_contents(bytes) == buf_contents(buf),
{
    Bytes::from(buf)
}

/// `From<Vec<u8>> for Bytes`: the same bytes as the vector.
#[verifier::external_body]
pub(crate) fn bytes_from_vec(v: Vec<u8>) -> (bytes: Bytes)
    ensures
        bytes_contents(bytes) == v@,
{
    Bytes::from(v)
}

/// `Bytes::new`: no bytes.
#[verifier::external_body]
pub(crate) fn bytes_new() -> (bytes: Bytes)
    ensures
        bytes_contents(bytes) == Seq::<u8>::empty(),
{
    Bytes::new()
}

/// `Bytes::len`: the number of bytes held.
#[verifier::external_body]
pub(crate) fn bytes_len(bytes: &Bytes) -> (n: usize)
    ensures
        n == bytes_contents(*bytes).len(),
{
    bytes.len()
}

/// Indexing a `Bytes` (through its `Deref` to `[u8]`): the byte at `i`.
#[verifier::external_body]
pub(crate) fn bytes_byte(bytes: &Bytes, i: usize) -> (b: u8)
    requires
        i < bytes_contents(*bytes).len(),
    ensures
        b == bytes_contents(*bytes)[i as int],
{
    bytes[i]
}

/// `[u8]::to_vec` on a `Bytes` (through its `Deref`): a vector of the same bytes.
#[verifier::external_body]
pub(crate) fn bytes_to_vec(bytes: &Bytes) -> (v: Vec<u8>)
    ensures
        v@ == bytes_contents(*bytes),
{
    bytes.to_vec()
}

} // verus!
