//! Specifications for the growable byte buffer that the codecs read from and
//! write to.
//!
//! `bytes::BytesMut` is opaque to the verifier.  Its contents are given the
//! name [`buffered`], and every operation that the codecs perform on a buffer
//! is described here in terms of that name.  None of these contracts is
//! proved: they restate what the `bytes` crate implements.

use bytes::{Buf, BufMut, BytesMut};
use vstd::prelude::*;

verus! {

/// `bytes::BytesMut`, carried through verified code as an opaque value.
#[verifier::external_type_specification]
#[verifier::external_body]
pub struct ExBytesMut(BytesMut);

/// The bytes currently held by a buffer, first byte first.
pub uninterp spec fn buffered(buf: &BytesMut) -> Seq<u8>;

/// `BytesMut::len`: the number of bytes held.
pub assume_specification[ BytesMut::len ](buf: &BytesMut) -> (n: usize)
    ensures
        n == buffered(buf).len(),
;

/// `BytesMut::split_to`: hands out the first `at` bytes as a buffer of their
/// own and keeps the rest.  The call panics when `at` exceeds the length,
/// which the precondition rules out.
pub assume_specification[ BytesMut::split_to ](buf: &mut BytesMut, at: usize) -> (head: BytesMut)
    requires
        at <= buffered(old(buf)).len(),
    ensures
        buffered(&head) == buffered(old(buf)).take(at as int),
        buffered(final(buf)) == buffered(old(buf)).skip(at as int),
;

/// `BytesMut::extend_from_slice`: appends the given bytes.  Growing the
/// buffer panics when the new capacity cannot be represented, which the
/// precondition rules out.
pub assume_specification[ BytesMut::extend_from_slice ](buf: &mut BytesMut, extend: &[u8])
    requires
        buffered(old(buf)).len() + extend@.len() <= isize::MAX,
    ensures
        buffered(final(buf)) == buffered(old(buf)) + extend@,
;

/// `BytesMut::reserve`: makes room for `additional` more bytes and leaves the
/// contents alone.  It panics when the new capacity cannot be represented,
/// which the precondition rules out.
pub assume_specification[ BytesMut::reserve ](buf: &mut BytesMut, additional: usize)
    requires
        buffered(old(buf)).len() + additional <= isize::MAX,
    ensures
        buffered(final(buf)) == buffered(old(buf)),
;

/// The buffer's bytes as a slice, through `BytesMut`'s `Deref` impl.
#[verifier::external_body]
pub(crate) fn as_slice(buf: &BytesMut) -> (bytes: &[u8])
    ensures
        bytes@ == buffered(buf),
{
    &buf[..]
}

/// `Buf::advance` on a `BytesMut`: drops the first `cnt` bytes.  The call
/// panics when `cnt` exceeds the length, which the precondition rules out.
#[verifier::external_body]
pub(crate) fn advance(buf: &mut BytesMut, cnt: usize)
    requires
        cnt <= buffered(old(buf)).len(),
    ensures
        buffered(final(buf)) == buffered(old(buf)).skip(cnt as int),
{
    buf.advance(cnt);
}

/// `BufMut::put` on a `BytesMut`, with a byte slice as the source: appends
/// the slice.
#[verifier::external_body]
pub(crate) fn put(buf: &mut BytesMut, src: &[u8])
    requires
        buffered(old(buf)).len() + src@.len() <= isize::MAX,
    ensures
        buffered(final(buf)) == buffered(old(buf)) + src@,
{
    buf.put(src);
}

/// `BufMut::put_u8` on a `BytesMut`: appends one byte.
#[verifier::external_body]
pub(crate) fn put_u8(buf: &mut BytesMut, byte: u8)
    requires
        buffered(old(buf)).len() + 1 <= isize::MAX,
    ensures
        buffered(final(buf)) == buffered(old(buf)).push(byte),
{
    buf.put_u8(byte);
}

} // verus!
