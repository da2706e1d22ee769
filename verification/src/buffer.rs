//! Growable byte buffers: `bytes::BytesMut`.

use bytes::BytesMut;
use vstd::prelude::*;

verus! {

/// `bytes::BytesMut`: a handle on a stretch of bytes.
#[verifier::external_type_specification]
#[verifier::external_body]
pub struct ExBytesMut(BytesMut);

/// The bytes that `buf` holds, first to last.
pub uninterp spec fn contents(buf: BytesMut) -> Seq<u8>;

/// `BytesMut::len`: the number of bytes held.
pub assume_specification[ BytesMut::len ](buf: &BytesMut) -> (len: usize)
    ensures
        len == contents(*buf).len(),
;

/// `BytesMut::split_to`: takes the first `at` bytes out and returns them. It
/// panics where there are fewer.
pub assume_specification[ BytesMut::split_to ](buf: &mut BytesMut, at: usize) -> (head: BytesMut)
    requires
        at <= contents(*old(buf)).len(),
    ensures
        contents(head) == contents(*old(buf)).take(at as int),
        contents(*final(buf)) == contents(*old(buf)).skip(at as int),
;

/// `BytesMut::split_off`: keeps the first `at` bytes and returns the others.
/// It panics where `at` is beyond the capacity, which is at least the length.
pub assume_specification[ BytesMut::split_off ](buf: &mut BytesMut, at: usize) -> (tail: BytesMut)
    requires
        at <= contents(*old(buf)).len(),
    ensures
        contents(tail) == contents(*old(buf)).skip(at as int),
        contents(*final(buf)) == contents(*old(buf)).take(at as int),
;

/// `BytesMut::resize`: drops what is beyond `new_len`, or fills up to it with
/// `value`. It panics where no allocation can have that size.
pub assume_specification[ BytesMut::resize ](buf: &mut BytesMut, new_len: usize, value: u8)
    requires
        new_len <= isize::MAX,
    ensures
        contents(*final(buf)) == Seq::new(
            new_len as nat,
            |i: int|
                if i < contents(*old(buf)).len() {
                    contents(*old(buf))[i]
                } else {
                    value
                },
        ),
;

/// `BytesMut::extend_from_slice`: appends `extend`. It panics where no
/// allocation can have the size that this takes.
pub assume_specification[ BytesMut::extend_from_slice ](buf: &mut BytesMut, extend: &[u8])
    requires
        contents(*old(buf)).len() + extend@.len() <= isize::MAX,
    ensures
        contents(*final(buf)) == contents(*old(buf)) + extend@,
;

/// `BytesMut::unsplit`: appends the bytes of `other`, in place where the two
/// are neighbours in memory. It panics where no allocation can have the size
/// that this takes.
pub assume_specification[ BytesMut::unsplit ](buf: &mut BytesMut, other: BytesMut)
    requires
        contents(*old(buf)).len() + contents(other).len() <= isize::MAX,
    ensures
        contents(*final(buf)) == contents(*old(buf)) + contents(other),
;

/// Calls `as_ref` (of `AsRef<[u8]>`): the bytes held, as a slice.
#[verifier::external_body]
pub(crate) fn as_slice(buf: &BytesMut) -> (bytes: &[u8])
    ensures
        bytes@ == contents(*buf),
{
    buf.as_ref()
}

/// Calls `as_mut` (of `AsMut<[u8]>`): the bytes held, as a slice to write to.
/// What is in the slice in the end is what the buffer then holds.
#[verifier::external_body]
pub(crate) fn as_mut_slice(buf: &mut BytesMut) -> (bytes: &mut [u8])
    ensures
        bytes@ == contents(*old(buf)),
        contents(*final(buf)) == final(bytes)@,
{
    buf.as_mut()
}

} // verus!
