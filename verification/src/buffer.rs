use bytes::BytesMut;
use vstd::prelude::*;

verus! {

/// The growable byte buffer of the `bytes` crate, through which frames come
/// in and go out.
#[verifier::external_type_specification]
#[verifier::external_body]
pub struct ExBytesMut(BytesMut);

/// The bytes that a buffer holds, in order.
pub uninterp spec fn buffer_bytes(buf: BytesMut) -> Seq<u8>;

/// `BytesMut::is_empty`: true exactly when the buffer holds no byte.
#[verifier::external_body]
pub(crate) fn buffer_is_empty(buf: &BytesMut) -> (r: bool)
    ensures
        r == (buffer_bytes(*buf).len() == 0),
{
    buf.is_empty()
}

/// `BytesMut::len`: the number of bytes held.
#[verifier::external_body]
pub(crate) fn buffer_len(buf: &BytesMut) -> (n: usize)
    ensures
        n == buffer_bytes(*buf).len(),
{
    buf.len()
}

/// `BytesMut::split_to`: hands out the first `at` bytes and keeps the rest.
/// It panics when `at` is past the end, which `requires` leaves out.
#[verifier::external_body]
pub(crate) fn buffer_split_to(buf: &mut BytesMut, at: usize) -> (front: BytesMut)
    requires
        at <= buffer_bytes(*old(buf)).len(),
    ensures
        buffer_bytes(front) == buffer_bytes(*old(buf)).take(at as int),
        buffer_bytes(*final(buf)) == buffer_bytes(*old(buf)).skip(at as int),
{
    buf.split_to(at)
}

/// `<BytesMut as AsRef<[u8]>>::as_ref`: the bytes held, as a slice.
#[verifier::external_body]
pub(crate) fn buffer_as_slice(buf: &BytesMut) -> (s: &[u8])
    ensures
        s@ == buffer_bytes(*buf),
{
    buf.as_ref()
}

/// `BytesMut::reserve`: makes room for `additional` more bytes and keeps the
/// bytes held. It panics when the new capacity overflows, which `requires`
/// keeps below by bounding the held and added bytes to `isize::MAX`; the
/// buffer may also keep unused room before its start that this bound does not
/// count, and a failed allocation aborts the process.
#[verifier::external_body]
pub(crate) fn buffer_reserve(buf: &mut BytesMut, additional: usize)
    requires
        buffer_bytes(*old(buf)).len() + additional <= isize::MAX,
    ensures
        buffer_bytes(*final(buf)) == buffer_bytes(*old(buf)),
{
    buf.reserve(additional)
}

/// `<BytesMut as Extend<&u8>>::extend`: appends the given bytes. It grows the
/// buffer as `reserve` does, under the same bound.
#[verifier::external_body]
pub(crate) fn buffer_extend(buf: &mut BytesMut, data: &[u8])
    requires
        buffer_bytes(*old(buf)).len() + data@.len() <= isize::MAX,
    ensures
        buffer_bytes(*final(buf)) == buffer_bytes(*old(buf)) + data@,
{
    buf.extend(data)
}

} // verus!
