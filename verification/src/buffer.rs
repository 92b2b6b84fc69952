//! The byte buffers of the `bytes` crate, as this library uses them.
//!
//! Every function here makes one call into `bytes` and states what that call does to
//! the bytes held. None of these statements is proved: they are the assumptions about
//! `bytes` that the rest of the library rests on.
use bytes::{BufMut, Bytes, BytesMut};
use vstd::prelude::*;

use crate::wire::{be16, be32};

verus! {

/// `bytes::Bytes`: a cheaply cloneable, immutable run of bytes.
#[verifier::external_type_specification]
#[verifier::external_body]
pub struct ExBytes(bytes::Bytes);

/// `bytes::BytesMut`: a growable byte buffer.
#[verifier::external_type_specification]
#[verifier::external_body]
pub struct ExBytesMut(bytes::BytesMut);

/// The bytes that a `Bytes` holds.
pub uninterp spec fn content(b: Bytes) -> Seq<u8>;

/// The bytes that a `BytesMut` holds.
pub uninterp spec fn content_mut(b: BytesMut) -> Seq<u8>;

/// The bytes that each `Bytes` of a sequence holds.
pub open spec fn contents(s: Seq<Bytes>) -> Seq<Seq<u8>> {
    Seq::new(s.len(), |i: int| content(s[i]))
}

/// Whether a growable buffer can hold `n` bytes. An allocation is limited to
/// `isize::MAX` bytes, and a buffer that outgrows its allocation doubles it.
pub open spec fn fits(n: nat) -> bool {
    4 * n <= isize::MAX
}

/// The largest `n` for which `fits(n)` holds.
pub fn max_buffer_length() -> (n: usize)
    ensures
        fits(n as nat),
        !fits((n + 1) as nat),
{
    (isize::MAX as usize) / 4
}

/// `Bytes::copy_from_slice`: the result holds the bytes of `data`.
#[verifier::external_body]
pub(crate) fn copy_from_slice(data: &[u8]) -> (b: Bytes)
    ensures
        content(b) == data@,
{
    Bytes::copy_from_slice(data)
}

/// `Bytes::from` on a vector: the result holds the bytes of the vector.
#[verifier::external_body]
pub(crate) fn from_vec(data: Vec<u8>) -> (b: Bytes)
    ensures
        content(b) == data@,
{
    Bytes::from(data)
}

/// `Bytes::as_ref`: the bytes held, as a slice.
#[verifier::external_body]
pub(crate) fn as_slice(b: &Bytes) -> (s: &[u8])
    ensures
        s@ == content(*b),
{
    b.as_ref()
}

/// `Bytes::slice`: the bytes of `b` from `start` up to `end`. It panics where the
/// range is not within `b`, which `requires` rules out.
#[verifier::external_body]
pub(crate) fn slice(b: &Bytes, start: usize, end: usize) -> (r: Bytes)
    requires
        start <= end <= content(*b).len(),
    ensures
        content(r) == content(*b).subrange(start as int, end as int),
{
    b.slice(start..end)
}

/// `Bytes::clone`: the clone holds the same bytes.
pub assume_specification[ <Bytes as Clone>::clone ](b: &Bytes) -> (r: Bytes)
    ensures
        content(r) == content(*b),
;

/// `BytesMut::with_capacity`: the result is empty. It panics where the capacity is
/// more than an allocation can have, which `requires` rules out.
#[verifier::external_body]
pub(crate) fn with_capacity(capacity: usize) -> (b: BytesMut)
    requires
        fits(capacity as nat),
    ensures
        content_mut(b) == Seq::<u8>::empty(),
{
    BytesMut::with_capacity(capacity)
}

/// `BytesMut::from` on a slice: the result holds the bytes of `data`.
#[verifier::external_body]
pub(crate) fn mut_from_slice(data: &[u8]) -> (b: BytesMut)
    ensures
        content_mut(b) == data@,
{
    BytesMut::from(data)
}

/// `BytesMut::len`: the number of bytes held.
#[verifier::external_body]
pub(crate) fn mut_len(b: &BytesMut) -> (n: usize)
    ensures
        n == content_mut(*b).len(),
{
    b.len()
}

/// `BytesMut::extend_from_slice`: appends the bytes of `data`. It panics where the
/// buffer cannot grow that far, which `requires` rules out.
#[verifier::external_body]
pub(crate) fn extend_from_slice(b: &mut BytesMut, data: &[u8])
    requires
        fits(content_mut(*old(b)).len() + data@.len()),
    ensures
        content_mut(*final(b)) == content_mut(*old(b)) + data@,
{
    b.extend_from_slice(data)
}

/// `BufMut::put_u8` on a `BytesMut`: appends one byte. It panics where the buffer
/// cannot grow, which `requires` rules out.
#[verifier::external_body]
pub(crate) fn put_u8(b: &mut BytesMut, n: u8)
    requires
        fits(content_mut(*old(b)).len() + 1),
    ensures
        content_mut(*final(b)) == content_mut(*old(b)).push(n),
{
    b.put_u8(n)
}

/// `BufMut::put_u16` on a `BytesMut`: appends `n`, most significant byte first. It
/// panics where the buffer cannot grow, which `requires` rules out.
#[verifier::external_body]
pub(crate) fn put_u16(b: &mut BytesMut, n: u16)
    requires
        fits(content_mut(*old(b)).len() + 2),
    ensures
        content_mut(*final(b)) == content_mut(*old(b)) + be16(n),
{
    b.put_u16(n)
}

/// `BufMut::put_u32` on a `BytesMut`: appends `n`, most significant byte first. It
/// panics where the buffer cannot grow, which `requires` rules out.
#[verifier::external_body]
pub(crate) fn put_u32(b: &mut BytesMut, n: u32)
    requires
        fits(content_mut(*old(b)).len() + 4),
    ensures
        content_mut(*final(b)) == content_mut(*old(b)) + be32(n),
{
    b.put_u32(n)
}

/// `BytesMut::deref_mut`: the bytes held from `start` on, as a slice that can be
/// changed in place. Taking the part from `start` on panics where `start` is past the
/// end, which `requires` rules out.
#[verifier::external_body]
pub(crate) fn as_mut_slice(b: &mut BytesMut, start: usize) -> (s: &mut [u8])
    requires
        start <= content_mut(*old(b)).len(),
    ensures
        s@ == content_mut(*old(b)).skip(start as int),
        content_mut(*final(b)) == content_mut(*old(b)).take(start as int) + final(s)@,
{
    &mut b[start..]
}

/// `BytesMut::freeze`: the result holds the bytes of the buffer.
#[verifier::external_body]
pub(crate) fn freeze(b: BytesMut) -> (r: Bytes)
    ensures
        content(r) == content_mut(b),
{
    b.freeze()
}

/// The bytes of several runs are those of each.
pub proof fn contents_are_of_each(s: Seq<Bytes>, k: int)
    ensures
        contents(s).len() == s.len(),
        0 <= k < s.len() ==> contents(s)[k] == content(s[k]),
{
}

} // verus!
