//! The reference-counted chunks of the `bytes` crate, as the rest of the library sees them.
//!
//! [`bytes::Bytes`] and [`bytes::BytesMut`] are opaque here. What each holds is named by [`contents`] and
//! [`buffered`], and the contracts below say over those names what the methods do. How a chunk is
//! stored, whether its allocation is shared, and how much room a buffer has reserved stay unsaid.

use vstd::prelude::*;

verus! {

/// The immutable, cheaply clonable byte chunk of the `bytes` crate.
#[verifier::external_type_specification]
#[verifier::external_body]
pub struct ExBytes(bytes::Bytes);

/// The growable byte buffer of the `bytes` crate.
#[verifier::external_type_specification]
#[verifier::external_body]
pub struct ExBytesMut(bytes::BytesMut);

/// The bytes that a chunk holds, in order.
pub uninterp spec fn contents(chunk: bytes::Bytes) -> Seq<u8>;

/// The bytes that a buffer holds, in order.
pub uninterp spec fn buffered(buffer: bytes::BytesMut) -> Seq<u8>;

// Chunks.

/// `Bytes::new` makes a chunk without bytes.
pub assume_specification[ bytes::Bytes::new ]() -> (chunk: bytes::Bytes)
    ensures
        contents(chunk) == Seq::<u8>::empty(),
;

/// `Bytes::len` counts the bytes of a chunk.
pub assume_specification[ bytes::Bytes::len ](chunk: &bytes::Bytes) -> (len: usize)
    ensures
        len == contents(*chunk).len(),
;

/// `Bytes::is_empty` tells whether a chunk has no bytes.
pub assume_specification[ bytes::Bytes::is_empty ](chunk: &bytes::Bytes) -> (empty: bool)
    ensures
        empty == (contents(*chunk).len() == 0),
;

/// `Bytes::copy_from_slice` makes a chunk that holds a copy of `data`.
pub assume_specification[ bytes::Bytes::copy_from_slice ](data: &[u8]) -> (chunk: bytes::Bytes)
    ensures
        contents(chunk) == data@,
;

/// `Bytes::from_static` makes a chunk over bytes that live as long as the program.
pub assume_specification[ bytes::Bytes::from_static ](data: &'static [u8]) -> (chunk: bytes::Bytes)
    ensures
        contents(chunk) == data@,
;

/// `Bytes::split_to` takes the first `at` bytes off a chunk and returns them.
/// It panics where `at` is past the end.
pub assume_specification[ bytes::Bytes::split_to ](chunk: &mut bytes::Bytes, at: usize) -> (front: bytes::Bytes)
    requires
        at <= contents(*old(chunk)).len(),
    ensures
        contents(front) == contents(*old(chunk)).take(at as int),
        contents(*final(chunk)) == contents(*old(chunk)).skip(at as int),
;

/// `Bytes::truncate` keeps the first `len` bytes of a chunk, or all of them where it is shorter.
pub assume_specification[ bytes::Bytes::truncate ](chunk: &mut bytes::Bytes, len: usize)
    ensures
        contents(*final(chunk)) == if len < contents(*old(chunk)).len() {
            contents(*old(chunk)).take(len as int)
        } else {
            contents(*old(chunk))
        },
;

/// `Bytes::try_into_mut` hands out the chunk's own allocation as a buffer where nothing else holds
/// it, and gives the chunk back otherwise. Which of the two happens is left open; the bytes are
/// the same either way.
pub assume_specification[ bytes::Bytes::try_into_mut ](chunk: bytes::Bytes) -> (result: Result<bytes::BytesMut, bytes::Bytes>)
    ensures
        match result {
            Ok(buffer) => buffered(buffer) == contents(chunk),
            Err(shared) => contents(shared) == contents(chunk),
        },
;

/// `Clone::clone` on a chunk: another handle on the same bytes.
pub assume_specification[ <bytes::Bytes as Clone>::clone ](chunk: &bytes::Bytes) -> (copy: bytes::Bytes)
    ensures
        contents(copy) == contents(*chunk),
;

/// `Deref::deref` on a chunk: its bytes as a slice.
#[verifier::external_body]
pub(crate) fn chunk_slice(chunk: &bytes::Bytes) -> (slice: &[u8])
    ensures
        slice@ == contents(*chunk),
{
    chunk
}

/// `Bytes::slice` with the range `start..end`: a chunk over that part of the bytes.
/// It panics where the range is inverted or runs past the end.
#[verifier::external_body]
pub(crate) fn chunk_subrange(chunk: &bytes::Bytes, start: usize, end: usize) -> (part: bytes::Bytes)
    requires
        start <= end <= contents(*chunk).len(),
    ensures
        contents(part) == contents(*chunk).subrange(start as int, end as int),
{
    chunk.slice(start..end)
}

/// `Buf::advance` on a chunk: drops its first `count` bytes.
/// It panics where `count` is past the end.
#[verifier::external_body]
pub(crate) fn chunk_advance(chunk: &mut bytes::Bytes, count: usize)
    requires
        count <= contents(*old(chunk)).len(),
    ensures
        contents(*final(chunk)) == contents(*old(chunk)).skip(count as int),
{
    bytes::Buf::advance(chunk, count)
}

/// `From<Vec<u8>>` for `Bytes`: a chunk that takes over the vector's bytes.
#[verifier::external_body]
pub(crate) fn chunk_from_vec(data: Vec<u8>) -> (chunk: bytes::Bytes)
    ensures
        contents(chunk) == data@,
{
    bytes::Bytes::from(data)
}

// Buffers.

/// `BytesMut::new` makes a buffer without bytes.
pub assume_specification[ bytes::BytesMut::new ]() -> (buffer: bytes::BytesMut)
    ensures
        buffered(buffer) == Seq::<u8>::empty(),
;

/// `BytesMut::with_capacity` makes a buffer without bytes and reserves room.
/// It panics where the capacity exceeds what one allocation can have.
pub assume_specification[ bytes::BytesMut::with_capacity ](capacity: usize) -> (buffer: bytes::BytesMut)
    requires
        capacity <= isize::MAX,
    ensures
        buffered(buffer) == Seq::<u8>::empty(),
;

/// `BytesMut::capacity` tells how many bytes a buffer can hold before it has to be allocated anew:
/// at least those that it holds. How many more is up to the allocator and stays unsaid.
pub assume_specification[ bytes::BytesMut::capacity ](buffer: &bytes::BytesMut) -> (capacity: usize)
    ensures
        capacity >= buffered(*buffer).len(),
;

/// `BytesMut::len` counts the bytes of a buffer.
pub assume_specification[ bytes::BytesMut::len ](buffer: &bytes::BytesMut) -> (len: usize)
    ensures
        len == buffered(*buffer).len(),
;

/// `BytesMut::is_empty` tells whether a buffer has no bytes.
pub assume_specification[ bytes::BytesMut::is_empty ](buffer: &bytes::BytesMut) -> (empty: bool)
    ensures
        empty == (buffered(*buffer).len() == 0),
;

/// `BytesMut::freeze` turns a buffer into a chunk that holds the same bytes.
#[verifier::external_body]
pub(crate) fn frozen(buffer: bytes::BytesMut) -> (chunk: bytes::Bytes)
    ensures
        contents(chunk) == buffered(buffer),
{
    buffer.freeze()
}

/// `BytesMut::extend_from_slice` appends a copy of `extend`.
/// It panics where the result exceeds what one allocation can have.
pub assume_specification[ bytes::BytesMut::extend_from_slice ](buffer: &mut bytes::BytesMut, extend: &[u8])
    requires
        buffered(*old(buffer)).len() + extend@.len() <= isize::MAX,
    ensures
        buffered(*final(buffer)) == buffered(*old(buffer)) + extend@,
;

/// `BytesMut::split` takes all bytes out of a buffer.
pub assume_specification[ bytes::BytesMut::split ](buffer: &mut bytes::BytesMut) -> (front: bytes::BytesMut)
    ensures
        buffered(front) == buffered(*old(buffer)),
        buffered(*final(buffer)) == Seq::<u8>::empty(),
;

/// `BytesMut::split_to` takes the first `at` bytes off a buffer and returns them.
/// It panics where `at` is past the end.
pub assume_specification[ bytes::BytesMut::split_to ](buffer: &mut bytes::BytesMut, at: usize) -> (front:
    bytes::BytesMut)
    requires
        at <= buffered(*old(buffer)).len(),
    ensures
        buffered(front) == buffered(*old(buffer)).take(at as int),
        buffered(*final(buffer)) == buffered(*old(buffer)).skip(at as int),
;

/// `Deref::deref` on a buffer: its bytes as a slice.
#[verifier::external_body]
pub(crate) fn buffer_slice(buffer: &bytes::BytesMut) -> (slice: &[u8])
    ensures
        slice@ == buffered(*buffer),
{
    buffer
}

/// `DerefMut::deref_mut` on a buffer: its bytes as a slice that can be written through.
#[verifier::external_body]
pub(crate) fn buffer_slice_mut(buffer: &mut bytes::BytesMut) -> (slice: &mut [u8])
    ensures
        slice@ == buffered(*old(buffer)),
        buffered(*final(buffer)) == final(slice)@,
{
    buffer
}

/// `From<&[u8]>` for `BytesMut`: a buffer that holds a copy of `data`.
#[verifier::external_body]
pub(crate) fn buffer_copy(data: &[u8]) -> (buffer: bytes::BytesMut)
    ensures
        buffered(buffer) == data@,
{
    bytes::BytesMut::from(data)
}

/// `From<Bytes>` for `BytesMut`: a buffer with the chunk's bytes, in the chunk's own allocation
/// where nothing else holds it.
#[verifier::external_body]
pub(crate) fn buffer_from_chunk(chunk: bytes::Bytes) -> (buffer: bytes::BytesMut)
    ensures
        buffered(buffer) == contents(chunk),
{
    bytes::BytesMut::from(chunk)
}

} // verus!
