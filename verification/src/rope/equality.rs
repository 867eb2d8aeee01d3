//! What `==` means for ropes, whatever stands on its right.

use bytes::Bytes;

use vstd::prelude::*;
use vstd::std_specs::cmp::PartialEqSpec;
use vstd::string::StringSliceAdditionalSpecFns;

use crate::chunks::chunk_views;
use crate::chunks::joined;
use crate::rope::byte_rope::ByteRope;
use crate::rope::tagged::Owner;
use crate::rope::tagged::Tagged;
use crate::shared::contents;

verus! {

/// Two sequences of bytes are the same exactly when they are as long and agree at every offset.
proof fn lemma_same_bytes(a: Seq<u8>, b: Seq<u8>)
    ensures
        a == b <==> a.len() == b.len() && forall|i: int| 0 <= i < a.len() ==> #[trigger] a[i] == b[i],
{
    if a.len() == b.len() && forall|i: int| 0 <= i < a.len() ==> #[trigger] a[i] == b[i] {
        assert(a =~= b);
    }
}

/// Two ropes are equal exactly when they have the same bytes at the same offsets, however each of them
/// is cut into chunks.
pub proof fn law_rope_equality(a: &ByteRope, b: &ByteRope)
    ensures
        <ByteRope as PartialEqSpec<ByteRope>>::obeys_eq_spec(),
        a.eq_spec(b) <==> a@ == b@,
        a.eq_spec(b) <==> a@.len() == b@.len() && forall|i: int|
            0 <= i < a@.len() ==> #[trigger] a@[i] == b@[i],
        joined(a.chunk_list()) == joined(b.chunk_list()) ==> a.eq_spec(b),
{
    lemma_same_bytes(a@, b@);
}

/// A rope equals a slice, a reference to one or a vector exactly when its bytes are theirs.
pub proof fn law_slice_equality(rope: &ByteRope, slice: &[u8], vec: &Vec<u8>)
    ensures
        <ByteRope as PartialEqSpec<[u8]>>::obeys_eq_spec(),
        <ByteRope as PartialEqSpec<&[u8]>>::obeys_eq_spec(),
        <ByteRope as PartialEqSpec<Vec<u8>>>::obeys_eq_spec(),
        <ByteRope as PartialEqSpec<[u8]>>::eq_spec(rope, slice) <==> rope@ == slice@,
        <ByteRope as PartialEqSpec<&[u8]>>::eq_spec(rope, &slice) <==> rope@ == slice@,
        <ByteRope as PartialEqSpec<Vec<u8>>>::eq_spec(rope, vec) <==> rope@ == vec@,
        <ByteRope as PartialEqSpec<[u8]>>::eq_spec(rope, slice) <==> rope@.len() == slice@.len()
            && forall|i: int| 0 <= i < rope@.len() ==> #[trigger] rope@[i] == slice@[i],
        <ByteRope as PartialEqSpec<Vec<u8>>>::eq_spec(rope, vec) <==> rope@.len() == vec@.len()
            && forall|i: int| 0 <= i < rope@.len() ==> #[trigger] rope@[i] == vec@[i],
{
    lemma_same_bytes(rope@, slice@);
    lemma_same_bytes(rope@, vec@);
}

/// A rope equals an array or a reference to one exactly when its bytes are the array's.
pub proof fn law_array_equality<const N: usize>(rope: &ByteRope, array: &[u8; N])
    ensures
        <ByteRope as PartialEqSpec<[u8; N]>>::obeys_eq_spec(),
        <ByteRope as PartialEqSpec<&[u8; N]>>::obeys_eq_spec(),
        <ByteRope as PartialEqSpec<[u8; N]>>::eq_spec(rope, array) <==> rope@ == array@,
        <ByteRope as PartialEqSpec<&[u8; N]>>::eq_spec(rope, &array) <==> rope@ == array@,
{
}

/// A rope equals a text exactly when its bytes are the UTF-8 encoding of the text.
pub proof fn law_text_equality(rope: &ByteRope, text: &str)
    ensures
        <ByteRope as PartialEqSpec<str>>::obeys_eq_spec(),
        <ByteRope as PartialEqSpec<&str>>::obeys_eq_spec(),
        <ByteRope as PartialEqSpec<str>>::eq_spec(rope, text) <==> rope@ == text.spec_bytes(),
        <ByteRope as PartialEqSpec<&str>>::eq_spec(rope, &text) <==> rope@ == text.spec_bytes(),
        <ByteRope as PartialEqSpec<&str>>::eq_spec(rope, &text) <==> rope@.len()
            == text.spec_bytes().len() && forall|i: int|
            0 <= i < rope@.len() ==> #[trigger] rope@[i] == text.spec_bytes()[i],
{
    lemma_same_bytes(rope@, text.spec_bytes());
}

/// A rope equals a chunk exactly when its bytes are the chunk's.
pub proof fn law_chunk_equality(rope: &ByteRope, chunk: &Bytes)
    ensures
        <ByteRope as PartialEqSpec<Bytes>>::obeys_eq_spec(),
        <ByteRope as PartialEqSpec<Bytes>>::eq_spec(rope, chunk) <==> rope@ == contents(*chunk),
{
}

/// A rope equals a list of chunks exactly when its bytes are those of the chunks in a row; where one
/// chunk ends and the next begins does not matter.
pub proof fn law_chunk_list_equality<const LEN: usize>(
    rope: &ByteRope,
    slice: &[Bytes],
    array: &[Bytes; LEN],
)
    ensures
        <ByteRope as PartialEqSpec<[Bytes]>>::obeys_eq_spec(),
        <ByteRope as PartialEqSpec<&[Bytes]>>::obeys_eq_spec(),
        <ByteRope as PartialEqSpec<[Bytes; LEN]>>::obeys_eq_spec(),
        <ByteRope as PartialEqSpec<&[Bytes; LEN]>>::obeys_eq_spec(),
        <ByteRope as PartialEqSpec<[Bytes]>>::eq_spec(rope, slice) <==> rope@ == joined(
            chunk_views(slice@),
        ),
        <ByteRope as PartialEqSpec<&[Bytes]>>::eq_spec(rope, &slice) <==> rope@ == joined(
            chunk_views(slice@),
        ),
        <ByteRope as PartialEqSpec<[Bytes; LEN]>>::eq_spec(rope, array) <==> rope@ == joined(
            chunk_views(array@),
        ),
        <ByteRope as PartialEqSpec<&[Bytes; LEN]>>::eq_spec(rope, &array) <==> rope@ == joined(
            chunk_views(array@),
        ),
{
}

/// All the right-hand sides agree: what has the same bytes is equal to the same ropes.
pub proof fn law_equalities_agree(rope: &ByteRope, other: &ByteRope, vec: &Vec<u8>, text: &str)
    requires
        other@ == vec@,
        vec@ == text.spec_bytes(),
    ensures
        rope.eq_spec(other) == <ByteRope as PartialEqSpec<Vec<u8>>>::eq_spec(rope, vec),
        rope.eq_spec(other) == <ByteRope as PartialEqSpec<&str>>::eq_spec(rope, &text),
        rope.eq_spec(other) == <ByteRope as PartialEqSpec<str>>::eq_spec(rope, text),
{
}

/// Ropes with owners are equal exactly when their bytes are; the owners do not show.
pub proof fn law_tagged_equality<O: Owner>(a: &Tagged<O>, b: &Tagged<O>)
    ensures
        <Tagged<O> as PartialEqSpec<Tagged<O>>>::obeys_eq_spec(),
        a.eq_spec(b) <==> a@ == b@,
        a.eq_spec(b) <==> a.rope().eq_spec(&b.rope()),
{
}

/// A chunk can be had by its index exactly where the rope has as many chunks.
pub proof fn law_index(rope: &ByteRope, index: usize)
    ensures
        <ByteRope as vstd::std_specs::core::IndexSpec<usize>>::index_req(rope, &index) <==> index < rope.chunk_list().len(),
{
}

} // verus!
