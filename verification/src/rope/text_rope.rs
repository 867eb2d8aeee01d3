//! Ropes whose bytes are known to be of some kind, such as text.

use core::marker::PhantomData;

use bytes::Bytes;

use vstd::prelude::*;
use vstd::utf8::decode_first_codepoint;
use vstd::utf8::is_char_boundary;
use vstd::utf8::is_continuation_byte;
use vstd::utf8::is_leading_byte_width_2;
use vstd::utf8::is_leading_byte_width_3;
use vstd::utf8::is_leading_byte_width_4;
use vstd::utf8::length_of_first_codepoint;
use vstd::utf8::pop_first_scalar;
use vstd::utf8::valid_first_scalar;
use vstd::utf8::valid_utf8;
use vstd::utf8::valid_utf8_concat;
use vstd::utf8::valid_utf8_split;

use crate::chunks::joined;
use crate::chunks::lemma_joined_cut;
use crate::chunks::lemma_joined_step;
use crate::rope::byte_rope::ByteRope;
use crate::rope::chunk_iter::Chunks;
use crate::rope::replace::respliced;
use crate::shared::chunk_slice;
use crate::shared::contents;

verus! {

/// A kind of content.
pub trait Kind {
    /// Whether these bytes are of this kind.
    spec fn admits(bytes: Seq<u8>) -> bool;
}

/// Text in UTF-8.
pub struct Utf8;

impl Kind for Utf8 {
    open spec fn admits(bytes: Seq<u8>) -> bool {
        valid_utf8(bytes)
    }
}

/// A rope whose bytes, read as a whole, are of the kind `K`. Single chunks may not be: a character
/// can lie across a chunk boundary.
pub struct Rope<K: Kind> {
    bytes: ByteRope,
    kind: PhantomData<K>,
}

/// The bytes of a rope are not valid UTF-8.
#[derive(Debug, Clone, Copy, PartialEq, Eq, Structural)]
pub struct InvalidUtf8 {
    /// How many bytes at the front are whole characters; what follows them is none.
    pub valid_up_to: usize,
}

impl<K: Kind> View for Rope<K> {
    type V = Seq<u8>;

    /// The bytes of the rope, in order.
    open spec fn view(&self) -> Seq<u8> {
        joined(self.chunk_list())
    }
}

impl<K: Kind> Rope<K> {
    #[verifier::type_invariant]
    spec fn well_formed(self) -> bool {
        K::admits(self.bytes@)
    }

    /// The bytes of each chunk, in order.
    pub closed spec fn chunk_list(&self) -> Seq<Seq<u8>> {
        self.bytes.chunk_list()
    }

    /// The number of bytes. The bytes are of the kind `K`.
    pub fn len(&self) -> (len: usize)
        ensures
            len == self@.len(),
            K::admits(self@),
    {
        proof {
            use_type_invariant(self);
        }
        self.bytes.len()
    }

    /// Whether there are no bytes.
    pub fn is_empty(&self) -> (empty: bool)
        ensures
            empty == (self@.len() == 0),
    {
        self.bytes.is_empty()
    }

    /// The byte at `offset`, or `None` if that is out of bounds.
    pub fn byte_at(&self, offset: usize) -> (byte: Option<u8>)
        ensures
            match byte {
                Some(byte) => offset < self@.len() && byte == self@[offset as int],
                None => offset >= self@.len(),
            },
    {
        self.bytes.byte_at(offset)
    }

    /// Walks over the chunks in order.
    pub fn chunks(&self) -> (walk: Chunks<'_>)
        ensures
            walk.left() == self.chunk_list(),
    {
        self.bytes.chunks()
    }

    /// All bytes as one chunk. They are copied if there is more than one chunk.
    pub fn copy_to_bytes(&self) -> (whole: Bytes)
        requires
            self.chunk_list().len() > 1 ==> self@.len() <= isize::MAX,
        ensures
            contents(whole) == self@,
    {
        self.bytes.copy_to_bytes()
    }

    /// The bytes as one slice if they lie in a single chunk or there are none.
    pub fn as_contiguous(&self) -> (slice: Option<&[u8]>)
        ensures
            match slice {
                Some(slice) => self.chunk_list().len() <= 1 && slice@ == self@,
                None => self.chunk_list().len() > 1,
            },
    {
        self.bytes.as_contiguous()
    }

    /// The rope without its kind.
    pub fn into_bytes(self) -> (bytes: ByteRope)
        ensures
            bytes.chunk_list() == self.chunk_list(),
            K::admits(bytes@),
    {
        proof {
            use_type_invariant(&self);
        }
        let Rope { bytes, kind: _ } = self;
        bytes
    }
}

/// The number of bytes in the encoding that starts with `lead`, or 0 where none does.
spec fn width_of(lead: u8) -> int {
    if lead <= 0x7f {
        1
    } else if is_leading_byte_width_2(lead) {
        2
    } else if is_leading_byte_width_3(lead) {
        3
    } else if is_leading_byte_width_4(lead) {
        4
    } else {
        0
    }
}

/// The start of an encoding that lacks at least one byte.
spec fn unfinished(bytes: Seq<u8>) -> bool {
    &&& bytes.len() > 0 ==> bytes.len() < width_of(bytes[0])
    &&& forall|i: int| 1 <= i < bytes.len() ==> is_continuation_byte(#[trigger] bytes[i])
}

/// See [`width_of`].
fn lead_width(lead: u8) -> (width: usize)
    ensures
        width == width_of(lead),
{
    if lead <= 0x7f {
        1
    } else if 0xc0 <= lead && lead <= 0xdf {
        2
    } else if 0xe0 <= lead && lead <= 0xef {
        3
    } else if 0xf0 <= lead && lead <= 0xf7 {
        4
    } else {
        0
    }
}

/// Whether the bytes of one encoding, whose lead and continuation bytes are in place, spell a
/// scalar value and use no more bytes than it needs.
fn spells_scalar(bytes: &[u8]) -> (valid: bool)
    requires
        bytes@.len() > 0,
        bytes@.len() == width_of(bytes@[0]),
        forall|i: int| 1 <= i < bytes@.len() ==> is_continuation_byte(#[trigger] bytes@[i]),
    ensures
        valid == valid_first_scalar(bytes@),
{
    let len: usize = bytes.len();
    let ghost seq = bytes@;
    proof {
        if len >= 2 {
            assert(is_continuation_byte(seq[1]));
        }
        if len >= 3 {
            assert(is_continuation_byte(seq[2]));
        }
        if len >= 4 {
            assert(is_continuation_byte(seq[3]));
        }
        assert(length_of_first_codepoint(seq) == len);
    }
    if len == 1 {
        proof {
            let lead = seq[0];
            assert(lead <= 0x7f ==> (lead & 0x7f) as u32 <= 0x7f) by (bit_vector);
        }
        return true;
    }
    let value: u32 = if len == 2 {
        (((bytes[0] & 0x1F) as u32) << 6) | ((bytes[1] & 0x3f) as u32)
    } else if len == 3 {
        (((bytes[0] & 0x0F) as u32) << 12) | (((bytes[1] & 0x3f) as u32) << 6) | ((bytes[2]
            & 0x3f) as u32)
    } else {
        (((bytes[0] & 0x07) as u32) << 18) | (((bytes[1] & 0x3f) as u32) << 12) | (((bytes[2]
            & 0x3f) as u32) << 6) | ((bytes[3] & 0x3f) as u32)
    };
    assert(value == decode_first_codepoint(seq));
    let shortest: bool = if len == 2 {
        0x80 <= value
    } else if len == 3 {
        0x800 <= value
    } else {
        0x10000 <= value && value <= 0x10ffff
    };
    shortest && !(0xD800 <= value && value <= 0xDFFF)
}

/// A whole encoding at the front can be cut off.
proof fn lemma_whole_scalar(front: Seq<u8>, rest: Seq<u8>)
    requires
        front.len() > 0,
        front.len() == width_of(front[0]),
        forall|i: int| 1 <= i < front.len() ==> is_continuation_byte(#[trigger] front[i]),
    ensures
        valid_first_scalar(front + rest) == valid_first_scalar(front),
        valid_first_scalar(front) ==> valid_utf8(front) && valid_utf8(front + rest) == valid_utf8(
            rest,
        ),
{
    let all = front + rest;
    assert(all[0] == front[0]);
    if front.len() >= 2 {
        assert(all[1] == front[1]);
        assert(is_continuation_byte(front[1]));
    }
    if front.len() >= 3 {
        assert(all[2] == front[2]);
        assert(is_continuation_byte(front[2]));
    }
    if front.len() >= 4 {
        assert(all[3] == front[3]);
        assert(is_continuation_byte(front[3]));
    }
    assert(decode_first_codepoint(all) == decode_first_codepoint(front));
    assert(pop_first_scalar(all) =~= rest);
    assert(pop_first_scalar(front) =~= Seq::<u8>::empty());
    reveal_with_fuel(valid_utf8, 2);
}

/// An encoding that breaks off, or goes on with a byte that does not belong to it, is none.
proof fn lemma_broken_scalar(front: Seq<u8>, rest: Seq<u8>)
    requires
        unfinished(front),
        front.len() + rest.len() > 0,
        front.len() == 0 ==> width_of(rest[0]) == 0,
        front.len() > 0 && rest.len() > 0 ==> !is_continuation_byte(rest[0]),
    ensures
        !valid_first_scalar(front + rest),
{
    let all = front + rest;
    if front.len() == 0 {
        assert(all =~= rest);
    } else {
        assert(all[0] == front[0]);
        if rest.len() > 0 {
            assert(all[front.len() as int] == rest[0]);
        }
    }
}

/// Reads the bytes of a rope as UTF-8, chunk by chunk.
fn scan_utf8(rope: &ByteRope) -> (result: Result<(), InvalidUtf8>)
    ensures
        match result {
            Ok(()) => valid_utf8(rope@),
            Err(error) => {
                &&& !valid_utf8(rope@)
                &&& error.valid_up_to < rope@.len()
                &&& valid_utf8(rope@.take(error.valid_up_to as int))
                &&& !valid_first_scalar(rope@.skip(error.valid_up_to as int))
            },
        },
{
    let total: usize = rope.len();
    let count: usize = rope.chunk_count();
    let ghost list = rope.chunk_list();
    let ghost whole = rope@;
    let mut done: usize = 0;
    let mut pending: Vec<u8> = Vec::new();
    let mut i: usize = 0;
    proof {
        assert(list.take(0) =~= Seq::<Seq<u8>>::empty());
        assert(whole.take(0) =~= Seq::<u8>::empty());
        assert(whole.skip(0) =~= whole);
    }
    while i < count
        invariant
            i <= count,
            count == list.len(),
            list == rope.chunk_list(),
            whole == joined(list),
            whole == rope@,
            total == whole.len(),
            done + pending@.len() == joined(list.take(i as int)).len(),
            done + pending@.len() <= total,
            pending@ == whole.subrange(done as int, done + pending@.len()),
            unfinished(pending@),
            valid_utf8(whole.take(done as int)),
            valid_utf8(whole) == valid_utf8(whole.skip(done as int)),
        decreases count - i,
    {
        let slice: &[u8] = match rope.get(i) {
            Some(chunk) => chunk_slice(chunk),
            None => vstd::pervasive::unreached(),
        };
        let len: usize = slice.len();
        let ghost start = joined(list.take(i as int)).len();
        proof {
            lemma_joined_step(list, i as int);
            lemma_joined_cut(list, i + 1);
            assert(whole.subrange(start as int, start + len) =~= slice@);
        }
        let mut j: usize = 0;
        while j < len
            invariant
                i < count,
                count == list.len(),
                list == rope.chunk_list(),
                whole == joined(list),
                whole == rope@,
                total == whole.len(),
                j <= len,
                len == slice@.len(),
                start + len <= total,
                whole.subrange(start as int, start + len) == slice@,
                done + pending@.len() == start + j,
                pending@ == whole.subrange(done as int, done + pending@.len()),
                unfinished(pending@),
                valid_utf8(whole.take(done as int)),
                valid_utf8(whole) == valid_utf8(whole.skip(done as int)),
            decreases len - j,
        {
            let byte: u8 = slice[j];
            let ghost front = pending@;
            let ghost left = whole.skip(done as int);
            let ghost rest = whole.skip(start + j);
            proof {
                assert(byte == whole.subrange(start as int, start + len)[j as int]);
                assert(rest[0] == byte);
                assert(left =~= front + rest);
            }
            let held: usize = pending.len();
            let lead: u8 = if held == 0 {
                byte
            } else {
                pending[0]
            };
            let width: usize = lead_width(lead);
            if width == 0 || (held > 0 && !(0x80 <= byte && byte <= 0xbf)) {
                proof {
                    lemma_broken_scalar(front, rest);
                }
                return Err(InvalidUtf8 { valid_up_to: done });
            }
            pending.push(byte);
            proof {
                assert(pending@ =~= whole.subrange(done as int, done + pending@.len()));
                assert forall|k: int| 1 <= k < pending@.len() implies is_continuation_byte(
                    #[trigger] pending@[k],
                ) by {
                    if k < front.len() {
                        assert(is_continuation_byte(front[k]));
                    }
                }
            }
            if pending.len() == width {
                let valid: bool = spells_scalar(pending.as_slice());
                let ghost full = pending@;
                proof {
                    let after = whole.skip(done + full.len());
                    lemma_whole_scalar(full, after);
                    assert(left =~= full + after);
                }
                if !valid {
                    return Err(InvalidUtf8 { valid_up_to: done });
                }
                proof {
                    valid_utf8_concat(whole.take(done as int), full);
                    assert(whole.take(done + full.len()) =~= whole.take(done as int) + full);
                }
                done = done + width;
                pending.clear();
                assert(pending@ =~= whole.subrange(done as int, done as int));
            }
            j = j + 1;
        }
        i = i + 1;
    }
    proof {
        assert(list.take(count as int) =~= list);
    }
    if pending.len() > 0 {
        proof {
            lemma_broken_scalar(pending@, Seq::<u8>::empty());
            assert(pending@ + Seq::<u8>::empty() =~= whole.skip(done as int));
        }
        return Err(InvalidUtf8 { valid_up_to: done });
    }
    assert(whole.take(done as int) =~= whole);
    Ok(())
}

impl Rope<Utf8> {
    /// Reads a rope as text: the bytes of all chunks in a row must be valid UTF-8.
    pub fn try_from_bytes(bytes: ByteRope) -> (result: Result<Self, InvalidUtf8>)
        ensures
            match result {
                Ok(text) => valid_utf8(bytes@) && text.chunk_list() == bytes.chunk_list(),
                Err(error) => {
                    &&& !valid_utf8(bytes@)
                    &&& error.valid_up_to < bytes@.len()
                    &&& valid_utf8(bytes@.take(error.valid_up_to as int))
                    &&& !valid_first_scalar(bytes@.skip(error.valid_up_to as int))
                },
            },
    {
        match scan_utf8(&bytes) {
            Ok(()) => Ok(Rope { bytes, kind: PhantomData }),
            Err(error) => Err(error),
        }
    }

    /// Appends bytes, which must keep the rope valid.
    pub fn append_bytes(&mut self, bytes: &[u8])
        requires
            old(self)@.len() + bytes@.len() <= usize::MAX,
            valid_utf8(old(self)@ + bytes@),
        ensures
            final(self)@ == old(self)@ + bytes@,
            bytes@.len() == 0 ==> final(self).chunk_list() == old(self).chunk_list(),
            bytes@.len() > 0 ==> final(self).chunk_list() == old(self).chunk_list().push(bytes@),
    {
        let mut text = Rope::<Utf8>::new();
        core::mem::swap(self, &mut text);
        let mut rope = text.into_bytes();
        if bytes.len() > 0 {
            rope.push_back(Bytes::copy_from_slice(bytes));
        } else {
            assert(rope@ + bytes@ =~= rope@);
        }
        *self = Rope { bytes: rope, kind: PhantomData };
    }

    /// Inserts bytes at `at`, which must keep the rope valid.
    pub fn insert_bytes(&mut self, at: usize, bytes: &[u8])
        requires
            at <= old(self)@.len(),
            old(self)@.len() + bytes@.len() <= usize::MAX,
            valid_utf8(respliced(old(self)@, at as int, at as int, bytes@)),
        ensures
            final(self)@ == respliced(old(self)@, at as int, at as int, bytes@),
    {
        let mut text = Rope::<Utf8>::new();
        core::mem::swap(self, &mut text);
        let mut rope = text.into_bytes();
        match rope.replace(at..at, bytes) {
            Ok(()) => {},
            Err(_) => vstd::pervasive::unreached(),
        }
        *self = Rope { bytes: rope, kind: PhantomData };
    }

    /// An empty text.
    pub fn new() -> (text: Self)
        ensures
            text.chunk_list() == Seq::<Seq<u8>>::empty(),
            text@ == Seq::<u8>::empty(),
    {
        Rope { bytes: ByteRope::new(), kind: PhantomData }
    }
}

impl Default for Rope<Utf8> {
    /// An empty text.
    fn default() -> (text: Self)
        ensures
            text.chunk_list() == Seq::<Seq<u8>>::empty(),
            text@ == Seq::<u8>::empty(),
    {
        Rope::<Utf8>::new()
    }
}

/// Text inserted into text between two characters gives text; so [`Rope::insert_bytes`] may be
/// called with any valid UTF-8 at any character boundary, and [`Rope::append_bytes`] with any valid
/// UTF-8.
pub proof fn law_insert_keeps_text(text: Seq<u8>, at: int, inserted: Seq<u8>)
    requires
        valid_utf8(text),
        valid_utf8(inserted),
        0 <= at <= text.len(),
        is_char_boundary(text, at),
    ensures
        valid_utf8(respliced(text, at, at, inserted)),
        valid_utf8(text + inserted),
{
    valid_utf8_split(text, at);
    assert(text.subrange(0, at) =~= text.take(at));
    assert(text.subrange(at, text.len() as int) =~= text.skip(at));
    valid_utf8_concat(text.take(at), inserted);
    valid_utf8_concat(text.take(at) + inserted, text.skip(at));
    valid_utf8_concat(text, inserted);
}

} // verus!
