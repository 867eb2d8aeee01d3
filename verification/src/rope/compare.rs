//! Equality by content: two ropes are equal if they spell the same bytes, however they are cut.

use bytes::Bytes;

use vstd::prelude::*;
use vstd::slice::slice_subrange;
use vstd::std_specs::cmp::PartialEqSpecImpl;
use vstd::string::StringSliceAdditionalSpecFns;

use crate::buffer::reader::sources::shorter;
use crate::chunks::chunk_views;
use crate::chunks::joined;
use crate::chunks::lemma_joined_cut;
use crate::chunks::lemma_joined_step;
use crate::rope::byte_rope::ByteRope;
use crate::rope::take::lemma_front;
use crate::shared::chunk_slice;
use crate::shared::contents;

verus! {

/// Whether two slices of the same length hold the same bytes.
fn same_run(a: &[u8], b: &[u8]) -> (same: bool)
    requires
        a@.len() == b@.len(),
    ensures
        same == (a@ == b@),
{
    let len: usize = a.len();
    let mut at: usize = 0;
    while at < len
        invariant
            at <= len,
            len == a@.len(),
            len == b@.len(),
            forall|i: int| 0 <= i < at ==> a@[i] == b@[i],
        decreases len - at,
    {
        if a[at] != b[at] {
            return false;
        }
        at = at + 1;
    }
    assert(a@ =~= b@);
    true
}

/// A list of chunks that can be read by index.
pub(crate) trait ChunkRun {
    /// The bytes of each chunk.
    spec fn list(&self) -> Seq<Seq<u8>>;

    /// The number of chunks.
    fn run_len(&self) -> (len: usize)
        ensures
            len == self.list().len(),
    ;

    /// The bytes of one chunk.
    fn run_at(&self, index: usize) -> (slice: &[u8])
        requires
            index < self.list().len(),
        ensures
            slice@ == self.list()[index as int],
    ;
}

impl ChunkRun for ByteRope {
    open spec fn list(&self) -> Seq<Seq<u8>> {
        self.chunk_list()
    }

    fn run_len(&self) -> (len: usize) {
        self.chunk_count()
    }

    fn run_at(&self, index: usize) -> (slice: &[u8]) {
        match self.get(index) {
            Some(chunk) => chunk_slice(chunk),
            None => vstd::pervasive::unreached(),
        }
    }
}

/// A borrowed list of chunks.
pub(crate) struct ChunkSlice<'a> {
    pub chunks: &'a [Bytes],
}

impl<'a> ChunkRun for ChunkSlice<'a> {
    open spec fn list(&self) -> Seq<Seq<u8>> {
        chunk_views(self.chunks@)
    }

    fn run_len(&self) -> (len: usize) {
        self.chunks.len()
    }

    fn run_at(&self, index: usize) -> (slice: &[u8]) {
        chunk_slice(&self.chunks[index])
    }
}

/// What is still to be read of a list of which `at` chunks were read and `rest` is left of the last
/// of them.
spec fn unread(rest: Seq<u8>, list: Seq<Seq<u8>>, at: int) -> Seq<u8> {
    rest + joined(list.skip(at))
}

/// Fetches the next chunk of a list that has bytes.
fn next_run<'a, A: ChunkRun>(run: &'a A, at: usize) -> (next: (&'a [u8], usize))
    requires
        at <= run.list().len(),
    ensures
        next.1 <= run.list().len(),
        unread(next.0@, run.list(), next.1 as int) == joined(run.list().skip(at as int)),
        next.0@.len() == 0 ==> next.1 == run.list().len(),
        at < run.list().len() ==> next.1 > at,
{
    let count: usize = run.run_len();
    let mut i: usize = at;
    let ghost list = run.list();
    while i < count
        invariant
            at <= i <= count,
            count == list.len(),
            list == run.list(),
            joined(list.skip(i as int)) == joined(list.skip(at as int)),
        decreases count - i,
    {
        let slice = run.run_at(i);
        proof {
            let rest = list.skip(i as int);
            assert(seq![list[i as int]] + list.skip(i + 1) =~= rest);
            lemma_front(list[i as int], list.skip(i + 1));
        }
        i = i + 1;
        if slice.len() > 0 {
            return (slice, i);
        }
        assert(slice@ + joined(list.skip(i as int)) =~= joined(list.skip(i as int)));
    }
    let none: &[u8] = &[];
    assert(unread(none@, list, count as int) =~= joined(list.skip(count as int)));
    (none, count)
}

/// Cutting a common front off two sequences does not change whether they are equal.
proof fn lemma_same_front(a: Seq<u8>, b: Seq<u8>, n: int)
    requires
        0 <= n <= a.len(),
        n <= b.len(),
    ensures
        (a == b) == (a.take(n) == b.take(n) && a.skip(n) == b.skip(n)),
{
    if a.take(n) == b.take(n) && a.skip(n) == b.skip(n) {
        assert(a =~= a.take(n) + a.skip(n));
        assert(b =~= b.take(n) + b.skip(n));
    }
}

/// Whether two lists of chunks spell the same bytes.
fn chunks_content_eq<A: ChunkRun, B: ChunkRun>(left: &A, right: &B) -> (same: bool)
    ensures
        same == (joined(left.list()) == joined(right.list())),
{
    let (mut a, mut i): (&[u8], usize) = next_run(left, 0);
    let (mut b, mut j): (&[u8], usize) = next_run(right, 0);
    proof {
        assert(left.list().skip(0) =~= left.list());
        assert(right.list().skip(0) =~= right.list());
    }
    loop
        invariant
            i <= left.list().len(),
            j <= right.list().len(),
            a@.len() == 0 ==> i == left.list().len(),
            b@.len() == 0 ==> j == right.list().len(),
            (joined(left.list()) == joined(right.list())) == (unread(a@, left.list(), i as int)
                == unread(b@, right.list(), j as int)),
        decreases (left.list().len() - i) + (right.list().len() - j), a@.len() + b@.len(),
    {
        let ghost x = unread(a@, left.list(), i as int);
        let ghost y = unread(b@, right.list(), j as int);
        if a.len() == 0 || b.len() == 0 {
            proof {
                assert(left.list().skip(left.list().len() as int) =~= Seq::<Seq<u8>>::empty());
                assert(right.list().skip(right.list().len() as int) =~= Seq::<Seq<u8>>::empty());
                if a@.len() == 0 {
                    assert(x =~= Seq::<u8>::empty());
                }
                if b@.len() == 0 {
                    assert(y =~= Seq::<u8>::empty());
                }
                if a@.len() > 0 {
                    assert(x.len() > 0);
                }
                if b@.len() > 0 {
                    assert(y.len() > 0);
                }
            }
            return a.len() == 0 && b.len() == 0;
        }
        let n: usize = shorter(a.len(), b.len());
        proof {
            lemma_same_front(x, y, n as int);
            assert(x.take(n as int) =~= a@.take(n as int));
            assert(y.take(n as int) =~= b@.take(n as int));
            assert(a@.take(n as int) =~= a@.subrange(0, n as int));
            assert(b@.take(n as int) =~= b@.subrange(0, n as int));
        }
        if !same_run(slice_subrange(a, 0, n), slice_subrange(b, 0, n)) {
            return false;
        }
        let rest_a: &[u8] = slice_subrange(a, n, a.len());
        let rest_b: &[u8] = slice_subrange(b, n, b.len());
        proof {
            assert(x.skip(n as int) =~= unread(rest_a@, left.list(), i as int));
            assert(y.skip(n as int) =~= unread(rest_b@, right.list(), j as int));
        }
        if rest_a.len() == 0 {
            proof {
                assert(unread(rest_a@, left.list(), i as int) =~= joined(
                    left.list().skip(i as int),
                ));
            }
            let next = next_run(left, i);
            a = next.0;
            i = next.1;
        } else {
            a = rest_a;
        }
        if rest_b.len() == 0 {
            proof {
                assert(unread(rest_b@, right.list(), j as int) =~= joined(
                    right.list().skip(j as int),
                ));
            }
            let next = next_run(right, j);
            b = next.0;
            j = next.1;
        } else {
            b = rest_b;
        }
    }
}

impl ByteRope {
    /// Whether the rope spells exactly these bytes.
    pub fn bytes_eq(&self, other: &[u8]) -> (same: bool)
        ensures
            same == (self@ == other@),
    {
        self.len() == other.len() && self.spells(other)
    }

    /// Whether the rope starts with these bytes.
    pub fn starts_with(&self, prefix: &[u8]) -> (starts: bool)
        ensures
            starts == prefix@.is_prefix_of(self@),
    {
        let len: usize = prefix.len();
        if len > self.len() {
            return false;
        }
        self.matches_at(0, prefix)
    }

    /// Whether the rope ends with these bytes.
    pub fn ends_with(&self, suffix: &[u8]) -> (ends: bool)
        ensures
            ends == suffix@.is_suffix_of(self@),
    {
        let len: usize = suffix.len();
        let size: usize = self.len();
        if len > size {
            return false;
        }
        self.matches_at(size - len, suffix)
    }

    /// Whether these bytes stand at `offset`.
    fn matches_at(&self, offset: usize, other: &[u8]) -> (same: bool)
        requires
            offset + other@.len() <= self@.len(),
        ensures
            same == (self@.subrange(offset as int, offset + other@.len()) == other@),
    {
        // The length of a rope is a `usize`, so the end of the range is one too.
        let _size: usize = self.len();
        let end: usize = offset + other.len();
        self.slice(offset..end).spells(other)
    }

    /// Whether the rope spells these bytes, which are as many as it has.
    fn spells(&self, other: &[u8]) -> (same: bool)
        requires
            self@.len() == other@.len(),
        ensures
            same == (self@ == other@),
    {
        let count: usize = self.chunk_count();
        let total: usize = other.len();
        let mut at: usize = 0;
        let mut i: usize = 0;
        let ghost list = self.chunk_list();
        assert(list.take(0) =~= Seq::<Seq<u8>>::empty());
        assert(other@.take(0) =~= Seq::<u8>::empty());
        while i < count
            invariant
                i <= count,
                count == list.len(),
                total == other@.len(),
                list == self.chunk_list(),
                joined(list).len() == total,
                joined(list.take(i as int)) == other@.take(at as int),
                at == joined(list.take(i as int)).len(),
                at <= total,
            decreases count - i,
        {
            let slice = self.run_at(i);
            let len: usize = slice.len();
            proof {
                lemma_joined_step(list, i as int);
                lemma_joined_cut(list, i + 1);
            }
            let run: &[u8] = slice_subrange(other, at, at + len);
            if !same_run(slice, run) {
                proof {
                    assert(joined(list).subrange(at as int, at + len) =~= slice@);
                    assert(joined(list) != other@);
                }
                return false;
            }
            assert(other@.take(at + len) =~= other@.take(at as int) + run@);
            at = at + len;
            i = i + 1;
        }
        proof {
            assert(list.take(count as int) =~= list);
            assert(other@.take(at as int) =~= other@);
        }
        true
    }
}

impl PartialEq for ByteRope {
    fn eq(&self, other: &Self) -> (same: bool)
        ensures
            same == (self@ == other@),
    {
        self.len() == other.len() && chunks_content_eq(self, other)
    }
}

impl PartialEqSpecImpl for ByteRope {
    open spec fn obeys_eq_spec() -> bool {
        true
    }

    open spec fn eq_spec(&self, other: &Self) -> bool {
        self@ == other@
    }
}

impl Eq for ByteRope {

}

impl PartialEq<[u8]> for ByteRope {
    fn eq(&self, other: &[u8]) -> (same: bool)
        ensures
            same == (self@ == other@),
    {
        self.bytes_eq(other)
    }
}

impl PartialEqSpecImpl<[u8]> for ByteRope {
    open spec fn obeys_eq_spec() -> bool {
        true
    }

    open spec fn eq_spec(&self, other: &[u8]) -> bool {
        self@ == other@
    }
}

impl<'a> PartialEq<&'a [u8]> for ByteRope {
    fn eq(&self, other: &&'a [u8]) -> (same: bool)
        ensures
            same == (self@ == other@),
    {
        self.bytes_eq(*other)
    }
}

impl<'a> PartialEqSpecImpl<&'a [u8]> for ByteRope {
    open spec fn obeys_eq_spec() -> bool {
        true
    }

    open spec fn eq_spec(&self, other: &&'a [u8]) -> bool {
        self@ == other@
    }
}

impl PartialEq<Vec<u8>> for ByteRope {
    fn eq(&self, other: &Vec<u8>) -> (same: bool)
        ensures
            same == (self@ == other@),
    {
        self.bytes_eq(other.as_slice())
    }
}

impl PartialEqSpecImpl<Vec<u8>> for ByteRope {
    open spec fn obeys_eq_spec() -> bool {
        true
    }

    open spec fn eq_spec(&self, other: &Vec<u8>) -> bool {
        self@ == other@
    }
}

impl PartialEq<str> for ByteRope {
    fn eq(&self, other: &str) -> (same: bool)
        ensures
            same == (self@ == other.spec_bytes()),
    {
        self.bytes_eq(other.as_bytes())
    }
}

impl PartialEqSpecImpl<str> for ByteRope {
    open spec fn obeys_eq_spec() -> bool {
        true
    }

    open spec fn eq_spec(&self, other: &str) -> bool {
        self@ == other.spec_bytes()
    }
}

impl<'a> PartialEq<&'a str> for ByteRope {
    fn eq(&self, other: &&'a str) -> (same: bool)
        ensures
            same == (self@ == other.spec_bytes()),
    {
        self.bytes_eq(other.as_bytes())
    }
}

impl<'a> PartialEqSpecImpl<&'a str> for ByteRope {
    open spec fn obeys_eq_spec() -> bool {
        true
    }

    open spec fn eq_spec(&self, other: &&'a str) -> bool {
        self@ == other.spec_bytes()
    }
}

impl PartialEq<Bytes> for ByteRope {
    fn eq(&self, other: &Bytes) -> (same: bool)
        ensures
            same == (self@ == contents(*other)),
    {
        self.bytes_eq(chunk_slice(other))
    }
}

impl PartialEqSpecImpl<Bytes> for ByteRope {
    open spec fn obeys_eq_spec() -> bool {
        true
    }

    open spec fn eq_spec(&self, other: &Bytes) -> bool {
        self@ == contents(*other)
    }
}

impl<const N: usize> PartialEq<[u8; N]> for ByteRope {
    fn eq(&self, other: &[u8; N]) -> (same: bool)
        ensures
            same == (self@ == other@),
    {
        self.bytes_eq(other.as_slice())
    }
}

impl<const N: usize> PartialEqSpecImpl<[u8; N]> for ByteRope {
    open spec fn obeys_eq_spec() -> bool {
        true
    }

    open spec fn eq_spec(&self, other: &[u8; N]) -> bool {
        self@ == other@
    }
}

impl<'a, const N: usize> PartialEq<&'a [u8; N]> for ByteRope {
    fn eq(&self, other: &&'a [u8; N]) -> (same: bool)
        ensures
            same == (self@ == other@),
    {
        self.bytes_eq(other.as_slice())
    }
}

impl<'a, const N: usize> PartialEqSpecImpl<&'a [u8; N]> for ByteRope {
    open spec fn obeys_eq_spec() -> bool {
        true
    }

    open spec fn eq_spec(&self, other: &&'a [u8; N]) -> bool {
        self@ == other@
    }
}

impl PartialEq<[Bytes]> for ByteRope {
    fn eq(&self, other: &[Bytes]) -> (same: bool)
        ensures
            same == (self@ == joined(chunk_views(other@))),
    {
        chunks_content_eq(self, &ChunkSlice { chunks: other })
    }
}

impl PartialEqSpecImpl<[Bytes]> for ByteRope {
    open spec fn obeys_eq_spec() -> bool {
        true
    }

    open spec fn eq_spec(&self, other: &[Bytes]) -> bool {
        self@ == joined(chunk_views(other@))
    }
}

impl<'a> PartialEq<&'a [Bytes]> for ByteRope {
    fn eq(&self, other: &&'a [Bytes]) -> (same: bool)
        ensures
            same == (self@ == joined(chunk_views(other@))),
    {
        chunks_content_eq(self, &ChunkSlice { chunks: *other })
    }
}

impl<'a> PartialEqSpecImpl<&'a [Bytes]> for ByteRope {
    open spec fn obeys_eq_spec() -> bool {
        true
    }

    open spec fn eq_spec(&self, other: &&'a [Bytes]) -> bool {
        self@ == joined(chunk_views(other@))
    }
}

impl<const LEN: usize> PartialEq<[Bytes; LEN]> for ByteRope {
    fn eq(&self, other: &[Bytes; LEN]) -> (same: bool)
        ensures
            same == (self@ == joined(chunk_views(other@))),
    {
        chunks_content_eq(self, &ChunkSlice { chunks: other.as_slice() })
    }
}

impl<const LEN: usize> PartialEqSpecImpl<[Bytes; LEN]> for ByteRope {
    open spec fn obeys_eq_spec() -> bool {
        true
    }

    open spec fn eq_spec(&self, other: &[Bytes; LEN]) -> bool {
        self@ == joined(chunk_views(other@))
    }
}

impl<'a, const LEN: usize> PartialEq<&'a [Bytes; LEN]> for ByteRope {
    fn eq(&self, other: &&'a [Bytes; LEN]) -> (same: bool)
        ensures
            same == (self@ == joined(chunk_views(other@))),
    {
        chunks_content_eq(self, &ChunkSlice { chunks: other.as_slice() })
    }
}

impl<'a, const LEN: usize> PartialEqSpecImpl<&'a [Bytes; LEN]> for ByteRope {
    open spec fn obeys_eq_spec() -> bool {
        true
    }

    open spec fn eq_spec(&self, other: &&'a [Bytes; LEN]) -> bool {
        self@ == joined(chunk_views(other@))
    }
}

} // verus!
