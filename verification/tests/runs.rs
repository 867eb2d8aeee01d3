//! Where transfers and edits leave the ends of chunks.

use std::cell::Cell;
use std::collections::VecDeque;
use std::rc::Rc;

use bytes::{Bytes, BytesMut};
use etude::buffer::fallible::Fallible;
use etude::buffer::reader::{Buffer as _, BufferExt as _, IoSlice};
use etude::buffer::writer::{Buffer as _, BufferExt as _};
use etude::rope::{
    Behavior, ByteRope, Handle, Owner, Tagged, COALESCE_MAX, COW_SPLIT_ABOVE, DEMOTE_AT,
    PROMOTE_AT,
};

/// A rope with these chunks.
fn rope_of(chunks: &[&[u8]]) -> ByteRope {
    let mut rope = ByteRope::new();
    for chunk in chunks {
        rope.push_back(Bytes::copy_from_slice(chunk));
    }
    rope
}

/// The chunks of a rope.
fn list(rope: &ByteRope) -> Vec<Vec<u8>> {
    rope.clone().into_vec().iter().map(|chunk| chunk.to_vec()).collect()
}

/// A rope of `n` chunks of two bytes.
fn pairs(n: usize) -> ByteRope {
    let mut rope = ByteRope::new();
    for i in 0..n {
        rope.push_back(Bytes::from(vec![i as u8, 1]));
    }
    rope
}

#[test]
fn contiguous_sources_write_nothing() {
    let mut dest: Vec<u8> = vec![];
    let mut bytes = Bytes::from_static(b"hello");
    {
        let chunk = bytes.partial_copy_into(&mut dest).unwrap();
        assert_eq!(chunk.as_slice(), b"hello");
    }
    assert!(dest.is_empty());

    let mut buffer = BytesMut::from(&b"hello"[..]);
    {
        let mut limit = dest.with_write_limit(3);
        let chunk = buffer.partial_copy_into(&mut limit).unwrap();
        assert_eq!(chunk.as_slice(), b"hel");
    }
    assert_eq!(&buffer[..], b"lo");
    assert!(dest.is_empty());
}

#[test]
fn rope_hands_back_its_last_run() {
    let mut rope = rope_of(&[b"ab", b"cde", b"f"]);
    let mut dest: VecDeque<Bytes> = VecDeque::new();
    {
        let chunk = rope.partial_copy_into(&mut dest).unwrap();
        assert_eq!(chunk.as_slice(), b"f");
    }
    assert_eq!(dest, [&b"ab"[..], b"cde"]);
    assert!(rope.is_empty());
}

#[test]
fn rope_hands_back_the_run_that_fills_the_destination() {
    for (limit, written, held, left) in [
        (0, &b""[..], &b""[..], vec![&b"ab"[..], b"cde", b"f"]),
        (1, b"", b"a", vec![&b"b"[..], b"cde", b"f"]),
        (2, b"", b"ab", vec![&b"cde"[..], b"f"]),
        (4, b"ab", b"cd", vec![&b"e"[..], b"f"]),
        (5, b"ab", b"cde", vec![&b"f"[..]]),
        (6, b"abcde", b"f", vec![]),
    ] {
        let mut rope = rope_of(&[b"ab", b"cde", b"f"]);
        let mut dest: Vec<u8> = vec![];
        {
            let mut limited = dest.with_write_limit(limit);
            let chunk = rope.partial_copy_into(&mut limited).unwrap();
            assert_eq!(chunk.as_slice(), held);
        }
        assert_eq!(dest, written);
        assert_eq!(list(&rope), left);

        let source = rope_of(&[b"ab", b"cde", b"f"]);
        let mut reader = source.reader();
        let mut dest: Vec<u8> = vec![];
        {
            let mut limited = dest.with_write_limit(limit);
            let chunk = reader.partial_copy_into(&mut limited).unwrap();
            assert_eq!(chunk.as_slice(), held);
        }
        assert_eq!(dest, written);
        assert_eq!(source.chunks().len(), 3);
    }
}

#[test]
fn slices_hand_back_their_last_run() {
    let parts: [&[u8]; 5] = [b"", b"ab", b"", b"cde", b""];
    let mut source = IoSlice::new(&parts);
    let mut dest: VecDeque<Bytes> = VecDeque::new();
    {
        let chunk = source.partial_copy_into(&mut dest).unwrap();
        assert_eq!(chunk.as_slice(), b"cde");
    }
    assert_eq!(dest, [&b"ab"[..]]);
    assert!(source.buffer_is_empty());
}

#[test]
fn chain_hands_back_its_last_run() {
    let mut chain = rope_of(&[b"ab", b"c"]).chain(rope_of(&[b"de", b"f"]));
    let mut dest: VecDeque<Bytes> = VecDeque::new();
    {
        let chunk = chain.partial_copy_into(&mut dest).unwrap();
        assert_eq!(chunk.as_slice(), b"f");
    }
    assert_eq!(dest, [&b"ab"[..], b"c", b"de"]);

    let mut chain = rope_of(&[b"ab"]).chain(ByteRope::new());
    let mut dest: VecDeque<Bytes> = VecDeque::new();
    {
        let chunk = chain.partial_copy_into(&mut dest).unwrap();
        assert_eq!(chunk.as_slice(), b"ab");
    }
    assert!(dest.is_empty());
}

#[test]
fn builder_hands_back_its_head() {
    let mut builder = ByteRope::builder(64);
    builder.put_bytes(Bytes::from_static(b"ab"));
    builder.put_bytes(Bytes::from_static(b"c"));
    builder.put_slice(b"tail");
    let mut dest: VecDeque<Bytes> = VecDeque::new();
    {
        let chunk = builder.partial_copy_into(&mut dest).unwrap();
        assert_eq!(chunk.as_slice(), b"tail");
    }
    // one element per chunk, and none that is empty
    assert_eq!(dest, [&b"ab"[..], b"c"]);
    assert!(builder.is_empty());

    builder.put_bytes(Bytes::from_static(b"only"));
    let mut dest: VecDeque<Bytes> = VecDeque::new();
    {
        let chunk = builder.partial_copy_into(&mut dest).unwrap();
        assert_eq!(chunk.as_slice(), b"only");
    }
    assert!(dest.is_empty());
}

#[test]
fn adapters_read_the_runs_of_their_source() {
    let mut rope = rope_of(&[b"ab", b"cde"]);
    {
        let mut tracker = rope.track_read();
        assert_eq!(tracker.read_chunk(10).unwrap().as_slice(), b"ab");
        assert_eq!(tracker.read_chunk(2).unwrap().as_slice(), b"cd");
        assert_eq!(tracker.consumed_len(), 4);
    }
    let mut rope = rope_of(&[b"ab", b"cde"]);
    {
        let mut full = rope.full_copy();
        assert_eq!(full.read_chunk(10).unwrap().as_slice(), b"ab");
        let mut dest: Vec<u8> = vec![];
        assert_eq!(full.partial_copy_into(&mut dest).unwrap().as_slice(), b"");
        assert_eq!(dest, b"cde");
    }
    let mut rope = rope_of(&[b"ab", b"cde"]);
    let mut fallible: Fallible<'_, ByteRope, u8> = Fallible::new(&mut rope);
    let mut dest: Vec<u8> = vec![];
    assert_eq!(fallible.partial_copy_into(&mut dest).unwrap().as_slice(), b"cde");
    assert_eq!(dest, b"ab");
}

#[test]
fn reader_counts_every_call() {
    let mut rope = rope_of(&[b"ab", b"cde", b"fgh", b"ij"]);
    let mut dest: Vec<u8> = vec![];
    let mut tracker = rope.track_read();
    let mut taken = tracker.read_chunk(1).unwrap().len();
    {
        let mut limited = dest.with_write_limit(3);
        taken += tracker.partial_copy_into(&mut limited).unwrap().len();
    }
    taken += tracker.read_chunk(100).unwrap().len();
    let before = dest.len();
    tracker.copy_into(&mut dest).unwrap();
    assert_eq!(tracker.consumed_len(), taken + dest.len() - before + 1);
    assert_eq!(tracker.consumed_len(), 10);
}

/// Counts how often each buffer length is frozen.
struct Counting {
    frozen: Rc<Cell<Vec<usize>>>,
}

impl Behavior for Counting {
    fn freeze(&self, buffer: BytesMut) -> Bytes {
        let mut lens = self.frozen.take();
        lens.push(buffer.len());
        self.frozen.set(lens);
        buffer.freeze()
    }
}

#[test]
fn behavior_freezes_every_buffer() {
    let frozen = Rc::new(Cell::new(Vec::new()));
    let mut builder = ByteRope::builder(64).with_behavior(Counting {
        frozen: frozen.clone(),
    });
    builder.put_slice(b"abc");
    builder.put_bytes(Bytes::from_static(b"held"));
    assert_eq!(frozen.take(), [3]);

    builder.put_bytes_mut(BytesMut::from(&b"xy"[..]));
    assert_eq!(frozen.take(), [2]);

    builder.put_slice(b"wxyz");
    let front = builder.split_to(11).unwrap();
    assert_eq!(list(&front), [&b"abc"[..], b"held", b"xy", b"wx"]);
    assert_eq!(frozen.take(), [2]);

    builder.extend(&rope_of(&[b"!"]));
    assert_eq!(frozen.take(), [2]);
    builder.put_slice(b"q");
    assert_eq!(list(&builder.split()), [&b"yz"[..], b"!", b"q"]);
    assert_eq!(frozen.take(), [1]);

    builder.put_slice(b"end");
    assert_eq!(list(&builder.finish()), [&b"end"[..]]);
    assert_eq!(frozen.take(), [3]);
}

#[test]
fn split_builder_keeps_the_ends_of_chunks() {
    let mut builder = ByteRope::builder(16);
    builder.put_bytes(Bytes::from_static(b"abc"));
    builder.put_bytes(Bytes::from_static(b"de"));
    builder.put_slice(b"fgh");
    let front = builder.split_to(4).unwrap();
    assert_eq!(list(&front), [&b"abc"[..], b"d"]);
    assert_eq!(list(&builder.finish()), [&b"e"[..], b"fgh"]);
}

#[test]
fn frame_length_is_a_chunk_of_its_own() {
    let mut builder = ByteRope::builder(16);
    builder.put_slice(b"pre");
    builder.write_with_len_prefix(|w| {
        w.put_slice(b"ab");
        w.put_bytes(Bytes::from_static(b"cd"));
        w.put_slice(b"e");
    });
    assert_eq!(
        list(&builder.finish()),
        [&b"pre"[..], &5u64.to_be_bytes(), b"ab", b"cd", b"e"]
    );
}

#[test]
fn small_chunks_gather_in_the_head() {
    let mut builder = ByteRope::builder(64).with_inline_threshold(3);
    builder.put_slice(b"ab");
    builder.put_bytes(Bytes::from_static(b"cd"));
    builder.put_bytes_mut(BytesMut::from(&b"efg"[..]));
    builder.put_bytes(Bytes::from_static(b"long"));
    builder.put_bytes(Bytes::new());
    assert_eq!(list(&builder.finish()), [&b"abcdefg"[..], b"long"]);
}

#[test]
fn small_edit_stays_in_its_chunk() {
    let mut rope = rope_of(&[b"abc", b"defg", b"hi"]);
    rope.replace(4..6, &b"XYZ"[..]).unwrap();
    assert_eq!(list(&rope), [&b"abc"[..], b"dXYZg", b"hi"]);
    // an insertion where a chunk starts goes into that chunk
    rope.replace(3..3, &b"--"[..]).unwrap();
    assert_eq!(list(&rope), [&b"abc"[..], b"--dXYZg", b"hi"]);
    // a chunk of which nothing is left goes
    rope.replace(0..3, &b""[..]).unwrap();
    assert_eq!(list(&rope), [&b"--dXYZg"[..], b"hi"]);
    // at the end there is no chunk to make anew
    rope.replace(9..9, &b"!"[..]).unwrap();
    assert_eq!(list(&rope), [&b"--dXYZg"[..], b"hi", b"!"]);
}

#[test]
fn edit_up_to_the_coalescing_limit() {
    let whole = vec![7u8; COALESCE_MAX - 1];
    let mut rope = rope_of(&[b"a", &whole]);
    rope.replace(2..2, &b"x"[..]).unwrap();
    assert_eq!(rope.chunks().len(), 2);
    rope.replace(2..2, &b"x"[..]).unwrap();
    assert_eq!(rope.chunks().len(), 4);
}

#[test]
fn wide_edit_cuts_and_keeps_the_runs_of_the_value() {
    let mut rope = rope_of(&[b"abc", b"def", b"ghi"]);
    rope.replace(2..7, rope_of(&[b"1", b"2"])).unwrap();
    assert_eq!(list(&rope), [&b"ab"[..], b"1", b"2", b"hi"]);
    rope.replace(0..2, rope_of(&[b"x", b"yz"])).unwrap();
    assert_eq!(list(&rope), [&b"xyz"[..], b"1", b"2", b"hi"]);
}

#[test]
fn edit_of_a_deep_rope_cuts_and_keeps_the_runs_of_the_value() {
    let mut rope = pairs(100);
    assert!(rope.is_deep());
    let before = list(&rope);
    rope.replace(21..101, rope_of(&[b"left", b"right"])).unwrap();
    let mut expected: Vec<Vec<u8>> = before[..10].to_vec();
    expected.push(vec![10]);
    expected.push(b"left".to_vec());
    expected.push(b"right".to_vec());
    expected.push(vec![1]);
    expected.extend_from_slice(&before[51..]);
    assert_eq!(list(&rope), expected);
    assert!(rope.is_deep());

    let len = rope.len();
    rope.replace(2..len, &b"end"[..])
        .unwrap();
    assert!(!rope.is_deep());
}

#[test]
fn overwrite_keeps_the_ends_of_chunks() {
    let mut rope = rope_of(&[b"abc", b"def", b"ghi"]);
    rope.replace(2..7, &b"12345"[..]).unwrap();
    assert_eq!(list(&rope), [&b"ab1"[..], b"234", b"5hi"]);

    // a large chunk that is shared is cut around the new bytes
    let large = Bytes::from(vec![0u8; COW_SPLIT_ABOVE + 1]);
    let mut rope = ByteRope::new();
    rope.push_back(large.clone());
    rope.replace(10..12, &b"ab"[..]).unwrap();
    let lens: Vec<usize> = list(&rope).iter().map(|chunk| chunk.len()).collect();
    assert_eq!(lens, [10, 2, COW_SPLIT_ABOVE - 11]);
    assert_eq!(large[10], 0);
}

#[test]
fn small_rope_grows_deep_by_an_edit() {
    let mut rope = pairs(PROMOTE_AT - 2);
    assert!(!rope.is_deep());
    let len = rope.len();
    rope.replace(len..len, rope_of(&[b"a", b"b"])).unwrap();
    assert_eq!(rope.chunks().len(), PROMOTE_AT);
    assert!(rope.is_deep());
}

#[test]
fn parts_of_a_deep_rope_shrink() {
    let mut rope = pairs(100);
    let front = rope.split_to(2 * DEMOTE_AT).unwrap();
    assert!(!front.is_deep());
    assert!(rope.is_deep());
    let mut rope = pairs(100);
    let front = rope.split_to(2 * DEMOTE_AT + 1).unwrap();
    assert_eq!(front.chunks().len(), DEMOTE_AT + 1);
    assert!(front.is_deep());

    let rope = pairs(100);
    assert!(rope.slice(0..200).is_deep());
    assert!(rope.slice(2..198).is_deep());
    assert!(!rope.slice(10..10 + 2 * DEMOTE_AT).is_deep());
    assert!(!rope.slice(4..4).is_deep());
    let small = pairs(PROMOTE_AT);
    assert!(!small.slice(1..60).is_deep());
}

#[test]
fn bulk_appends_keep_their_chunks() {
    let mut rope = rope_of(&[b"a"]);
    rope.extend_vecs(vec![b"bc".to_vec(), vec![], b"d".to_vec()]);
    assert_eq!(list(&rope), [&b"a"[..], b"bc", b"d"]);
    rope.extend_ropes(vec![rope_of(&[b"e", b"f"]), ByteRope::new(), rope_of(&[b"g"])]);
    assert_eq!(list(&rope), [&b"a"[..], b"bc", b"d", b"e", b"f", b"g"]);
}

/// Remembers the calls that change a claim.
#[derive(Clone, Default)]
struct Ledger {
    calls: Rc<Cell<Vec<i64>>>,
}

struct Entry {
    calls: Rc<Cell<Vec<i64>>>,
    len: usize,
}

impl Entry {
    fn note(&self, change: i64) {
        let mut calls = self.calls.take();
        calls.push(change);
        self.calls.set(calls);
    }
}

impl Clone for Entry {
    fn clone(&self) -> Self {
        Entry {
            calls: self.calls.clone(),
            len: self.len,
        }
    }
}

impl Handle for Entry {
    fn charged(&self) -> usize {
        self.len
    }

    fn lemma_clone(&self, _copy: Self) {}

    fn increment(&mut self, len: usize) {
        self.len += len;
        self.note(len as i64);
    }

    fn decrement(&mut self, len: usize) {
        self.len -= len;
        self.note(-(len as i64));
    }
}

impl Owner for Ledger {
    type Handle = Entry;

    fn tag(&self, len: usize) -> Entry {
        Entry {
            calls: self.calls.clone(),
            len,
        }
    }
}

#[test]
fn each_change_is_charged_once() {
    let ledger = Ledger::default();
    let mut tagged: Tagged<Ledger> = rope_of(&[b"abc"]).tag(&ledger);
    assert!(ledger.calls.take().is_empty());
    tagged.push_back(Bytes::from_static(b"de"));
    assert_eq!(ledger.calls.take(), [2]);
    tagged.append(&mut rope_of(&[b"fgh", b"i"]));
    assert_eq!(ledger.calls.take(), [4]);
    assert_eq!(tagged.split_to(6).unwrap().len(), 6);
    assert_eq!(ledger.calls.take(), [-6]);
    assert!(tagged.split_to(4).is_err());
    assert!(ledger.calls.take().is_empty());
}
