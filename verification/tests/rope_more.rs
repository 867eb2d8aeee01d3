//! Laws and edge cases of ropes on concrete values.

use bytes::{Bytes, BytesMut};
use etude::buffer::reader::{Buffer as _, BufferExt as _};
use etude::buffer::writer::{Buffer as _, BufferExt as _};
use etude::rope::range::resolve_range;
use etude::rope::{
    Bound, ByteRope, ByteRopeError, InvalidUtf8, Rope, Utf8, COALESCE_MAX, COW_SPLIT_ABOVE,
    DEMOTE_AT, FANOUT, PROMOTE_AT,
};

/// A rope of `n` chunks of one to four bytes, and its bytes.
fn sample(n: usize) -> (ByteRope, Vec<u8>) {
    let mut rope = ByteRope::new();
    let mut flat = Vec::new();
    for i in 0..n {
        let piece: Vec<u8> = (0..1 + i % 4).map(|k| (i * 7 + k) as u8).collect();
        flat.extend_from_slice(&piece);
        rope.push_back(Bytes::from(piece));
    }
    (rope, flat)
}

#[test]
fn error_messages() {
    assert_eq!(ByteRopeError::OutOfBounds(3).message(), "index out of bounds: 3");
    assert_eq!(
        ByteRopeError::OutOfBoundsRange(2, 5).message(),
        "range out of bounds: 2..5"
    );
    assert_eq!(ByteRopeError::OutOfBounds(0).message(), "index out of bounds: 0");
    assert_eq!(
        ByteRopeError::OutOfBounds(1_234_567_890).message(),
        "index out of bounds: 1234567890"
    );
}

#[test]
fn ranges_resolve() {
    let included = |at| Bound::Included(at);
    let excluded = |at| Bound::Excluded(at);
    assert_eq!(resolve_range(&(2..5), 9), Ok((2, 5)));
    assert_eq!(resolve_range(&(9..9), 9), Ok((9, 9)));
    assert_eq!(resolve_range(&(included(2), included(4)), 9), Ok((2, 5)));
    assert_eq!(resolve_range(&(excluded(2), Bound::Unbounded), 9), Ok((3, 9)));
    assert_eq!(resolve_range(&(Bound::Unbounded, Bound::Unbounded), 9), Ok((0, 9)));
    // past the end: the larger end is named
    assert_eq!(resolve_range(&(3..10), 9), Err(ByteRopeError::OutOfBounds(10)));
    // inverted
    let inverted = (included(7), excluded(2));
    assert_eq!(resolve_range(&inverted, 9), Err(ByteRopeError::OutOfBounds(7)));
    // no `usize` follows the bound
    let last = (included(0), included(usize::MAX));
    assert_eq!(resolve_range(&last, 9), Err(ByteRopeError::OutOfBounds(usize::MAX)));
    let first = (excluded(usize::MAX), Bound::Unbounded);
    assert_eq!(resolve_range(&first, 9), Err(ByteRopeError::OutOfBounds(usize::MAX)));
}

#[test]
fn split_then_append_restores() {
    for n in [0usize, 1, 10, 200] {
        let (rope, flat) = sample(n);
        for at in [0, flat.len() / 3, flat.len() / 2, flat.len()] {
            let mut rest = rope.clone();
            let mut front = rest.split_to(at).ok().unwrap();
            assert!(front == flat[..at]);
            assert!(rest == flat[at..]);
            front.append(&mut rest);
            assert!(front == rope);
            assert!(rest.is_empty());
        }
    }
}

#[test]
fn append_then_split_restores() {
    for (n, m) in [(3usize, 4usize), (100, 2), (2, 100), (100, 150)] {
        let (mut a, flat_a) = sample(n);
        let (mut b, flat_b) = sample(m);
        a.append(&mut b);
        let front = a.split_to(flat_a.len()).ok().unwrap();
        assert!(front == flat_a);
        assert!(a == flat_b);
    }
}

#[test]
fn pop_undoes_push() {
    for n in [0usize, 5, 200] {
        let (mut rope, flat) = sample(n);
        let count = rope.chunks().len();
        rope.push_back(Bytes::from_static(b"back"));
        rope.push_front(Bytes::from_static(b"front"));
        assert_eq!(rope.pop_back().unwrap(), &b"back"[..]);
        assert_eq!(rope.pop_front().unwrap(), &b"front"[..]);
        assert!(rope == flat);
        assert_eq!(rope.chunks().len(), count);
    }
}

#[test]
fn slice_is_truncate_and_advance() {
    for n in [8usize, 150] {
        let (rope, flat) = sample(n);
        let (start, end) = (flat.len() / 5, flat.len() / 2);
        let mut other = rope.clone();
        other.truncate(end);
        other.advance(start).unwrap();
        assert!(other == rope.slice(start..end));
        assert!(other == flat[start..end]);
        // a longer length changes nothing
        other.truncate(flat.len());
        assert!(other == flat[start..end]);
        other.truncate(0);
        assert!(other.is_empty());
    }
}

#[test]
fn advance_adds_up_and_reports_the_end() {
    let (mut rope, flat) = sample(120);
    rope.advance(7).unwrap();
    rope.advance(30).unwrap();
    assert!(rope == flat[37..]);
    let past = flat.len();
    assert_eq!(rope.advance(past), Err(ByteRopeError::OutOfBounds(past)));
    assert!(rope == flat[37..]);
}

#[test]
fn replace_can_be_undone() {
    for n in [8usize, 150] {
        let (mut rope, flat) = sample(n);
        let (start, end) = (flat.len() / 4, flat.len() / 2);
        rope.replace(start..end, &b"some other bytes"[..]).unwrap();
        assert_eq!(rope.len(), flat.len() - (end - start) + 16);
        rope.replace(start..start + 16, &flat[start..end]).unwrap();
        assert!(rope == flat);
    }
}

#[test]
fn set_byte_is_a_replace_of_one() {
    let (mut a, flat) = sample(100);
    let mut b = a.clone();
    let at = flat.len() / 2;
    a.set_byte(at, 0xEE).unwrap();
    b.replace(at..=at, &[0xEE][..]).unwrap();
    assert!(a == b);
    assert_eq!(
        a.set_byte(flat.len(), 0),
        Err(ByteRopeError::OutOfBounds(flat.len()))
    );
}

#[test]
fn equality_does_not_see_chunks() {
    let one = ByteRope::from(&b"abcdef"[..]);
    let many = ByteRope::from_iter(b"abcdef".iter().map(|b| Bytes::copy_from_slice(&[*b])).collect());
    assert_eq!(many.chunks().len(), 6);
    assert!(one == many);
    assert!(one == b"abcdef");
    assert!(one == "abcdef");
    assert!(one == Bytes::from_static(b"abcdef"));
    assert!(one == vec![b'a', b'b', b'c', b'd', b'e', b'f']);
    assert!(one != b"abcdeg");
    assert!(one != b"abcde");
    assert!(many != ByteRope::from(&b"abcdxf"[..]));
    let pieces = [Bytes::from_static(b"abc"), Bytes::new(), Bytes::from_static(b"def")];
    assert!(many == pieces);
    let longer = [Bytes::from_static(b"abcdef"), Bytes::from_static(b"g")];
    assert!(many != longer[..]);
}

#[test]
fn byte_lies_in_its_chunk() {
    let (rope, flat) = sample(150);
    let mut before = 0;
    for i in 0..rope.chunks().len() {
        let chunk = rope.get(i).unwrap();
        for k in 0..chunk.len() {
            assert_eq!(rope.byte_at(before + k), Some(chunk[k]));
        }
        assert_eq!(&rope[i][..], &flat[before..before + chunk.len()]);
        before += chunk.len();
    }
    assert_eq!(rope.byte_at(before), None);
    assert!(rope.get(rope.chunks().len()).is_none());
}

#[test]
fn shape_follows_the_chunk_count() {
    assert_eq!(PROMOTE_AT, 2 * FANOUT);
    assert_eq!(DEMOTE_AT, FANOUT);
    let mut rope = ByteRope::with_capacity(4);
    for i in 0..=PROMOTE_AT {
        assert!(!rope.is_deep(), "still flat with {i} chunks");
        rope.push_back(Bytes::from_static(b"x"));
    }
    assert!(rope.is_deep());
    while rope.chunks().len() > DEMOTE_AT + 1 {
        rope.pop_back();
        assert!(rope.is_deep());
    }
    rope.pop_back();
    assert!(!rope.is_deep());
    assert!(rope.check_invariants());
    rope.clear();
    assert!(rope.is_empty());
}

#[test]
fn small_edits_in_one_chunk_stay_in_it() {
    let mut rope = ByteRope::from(vec![b'a'; 100]);
    rope.replace(50..50, &b"bb"[..]).unwrap();
    assert_eq!(rope.chunks().len(), 1);
    // an edit that makes the chunk too long cuts it instead
    let long = vec![b'c'; COALESCE_MAX];
    rope.replace(50..52, &long[..]).unwrap();
    assert_eq!(rope.chunks().len(), 3);
    assert_eq!(rope.len(), 100 + COALESCE_MAX);
    // deleting everything leaves nothing
    let len = rope.len();
    rope.replace(0..len, &b""[..]).unwrap();
    assert_eq!(rope.chunks().len(), 0);
}

#[test]
fn owned_values_are_spliced_in_as_they_are() {
    let value = Bytes::from(vec![9u8; 1000]);
    let at = value.as_ptr() as usize;
    for n in [8usize, 150] {
        let (mut rope, flat) = sample(n);
        let middle = flat.len() / 2;
        rope.replace(middle..middle, value.clone()).unwrap();
        let found = (0..rope.chunks().len()).any(|i| rope[i].as_ptr() as usize == at);
        assert!(found, "the value was copied, n={n}");
    }
}

#[test]
fn clones_do_not_see_each_other() {
    for n in [4usize, 200] {
        let (rope, flat) = sample(n);
        let mut copy = rope.clone();
        copy.set_byte(0, 0xFF).unwrap();
        copy.push_back(Bytes::from_static(b"tail"));
        copy.pop_front();
        copy.replace(1..3, &b"zz"[..]).unwrap();
        assert!(rope == flat);
    }
}

#[test]
fn flattening() {
    let empty = ByteRope::new();
    assert!(empty.copy_to_bytes().is_empty());
    assert!(empty.copy_to_bytes_mut().is_empty());
    // one chunk is handed out as it is
    let chunk = Bytes::from(vec![1u8; 64]);
    let one = ByteRope::from(chunk.clone());
    assert_eq!(one.copy_to_bytes().as_ptr(), chunk.as_ptr());
    assert_eq!(&one.copy_to_bytes_mut()[..], &chunk[..]);
    for n in [5usize, 180] {
        let (rope, flat) = sample(n);
        assert_eq!(&rope.copy_to_bytes()[..], &flat[..]);
        assert_eq!(&rope.copy_to_bytes_mut()[..], &flat[..]);
    }
}

#[test]
fn split_to_copy_reports_the_end() {
    let (mut rope, flat) = sample(90);
    let past = flat.len() + 1;
    assert_eq!(rope.split_to_copy(past), Err(ByteRopeError::OutOfBounds(past)));
    let front = rope.split_to_copy(11).unwrap();
    assert_eq!(&front[..], &flat[..11]);
    assert!(rope == flat[11..]);
}

#[test]
fn taking_bytes_shares_the_front_chunk() {
    let chunk = Bytes::from(vec![5u8; 32]);
    let mut rope = ByteRope::from_iter(vec![chunk.clone(), Bytes::from_static(b"tail")]);
    let front = rope.take_bytes(10);
    assert_eq!(front.as_ptr(), chunk.as_ptr());
    let rest = rope.take_bytes(24);
    assert_eq!(&rest[..22], &[5u8; 22][..]);
    assert_eq!(&rest[22..], b"ta");
    assert_eq!(rope.front_slice(), b"il");
}

#[test]
fn rope_is_a_source() {
    let (mut rope, flat) = sample(130);
    let mut out: Vec<u8> = vec![];
    {
        let mut limit = out.with_write_limit(50);
        rope.copy_into(&mut limit).unwrap();
    }
    assert_eq!(out, flat[..50]);
    assert!(rope == flat[50..]);
    // a read never crosses a chunk
    let first = rope.front_slice().len();
    let chunk = rope.read_chunk(1000).unwrap();
    assert_eq!(chunk.len(), first);
}

#[test]
fn rope_is_a_destination() {
    let mut rope = ByteRope::new();
    rope.put_slice(b"");
    assert_eq!(rope.chunks().len(), 0);
    rope.put_bytes(Bytes::from_static(b"ab"));
    rope.put_bytes_mut(BytesMut::from(&b"cd"[..]));
    rope.put_slice(b"ef");
    assert_eq!(rope.chunks().len(), 3);
    assert_eq!(rope.remaining_capacity(), usize::MAX);
    let none: Result<Option<usize>, ()> = rope.put_uninit_slice(1, |_| Ok(1));
    assert_eq!(none, Ok(None));
    assert!(rope == b"abcdef");
    assert_eq!(rope.write_vectored(&[&b"gh"[..], &b""[..], &b"i"[..]]), 3);
    assert_eq!(&rope[3][..], b"ghi");
}

#[test]
fn reader_leaves_the_rope() {
    let (rope, flat) = sample(70);
    let mut reader = rope.reader();
    assert_eq!(reader.len(), flat.len());
    let mut got = Vec::new();
    while let Some(chunk) = reader.next() {
        got.extend_from_slice(&chunk);
    }
    assert!(reader.is_empty());
    assert_eq!(got, flat);
    assert!(rope == flat);
}

#[test]
fn read_fills_what_fits() {
    let (mut rope, flat) = sample(40);
    let mut out = [0xAAu8; 200];
    let count = rope.read(&mut out);
    assert_eq!(count, flat.len());
    assert_eq!(&out[..count], &flat[..]);
    assert!(out[count..].iter().all(|b| *b == 0xAA));
    assert!(rope.is_empty());
    assert_eq!(rope.read(&mut out), 0);
}

#[test]
fn conversions() {
    assert!(ByteRope::from(String::from("h\u{e9}")) == [0x68, 0xC3, 0xA9]);
    assert!(ByteRope::from("text") == b"text");
    assert!(ByteRope::from(BytesMut::from(&b"buffer"[..])) == b"buffer");
    assert!(ByteRope::from(b"array") == b"array");
    assert_eq!(ByteRope::from(Bytes::new()).chunks().len(), 0);
    let (rope, flat) = sample(90);
    let chunks: Vec<Bytes> = rope.clone().into();
    assert_eq!(chunks.concat(), flat);
    let deque: std::collections::VecDeque<Bytes> = rope.clone().into();
    assert_eq!(deque.len(), 90);
    assert_eq!(deque[0], chunks[0]);
    let mut all = ByteRope::new();
    all.extend(chunks);
    all.extend_ropes(vec![rope.clone(), ByteRope::from("end")]);
    assert_eq!(all.len(), 2 * flat.len() + 3);
}

#[test]
fn text_ropes_report_where_they_break() {
    let mut rope = ByteRope::from("ok ");
    rope.push_back(Bytes::from_static(&[0xE2, 0x82]));
    assert_eq!(
        Rope::<Utf8>::try_from_bytes(rope).err(),
        Some(InvalidUtf8 { valid_up_to: 3 })
    );
    // an encoded surrogate, an overlong form, and a value past the last scalar
    for bad in [&[0xED, 0xA0, 0x80][..], &[0xE0, 0x80, 0x80], &[0xF4, 0x90, 0x80, 0x80], &[0x80]] {
        let rope = ByteRope::from(bad.to_vec());
        assert_eq!(
            Rope::<Utf8>::try_from_bytes(rope).err(),
            Some(InvalidUtf8 { valid_up_to: 0 })
        );
    }
    // the last scalar itself, and its neighbours around the surrogates
    for good in ["\u{10ffff}", "\u{d7ff}\u{e000}", "\u{7f}\u{80}\u{7ff}\u{800}\u{ffff}\u{10000}"] {
        assert!(Rope::<Utf8>::try_from_bytes(ByteRope::from(good)).is_ok());
    }
}

#[test]
fn inserted_text_keeps_text() {
    let mut text = Rope::<Utf8>::try_from_bytes(ByteRope::from("a\u{20ac}b")).ok().unwrap();
    text.insert_bytes(4, "\u{e9}".as_bytes());
    text.append_bytes("\u{1d11e}".as_bytes());
    let whole = text.into_bytes();
    assert!(whole == "a\u{20ac}\u{e9}b\u{1d11e}");
    assert!(Rope::<Utf8>::try_from_bytes(whole).is_ok());
}

/// The chunks of a rope as byte vectors.
fn pieces(rope: &ByteRope) -> Vec<Vec<u8>> {
    (0..rope.chunk_count()).map(|i| rope[i].to_vec()).collect()
}

/// The part of each chunk between two offsets, without the empty ones.
fn clip(chunks: &[Vec<u8>], start: usize, end: usize) -> Vec<Vec<u8>> {
    let mut at = 0;
    let mut out = Vec::new();
    for chunk in chunks {
        let from = start.max(at) - at;
        let to = end.min(at + chunk.len()).max(at) - at;
        if from < to {
            out.push(chunk[from..to].to_vec());
        }
        at += chunk.len();
    }
    out
}

#[test]
fn cuts_leave_the_other_chunks_whole() {
    for n in [1, 3, 40, 200] {
        let (rope, flat) = sample(n);
        let chunks = pieces(&rope);
        for at in 0..=flat.len() {
            let mut rest = rope.clone();
            let front = rest.split_to(at).unwrap();
            assert_eq!(pieces(&front), clip(&chunks, 0, at));
            assert_eq!(pieces(&rest), clip(&chunks, at, flat.len()));
            assert!(front.chunk_count() + rest.chunk_count() <= n + 1);

            let mut rest = rope.clone();
            rest.advance(at).unwrap();
            assert_eq!(pieces(&rest), clip(&chunks, at, flat.len()));

            let mut rest = rope.clone();
            rest.truncate(at);
            assert_eq!(pieces(&rest), clip(&chunks, 0, at));

            let to = (at + 7).min(flat.len());
            assert_eq!(pieces(&rope.slice(at..to)), clip(&chunks, at, to));
        }
    }
}

#[test]
fn slices_compose() {
    let (rope, flat) = sample(90);
    let part = rope.slice(10..150).slice(5..77);
    assert_eq!(pieces(&part), pieces(&rope.slice(15..87)));
    assert!(part == flat[15..87]);
}

#[test]
fn split_between_chunks_cuts_none() {
    let (mut front, _) = sample(50);
    let (mut back, _) = sample(20);
    let (first, second) = (pieces(&front), pieces(&back));
    let at = front.len();
    front.append(&mut back);
    let again = front.split_to(at).unwrap();
    assert_eq!(pieces(&again), first);
    assert_eq!(pieces(&front), second);
}

#[test]
fn shape_after_a_join() {
    // two flat ropes, together below the limit
    let (mut a, _) = sample(30);
    let (mut b, _) = sample(30);
    a.append(&mut b);
    assert!(!a.is_deep());
    assert_eq!(a.chunk_count(), 60);
    // and at the limit
    let (mut c, _) = sample(PROMOTE_AT - 60);
    a.append(&mut c);
    assert!(a.is_deep());
    // a deep one that is joined with nothing
    let (mut none, _) = sample(0);
    a.append(&mut none);
    assert!(a.is_deep());
    none.append(&mut a);
    assert!(none.is_deep());
    assert!(!a.is_deep());
    // drained
    while none.chunk_count() > DEMOTE_AT + 1 {
        none.pop_back();
        assert!(none.is_deep());
    }
    none.pop_back();
    assert!(!none.is_deep());
}

#[test]
fn single_chunk_and_flat_copies() {
    let one = ByteRope::from_chunk(Bytes::from_static(b"solo"));
    assert_eq!(one.chunk_count(), 1);
    assert!(one.bytes_eq(b"solo"));
    assert!(!one.bytes_eq(b"sole"));
    assert!(!one.bytes_eq(b"solos"));
    assert_eq!(ByteRope::from_chunk(Bytes::new()).chunk_count(), 0);
    let (rope, flat) = sample(70);
    assert!(rope.bytes_eq(&flat));
    assert_eq!(rope.into_vec().concat(), flat);
}

#[test]
fn set_byte_splits_only_large_shared_chunks() {
    let large = vec![7u8; COW_SPLIT_ABOVE + 1];
    // nothing else holds the chunk
    let mut rope = ByteRope::from_chunk(Bytes::from(large.clone()));
    rope.set_byte(5, 1).unwrap();
    assert_eq!(rope.chunk_count(), 1);
    // a clone holds it
    let copy = rope.clone();
    rope.set_byte(5, 2).unwrap();
    assert_eq!(pieces(&rope).iter().map(Vec::len).collect::<Vec<_>>(), [5, 1, COW_SPLIT_ABOVE - 5]);
    assert_eq!(rope.byte_at(5), Some(2));
    assert_eq!(copy.byte_at(5), Some(1));
    // at the front of a shared chunk there is nothing to keep before the byte
    let mut front = copy.clone();
    front.set_byte(0, 3).unwrap();
    assert_eq!(pieces(&front).iter().map(Vec::len).collect::<Vec<_>>(), [1, COW_SPLIT_ABOVE]);
    // a shared chunk that is not large is copied whole
    let small = ByteRope::from_chunk(Bytes::from(vec![7u8; COW_SPLIT_ABOVE]));
    let mut edited = small.clone();
    edited.set_byte(9, 4).unwrap();
    assert_eq!(edited.chunk_count(), 1);
    assert_eq!(small.byte_at(9), Some(7));
}

#[test]
fn set_byte_in_a_deep_rope() {
    let (rope, flat) = sample(150);
    for at in 0..flat.len() {
        let mut edited = rope.clone();
        edited.set_byte(at, !flat[at]).unwrap();
        let mut expected = flat.clone();
        expected[at] = !flat[at];
        assert!(edited == expected);
        assert_eq!(edited.chunk_count(), rope.chunk_count());
        assert!(edited.is_deep());
        assert!(rope == flat);
    }
}

#[test]
fn walking_from_both_ends() {
    for n in [0, 1, 40, 1500] {
        let (rope, _) = sample(n);
        let chunks = pieces(&rope);
        let mut walk = rope.chunks();
        let mut front = Vec::new();
        let mut back = Vec::new();
        loop {
            match walk.next() {
                Some(chunk) => front.push(chunk.to_vec()),
                None => break,
            }
            if let Some(chunk) = walk.next_back() {
                back.push(chunk.to_vec());
            }
            assert_eq!(walk.len(), n - front.len() - back.len());
        }
        assert!(walk.next_back().is_none());
        back.reverse();
        front.extend(back);
        assert_eq!(front, chunks);
    }
}

#[test]
fn the_range_without_ends() {
    let (rope, flat) = sample(70);
    assert!(rope.slice(..) == flat);
    assert_eq!(resolve_range(&(..), 9), Ok((0, 9)));
    let mut edited = rope.clone();
    edited.replace(.., &b"new"[..]).unwrap();
    assert!(edited == b"new");
}

#[test]
fn inclusive_ranges() {
    let (rope, flat) = sample(70);
    assert!(rope.slice(3..=9) == flat[3..=9]);
    assert_eq!(resolve_range(&(2..=4), 9), Ok((2, 5)));
    assert_eq!(resolve_range(&(2..=8), 9), Ok((2, 9)));
    assert_eq!(resolve_range(&(2..=9), 9), Err(ByteRopeError::OutOfBounds(10)));
    assert_eq!(
        resolve_range(&(0..=usize::MAX), 9),
        Err(ByteRopeError::OutOfBounds(usize::MAX))
    );
    // one byte
    let mut edited = rope.clone();
    edited.replace(5..=5, &b"!"[..]).unwrap();
    assert_eq!(edited.byte_at(5), Some(b'!'));
    assert_eq!(edited.len(), rope.len());
}
