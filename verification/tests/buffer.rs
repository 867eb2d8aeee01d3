//! Sources, destinations and their adapters.

use std::collections::VecDeque;

use bytes::{Bytes, BytesMut};
use etude::buffer::error::Error;
use etude::buffer::fallible::Fallible;
use etude::buffer::reader::{
    Buffer as _, BufferExt as _, Chain, Chunk, Infallible as _, IoSlice,
};
use etude::buffer::writer::{
    BufMut, Buffer as _, BufferExt as _, SliceWriter, WriteOnce,
};

/// A small deterministic generator.
struct Rng(u64);

impl Rng {
    fn next(&mut self) -> u64 {
        let mut x = self.0;
        x ^= x << 13;
        x ^= x >> 7;
        x ^= x << 17;
        self.0 = x;
        x
    }

    fn below(&mut self, n: u64) -> usize {
        ((self.next() >> 11) % n) as usize
    }

    fn noise(&mut self, longest: u64) -> Vec<u8> {
        let len = self.below(longest + 1);
        (0..len).map(|_| (self.next() >> 24) as u8).collect()
    }
}

/// ensures each implementation returns a trailing chunk correctly
#[test]
fn trailing_chunk_test() {
    let mut rng = Rng(0x7a11_c0de_0000_0001);
    let mut dest = vec![];
    let mut source = vec![];
    let mut cases: Vec<(u16, u16)> = vec![(0, 0), (0, 1), (1, 0), (1, 1), (u16::MAX, u16::MAX)];
    for _ in 0..60 {
        cases.push(((rng.next() >> 20) as u16, (rng.next() >> 30) as u16));
        cases.push((rng.below(40) as u16, rng.below(40) as u16));
    }
    for (dest_len, source_len) in cases {
        source.resize(source_len as usize, 42u8);

        let dest_len = source_len.min(dest_len) as usize;
        dest.resize(dest_len, 0u8);
        dest.fill(0);
        let expected = &source[..dest_len];

        // direct implementation
        {
            let mut reader: &[u8] = &source[..];
            let mut target = SliceWriter::new(&mut dest[..]);

            let chunk = reader.partial_copy_into(&mut target).unwrap();
            assert_eq!(expected, chunk.as_slice());
            assert!(
                dest.iter().all(|b| *b == 0),
                "no bytes should be copied into dest"
            );
        }

        // IoSlice implementation
        {
            let io_slice = [&source[..]];
            let mut reader = IoSlice::new(&io_slice);
            let mut target = SliceWriter::new(&mut dest[..]);

            let chunk = reader.partial_copy_into(&mut target).unwrap();
            assert_eq!(expected, chunk.as_slice());
            assert!(
                dest.iter().all(|b| *b == 0),
                "no bytes should be copied into dest"
            );
        }

        // owned chunk implementation
        {
            let mut reader = Bytes::copy_from_slice(&source);
            let mut target = SliceWriter::new(&mut dest[..]);

            let chunk = reader.partial_copy_into(&mut target).unwrap();
            assert_eq!(expected, chunk.as_slice());
            assert!(
                dest.iter().all(|b| *b == 0),
                "no bytes should be copied into dest"
            );
        }

        // full_copy
        {
            let mut source = &source[..];
            let mut reader = source.full_copy();
            let mut target = SliceWriter::new(&mut dest[..]);

            let chunk = reader.partial_copy_into(&mut target).unwrap();
            assert!(chunk.is_empty());
            assert_eq!(expected, &dest[..]);
        }
    }
}

/// Chain must yield exactly `a ++ b` in order under any interleaving of the three drain methods
/// (`read_chunk`, `partial_copy_into`, `copy_into`) with varying watermarks and dest capacities,
/// over multi-chunk sources — the a/b seam and the trailing-chunk handling are where a
/// multi-source drain can reorder or drop bytes.
#[test]
fn chain_preserves_order_under_mixed_drains() {
    let mut rng = Rng(0xc4a1_4000_0000_0003);
    for _ in 0..400 {
        let mut parts = |count: u64| -> Vec<Vec<u8>> {
            let n = rng.below(count);
            (0..n).map(|_| rng.noise(12)).collect()
        };
        let a_parts = parts(5);
        let b_parts = parts(5);
        let decisions = rng.noise(20);

        let a_slices: Vec<&[u8]> = a_parts.iter().map(|v| &v[..]).collect();
        let b_slices: Vec<&[u8]> = b_parts.iter().map(|v| &v[..]).collect();
        let mut model: Vec<u8> = a_parts.concat();
        model.extend(b_parts.concat());

        let a = IoSlice::new(&a_slices);
        let b = IoSlice::new(&b_slices);
        let mut chain = Chain::new(a, b);
        let mut got: Vec<u8> = Vec::new();
        let mut scratch = [0u8; 16];

        for d in &decisions {
            let k = usize::from(d >> 2) % (scratch.len() + 1);
            match d % 3 {
                0 => {
                    let before = chain.buffered_len();
                    let chunk = chain.read_chunk(k).unwrap();
                    assert!(chunk.len() <= k, "read_chunk over watermark");
                    let n = chunk.len();
                    got.extend_from_slice(chunk.as_slice());
                    drop(chunk);
                    assert_eq!(
                        chain.buffered_len(),
                        before - n,
                        "read_chunk consumes exactly what it returns"
                    );
                }
                1 => {
                    let mut target = SliceWriter::new(&mut scratch[..k]);
                    let chunk = chain.partial_copy_into(&mut target).unwrap();
                    let written = target.filled_len();
                    assert!(chunk.len() <= target.remaining_capacity(), "trailing chunk fits");
                    let mut piece = scratch[..written].to_vec();
                    piece.extend_from_slice(chunk.as_slice());
                    got.extend_from_slice(&piece);
                }
                _ => {
                    let mut target = SliceWriter::new(&mut scratch[..k]);
                    chain.copy_into(&mut target).unwrap();
                    let written = target.filled_len();
                    got.extend_from_slice(&scratch[..written]);
                }
            }
        }
        // Drain whatever remains, then the stream must be exactly a ++ b.
        loop {
            let chunk = chain.read_chunk(8).unwrap();
            if chunk.is_empty() {
                break;
            }
            got.extend_from_slice(chunk.as_slice());
        }
        assert!(chain.buffer_is_empty());
        assert_eq!(got, model, "chain must yield a ++ b in order");
    }
}

#[test]
fn tracked_test() {
    let mut reader = &b"hello world"[..];
    let mut writer: Vec<u8> = vec![];

    {
        let mut reader = reader.track_read();
        let chunk = reader.read_chunk(1).unwrap();
        assert_eq!(chunk.as_slice(), b"h");
        drop(chunk);
        assert_eq!(reader.consumed_len(), 1);
    }

    {
        let mut reader = reader.track_read();
        let mut writer = writer.with_write_limit(5);

        let chunk = reader.partial_copy_into(&mut writer).unwrap();
        assert_eq!(chunk.as_slice(), b"ello ");
        drop(chunk);
        assert_eq!(reader.consumed_len(), 5);
    }

    assert_eq!(writer.len(), 0);

    {
        let mut reader = reader.track_read();
        reader.copy_into(&mut writer).unwrap();
        assert_eq!(reader.consumed_len(), 5);
        assert_eq!(&writer[..], b"world");
    }

    assert_eq!(reader.len(), 0);
}

#[test]
fn fallible_test() {
    let mut reader = Chunk::Slice(b"hello");
    let mut reader = Fallible::new(&mut reader).with_error("unexpected eof");

    assert!(reader.read_chunk(1).is_err());
}

/// `put_uninit_slice` commits exactly the count the closure reports (a partial fill), leaving the
/// untouched tail uncommitted. A closure that reports 0 commits nothing, so it can never expose what
/// the allocation held before.
#[test]
fn put_uninit_slice_commits_exactly_the_reported_prefix() {
    let mut v: Vec<u8> = vec![0xAB; 64];
    v.clear();
    let committed = v
        .put_uninit_slice::<_, core::convert::Infallible>(32, |slice| {
            slice[0..3].copy_from_slice(b"abc");
            Ok(3)
        })
        .unwrap();
    assert_eq!(committed, Some(3));
    assert_eq!(&v[..], b"abc");

    // A closure that reports 0 commits nothing.
    let mut v: Vec<u8> = vec![0xAB; 64];
    v.clear();
    let committed = v
        .put_uninit_slice::<_, core::convert::Infallible>(32, |_slice| Ok(0))
        .unwrap();
    assert_eq!(committed, Some(0));
    assert!(v.is_empty(), "a 0-report committed stale heap: {:?}", &v[..]);
}

/// A report beyond the slice must be clamped to its length. Here the closure fills the whole 8-byte
/// slice but claims 100; the commit must be exactly 8.
#[test]
fn put_uninit_slice_clamps_over_report_to_the_slice() {
    let mut v: Vec<u8> = Vec::with_capacity(16);
    let committed = v
        .put_uninit_slice::<_, core::convert::Infallible>(8, |slice| {
            slice.copy_from_slice(b"01234567");
            Ok(100)
        })
        .unwrap();
    assert_eq!(committed, Some(8));
    assert_eq!(v.len(), 8);
    assert_eq!(&v[..], b"01234567");
}

#[test]
fn vec_test() {
    let mut buffer: Vec<u8> = vec![];
    let expected = vec![42; 1000];
    let expected = &expected[..];

    {
        assert_eq!(buffer.remaining_capacity(), isize::MAX as usize);

        let mut source = expected;

        source.copy_into(&mut buffer).unwrap();
    }

    assert_eq!(&buffer, expected);
}

#[test]
fn vec_buf_test() {
    let mut buffer: Vec<u8> = vec![];
    let expected = vec![42; 1000];
    let expected = &expected[..];

    {
        let mut buffer = BufMut::new(&mut buffer);
        assert_eq!(buffer.remaining_capacity(), isize::MAX as usize);

        let mut source = expected;

        source.copy_into(&mut buffer).unwrap();
    }

    assert_eq!(&buffer, expected);
}

#[test]
fn limit_test() {
    let mut writer: Vec<u8> = vec![];

    {
        let mut writer = writer.with_write_limit(5);
        assert_eq!(writer.remaining_capacity(), 5);
        writer.put_slice(b"hello");
        assert_eq!(writer.remaining_capacity(), 0);
    }

    {
        let mut writer = writer.with_write_limit(5);
        assert_eq!(writer.remaining_capacity(), 5);
        writer.put_bytes(Bytes::from_static(b"hello"));
        assert_eq!(writer.remaining_capacity(), 0);
    }

    {
        let mut writer = writer.with_write_limit(5);
        assert_eq!(writer.remaining_capacity(), 5);
        writer.put_bytes_mut(BytesMut::from(&b"hello"[..]));
        assert_eq!(writer.remaining_capacity(), 0);
    }

    {
        let writer = writer.with_write_limit(0);
        assert!(!writer.has_remaining_capacity());
    }
}

#[test]
fn uninit_slice_test() {
    let mut storage = [0; 8];

    {
        let mut writer = SliceWriter::new(&mut storage[..]);
        assert_eq!(writer.remaining_capacity(), 8);
        writer.put_slice(b"hello");
        assert_eq!(writer.remaining_capacity(), 3);
    }

    {
        let mut writer = SliceWriter::new(&mut storage[..]);
        assert_eq!(writer.remaining_capacity(), 8);
        let committed = writer
            .put_uninit_slice(5, |slice| {
                slice.copy_from_slice(b"hello");
                <Result<usize, core::convert::Infallible>>::Ok(5)
            })
            .unwrap();
        assert_eq!(committed, Some(5));
        assert_eq!(writer.remaining_capacity(), 3);
    }
}

/// A capacity-checking transfer loop performs exactly one round (it observes exhausted capacity
/// after the first non-empty write), while a same-pass multi-put transfer completes.
#[test]
fn advisory_boundary_one_round_for_loops_completion_for_same_pass() {
    // A capacity-checking loop (the shape of a reader's copy_into) stops after one round.
    let mut storage: Vec<u8> = vec![];
    {
        let mut writer = WriteOnce::new(&mut storage);
        let chunks: [&[u8]; 3] = [b"one", b"two", b"three"];
        let mut i = 0;
        while writer.has_remaining_capacity() && i < chunks.len() {
            writer.put_slice(chunks[i]);
            i += 1;
        }
        assert_eq!(i, 1, "loop must stop after the first write");
    }
    assert_eq!(&storage[..], b"one");

    // A real multi-chunk reader drains through its own capacity-checked rounds: only the
    // first round lands.
    let mut storage: Vec<u8> = vec![];
    {
        let parts: [&[u8]; 2] = [b"hello", b"world"];
        let mut reader = IoSlice::new(&parts);
        let mut writer = WriteOnce::new(&mut storage);
        reader.copy_into(&mut writer).unwrap();
    }
    assert_eq!(&storage[..], b"hello", "reader copy_into stops after one round");

    // A same-pass multi-put (no capacity re-check between puts) completes its transfer.
    let mut storage: Vec<u8> = vec![];
    {
        let mut writer = WriteOnce::new(&mut storage);
        writer.put_slice(b"first");
        writer.put_slice(b"second");
    }
    assert_eq!(&storage[..], b"firstsecond");
}

#[test]
fn write_once_test() {
    let mut writer: Vec<u8> = vec![];

    {
        let mut writer = writer.write_once();
        assert!(writer.has_remaining_capacity());
        writer.put_slice(b"hello");
        assert_eq!(writer.remaining_capacity(), 0);
        assert!(!writer.has_remaining_capacity());
    }

    {
        let mut writer = writer.write_once();
        assert!(writer.has_remaining_capacity());
        writer.put_chunk(b"hello"[..].into());
        assert_eq!(writer.remaining_capacity(), 0);
        assert!(!writer.has_remaining_capacity());
    }

    {
        let mut writer = writer.write_once();
        assert!(writer.has_remaining_capacity());
        let committed = writer
            .put_uninit_slice(5, |slice| {
                slice.copy_from_slice(b"hello");
                <Result<usize, core::convert::Infallible>>::Ok(5)
            })
            .unwrap();
        assert_eq!(committed, Some(5));
        assert_eq!(writer.remaining_capacity(), 0);
        assert!(!writer.has_remaining_capacity());
    }

    {
        let mut writer = writer.write_once();
        assert!(writer.has_remaining_capacity());
        writer.put_bytes(Bytes::from_static(b"hello"));
        assert_eq!(writer.remaining_capacity(), 0);
        assert!(!writer.has_remaining_capacity());
    }

    {
        let mut writer = writer.write_once();
        assert!(writer.has_remaining_capacity());
        writer.put_bytes_mut(BytesMut::from(&b"hello"[..]));
        assert_eq!(writer.remaining_capacity(), 0);
        assert!(!writer.has_remaining_capacity());
    }
}

// ensures a reader that only reads capacity at the beginning can still write multiple chunks
#[test]
fn copy_into_multi_chunks() {
    let mut writer: Vec<u8> = vec![];
    {
        let mut writer = writer.write_once();

        assert!(writer.has_remaining_capacity());
        writer.put_slice(b"hello");
        assert!(!writer.has_remaining_capacity());
        writer.put_slice(b"world");
        assert!(!writer.has_remaining_capacity());
    }

    assert_eq!(&writer[..], b"helloworld");
}

// ---- further scenarios

/// A limit lets no more than its bytes through, whatever the source holds, and the source keeps the
/// rest.
#[test]
fn limit_caps_a_transfer() {
    let mut source = &b"hello world"[..];
    let mut writer: Vec<u8> = vec![];
    {
        let mut limit = writer.with_write_limit(4);
        source.copy_into(&mut limit).unwrap();
        assert_eq!(limit.remaining_capacity(), 0);
    }
    assert_eq!(&writer[..], b"hell");
    assert_eq!(source, b"o world");
}

/// A transfer moves a prefix: what arrived and what is left make up the source.
#[test]
fn transfer_moves_a_prefix() {
    for limit in 0..12 {
        let parts: [&[u8]; 4] = [b"ab", b"", b"cdefg", b"hij"];
        let mut reader = IoSlice::new(&parts);
        let mut writer: Vec<u8> = vec![];
        {
            let mut capped = writer.with_write_limit(limit);
            reader.copy_into(&mut capped).unwrap();
        }
        let mut rest: Vec<u8> = vec![];
        reader.infallible_copy_into(&mut rest);
        assert_eq!(writer, b"abcdefghij"[..limit.min(10)]);
        assert_eq!([writer, rest].concat(), b"abcdefghij");
    }
}

/// A partial copy plus its trailing chunk is a whole copy.
#[test]
fn partial_copy_then_write_is_a_copy() {
    let parts: [&[u8]; 3] = [b"one ", b"two ", b"three"];
    let mut reader = IoSlice::new(&parts);
    let mut writer: Vec<u8> = vec![];
    let chunk = reader.infallible_partial_copy_into(&mut writer);
    assert_eq!(chunk.as_slice(), b"three");
    writer.put_chunk(chunk);
    assert_eq!(&writer[..], b"one two three");
    assert!(reader.buffer_is_empty());
}

/// Nothing goes to a destination that asks for nothing.
#[test]
fn full_destination_takes_nothing() {
    let mut source = Bytes::from_static(b"abc");
    let mut slot: [u8; 0] = [];
    let mut writer = SliceWriter::new(&mut slot);
    assert!(!writer.has_remaining_capacity());
    source.copy_into(&mut writer).unwrap();
    assert_eq!(writer.filled_len(), 0);
    assert_eq!(&source[..], b"abc");
}

/// The write side's counter follows every kind of write.
#[test]
fn tracked_writer_counts_every_write() {
    let mut storage: Vec<u8> = vec![];
    let mut writer = storage.track_write();
    writer.put_slice(b"ab");
    writer.put_bytes(Bytes::from_static(b"cde"));
    writer.put_bytes_mut(BytesMut::from(&b"f"[..]));
    writer.put_chunk(Chunk::Slice(b"gh"));
    let committed: Result<Option<usize>, ()> = writer.put_uninit_slice(4, |slice| {
        slice.fill(b'z');
        Ok(2)
    });
    assert_eq!(committed, Ok(Some(2)));
    assert_eq!(writer.written_len(), 10);
    assert_eq!(&storage[..], b"abcdefghzz");
}

/// A closure that refuses leaves the destination as it was, and its error comes through.
#[test]
fn refused_fill_writes_nothing() {
    let mut storage: Vec<u8> = vec![1, 2];
    let result: Result<Option<usize>, &str> = storage.put_uninit_slice(3, |_| Err("no"));
    assert_eq!(result, Err("no"));
    assert_eq!(storage, [1, 2]);

    // A deque serves no slice at all.
    let mut chunks: VecDeque<Bytes> = VecDeque::new();
    let result: Result<Option<usize>, &str> = chunks.put_uninit_slice(3, |_| Ok(3));
    assert_eq!(result, Ok(None));
    assert!(chunks.is_empty());

    // Nor does a slice that is too short.
    let mut slot = [0u8; 2];
    let mut writer = SliceWriter::new(&mut slot);
    let result: Result<Option<usize>, &str> = writer.put_uninit_slice(3, |_| Ok(3));
    assert_eq!(result, Ok(None));
    assert_eq!(writer.remaining_capacity(), 2);
}

/// A deque adopts owned chunks as they are.
#[test]
fn deque_adopts_owned_chunks() {
    let chunk = Bytes::from(vec![7u8; 32]);
    let at = chunk.as_ptr();
    let mut chunks: VecDeque<Bytes> = VecDeque::new();
    chunks.put_bytes(chunk);
    chunks.put_slice(b"xy");
    assert_eq!(chunks.len(), 2);
    assert_eq!(chunks[0].as_ptr(), at);
    assert_eq!(&chunks[1][..], b"xy");
}

/// While an error is set every read fails with it; once it is cleared the source is intact.
#[test]
fn fallible_source_recovers() {
    let mut inner = Bytes::from_static(b"hello");
    let mut out: Vec<u8> = vec![];
    {
        let mut reader = Fallible::new(&mut inner).with_error("eof");
        assert_eq!(reader.copy_into(&mut out), Err("eof"));
        assert_eq!(reader.buffered_len(), 5);
        reader.set_error(None);
        assert_eq!(reader.copy_into(&mut out), Ok(()));
        assert!(reader.buffer_is_empty());
    }
    assert_eq!(&out[..], b"hello");
}

/// Every kind of error carries over and describes itself.
#[test]
fn error_texts() {
    let range: Error<u8> = Error::mapped(Error::OutOfRange);
    assert_eq!(range, Error::OutOfRange);
    let fin: Error<u8> = Error::mapped(Error::InvalidFin);
    assert_eq!(fin, Error::InvalidFin);
    assert_eq!(Error::<u8>::from(3), Error::ReaderError(3));
    assert_eq!(range.message(""), "write extends out of the maximum possible offset");
    assert_eq!(fin.message(""), "write modifies the final offset in a non-compliant manner");
    assert_eq!(
        Error::ReaderError(3u8).message("three"),
        "the provided reader failed with: three"
    );
}

/// Owned chunks and buffers are read without copying, in pieces of at most the watermark.
#[test]
fn owned_sources_hand_out_pieces() {
    let mut bytes = Bytes::from_static(b"abcdef");
    assert_eq!(bytes.infallible_read_chunk(4).as_slice(), b"abcd");
    assert_eq!(bytes.infallible_read_chunk(4).as_slice(), b"ef");
    assert!(bytes.infallible_read_chunk(4).is_empty());

    let mut buffer = BytesMut::from(&b"abc"[..]);
    assert_eq!(buffer.infallible_read_chunk(2).as_slice(), b"ab");
    assert_eq!(reader_len(&buffer), 1);
}

fn reader_len(buffer: &BytesMut) -> usize {
    etude::buffer::reader::Buffer::buffered_len(buffer)
}
