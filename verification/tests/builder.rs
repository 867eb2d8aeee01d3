//! Building ropes out of many writes.

use std::cell::Cell;
use std::rc::Rc;

use bytes::{Bytes, BytesMut};
use etude::buffer::reader::{Buffer as _, BufferExt as _};
use etude::buffer::writer::Buffer as _;
use etude::rope::builder::room_within;
use etude::rope::{Behavior, Builder, ByteVec, ByteVecError};

#[test]
fn inline_threshold_zero_references_everything() {
    // the default threshold of 0 holds every chunk by reference
    let mut b = ByteVec::builder(1024);
    assert_eq!(b.inline_threshold(), 0);
    b.put_bytes(Bytes::from_static(b"ab"));
    b.put_bytes(Bytes::from_static(b"cd"));
    let out = b.finish();
    assert!(out == b"abcd");
    assert_eq!(out.chunks().len(), 2);
}

#[test]
fn inline_threshold_compacts_small_chunks() {
    // small chunks (<= threshold) are copied into the contiguous head buffer
    let mut b = ByteVec::builder(1024).with_inline_threshold(16);
    b.put_bytes(Bytes::from_static(b"ab"));
    b.put_bytes(Bytes::from_static(b"cd"));
    let out = b.finish();
    assert!(out == b"abcd");
    assert_eq!(out.chunks().len(), 1);
}

#[test]
fn inline_threshold_still_references_large_chunks() {
    let big = Bytes::from(vec![7u8; 64]);
    let mut b = ByteVec::builder(1024).with_inline_threshold(16);
    b.put_bytes(Bytes::from_static(b"ab")); // <= 16 -> copied into head
    b.put_bytes(big); // > 16 -> flushes head, held by reference
    let out = b.finish();
    assert_eq!(out.len(), 2 + 64);
    assert_eq!(out.chunks().len(), 2);
}

#[test]
fn write_with_len_prefix_frames_the_payload() {
    let mut b = ByteVec::builder(1024);
    b.put_slice(b"before");
    b.write_with_len_prefix(|w| {
        w.put_slice(b"payload");
    });
    b.put_slice(b"after");

    let out = b.finish();
    // "before" ++ (u64 be = 7) ++ "payload" ++ "after"
    let mut expected = Vec::new();
    expected.extend_from_slice(b"before");
    expected.extend_from_slice(&7u64.to_be_bytes());
    expected.extend_from_slice(b"payload");
    expected.extend_from_slice(b"after");
    assert_eq!(&out.copy_to_bytes()[..], &expected[..]);
}

#[test]
fn split_to_across_head_and_chunks() {
    let mut b = ByteVec::builder(1024);
    b.put_bytes(Bytes::from_static(b"abcd")); // held as a chunk (threshold 0)
    b.put_slice(b"efgh"); // buffered in head
    assert_eq!(b.len(), 8);

    let front = b.split_to(6).ok().expect("within bounds");
    assert!(front == b"abcdef");
    assert!(b.finish() == b"gh");
}

#[test]
fn from_rope_roundtrips_through_builder() {
    let rope = ByteVec::from(b"seed");
    let mut b = Builder::from(rope);
    b.put_slice(b"-tail");
    let out: ByteVec = b.finish();
    assert!(out == b"seed-tail");
}

/// A callback that reports more bytes than the slice it was given has must not get more than the
/// slice committed.
#[test]
fn for_socket_read_never_commits_more_than_the_provided_slice() {
    let mut b = ByteVec::builder(1024);
    b.for_socket_read(8, |slice| {
        slice[0..3].copy_from_slice(b"abc");
        100 // a buggy callback claims more than the 8-byte slice it was given
    });
    assert!(
        b.len() <= 8,
        "committed {} bytes for an 8-byte read slice (uninitialized memory exposed)",
        b.len()
    );
    assert!(b.finish() == b"abc\0\0\0\0\0");
}

#[test]
fn out_of_bounds_split_to_errors() {
    let mut b = ByteVec::builder(1024);
    b.put_slice(b"abc");
    assert_eq!(b.split_to(4).err(), Some(ByteVecError::OutOfBounds(4)));
}

/// Counts how often it turns a buffer into a chunk.
struct CountingBehavior {
    calls: Rc<Cell<usize>>,
}

impl Behavior for CountingBehavior {
    fn freeze(&self, buf: BytesMut) -> Bytes {
        self.calls.set(self.calls.get() + 1);
        buf.freeze()
    }
}

#[test]
fn default_behavior_freeze_is_bytes_mut_freeze() {
    // A builder with the default behavior still produces correct content.
    let mut b = ByteVec::builder(1024);
    b.put_slice(b"plain");
    assert!(b.finish() == b"plain");
}

#[test]
fn custom_behavior_freeze_runs_at_every_chunk_boundary() {
    let calls = Rc::new(Cell::new(0));

    // Small capacity so a second head write overflows and flushes the first.
    let mut b = ByteVec::builder(4).with_behavior(CountingBehavior {
        calls: calls.clone(),
    });

    b.put_slice(b"abcd"); // fills the 4-byte head
    b.put_slice(b"ef"); // overflow -> flush_and_reserve freezes "abcd"           (call 1)
    let front = b.split_to(5).ok().unwrap(); // freezes head prefix "e" to reach index 5 (call 2)
    assert!(front == b"abcde");
    b.put_bytes_mut(BytesMut::from(&b"XY"[..])); // flush freezes head "f" (call 3), then
    //                                              freezes the "XY" BytesMut chunk        (call 4)
    b.put_slice(b"gh"); // buffered in the (now empty) head
    let out = b.finish(); // finish freezes the trailing head "gh"                (call 5)
    assert!(out == b"fXYgh");

    assert_eq!(
        calls.get(),
        5,
        "the freeze behavior must run for every BytesMut the builder turns into a chunk"
    );
}

/// A chunk owner that wipes its buffer when the last chunk over it drops.
struct TrackedZeroize {
    buf: BytesMut,
    dropped: std::sync::Arc<std::sync::atomic::AtomicUsize>,
}

impl AsRef<[u8]> for TrackedZeroize {
    fn as_ref(&self) -> &[u8] {
        &self.buf
    }
}

impl Drop for TrackedZeroize {
    fn drop(&mut self) {
        self.buf.fill(0);
        self.dropped
            .fetch_add(1, std::sync::atomic::Ordering::SeqCst);
    }
}

struct Zeroizing {
    dropped: std::sync::Arc<std::sync::atomic::AtomicUsize>,
}

impl Behavior for Zeroizing {
    fn freeze(&self, buf: BytesMut) -> Bytes {
        Bytes::from_owner(TrackedZeroize {
            buf,
            dropped: self.dropped.clone(),
        })
    }
}

#[test]
fn from_owner_behavior_preserves_content_and_drops_owner() {
    let dropped = std::sync::Arc::new(std::sync::atomic::AtomicUsize::new(0));
    let count = || dropped.load(std::sync::atomic::Ordering::SeqCst);

    let secret = {
        let mut b = ByteVec::builder(1024).with_behavior(Zeroizing {
            dropped: dropped.clone(),
        });
        b.put_slice(b"secret-key");
        let out = b.finish();
        // Content is identical to a plain freeze — the owner is transparent to readers.
        assert!(out == b"secret-key");
        assert_eq!(count(), 0, "owner still alive while held");
        out
    };
    // The chunk still holds the owner alive here.
    assert!(secret == b"secret-key");
    assert_eq!(count(), 0);

    drop(secret);
    // Dropping the last reference runs the zeroize-on-drop owner exactly once.
    assert_eq!(
        count(),
        1,
        "the zeroize-on-drop owner must run when the last chunk drops"
    );
}

#[test]
fn from_behavior_takes_capacity_and_threshold_from_the_behavior() {
    // A behavior can define every builder knob; `from_behavior` adopts capacity + threshold.
    struct BigInline;
    impl Behavior for BigInline {
        fn default_capacity(&self) -> usize {
            4096
        }
        fn inline_threshold(&self) -> usize {
            8
        }
    }

    let mut b = Builder::from_behavior(BigInline);
    // The inline threshold came from the behavior.
    assert_eq!(b.inline_threshold(), 8);
    // Chunks <= 8 bytes are copied into the single head buffer rather than referenced.
    b.put_bytes(Bytes::from_static(b"ab"));
    b.put_bytes(Bytes::from_static(b"cd"));
    let out = b.finish();
    assert!(out == b"abcd");
    assert_eq!(out.chunks().len(), 1);
}

// ---- further scenarios

/// A framed write can be read back: eight bytes of length, then the payload.
#[test]
fn frame_reads_back() {
    for len in [0usize, 1, 255, 256, 300, 70_000] {
        let mut b = ByteVec::builder(64);
        let payload: Vec<u8> = (0..len).map(|i| i as u8).collect();
        b.write_with_len_prefix(|w| w.put_slice(&payload));
        let mut rope = b.finish();
        let head = rope.split_to_copy(8).unwrap();
        let mut prefix = [0u8; 8];
        prefix.copy_from_slice(&head);
        assert_eq!(u64::from_be_bytes(prefix), len as u64);
        assert!(rope == payload);
    }
}

/// Empty writes leave no trace.
#[test]
fn empty_writes_are_ignored() {
    let mut b = ByteVec::builder(8);
    b.put_slice(b"");
    b.put_bytes(Bytes::new());
    b.put_bytes_mut(BytesMut::new());
    b.append(&mut ByteVec::new());
    b.extend(&ByteVec::new());
    assert!(b.is_empty());
    assert_eq!(b.finish().chunks().len(), 0);
}

/// `append` drains its argument, `extend` leaves it.
#[test]
fn append_drains_and_extend_leaves() {
    let mut b = ByteVec::builder(8);
    b.put_slice(b"a");
    let mut first = ByteVec::from(b"bc");
    b.append(&mut first);
    assert!(first.is_empty());
    let second = ByteVec::from(b"de");
    b.extend(&second);
    assert!(second == b"de");
    b.put_slice(b"f");
    let out = b.split();
    assert!(out == b"abcdef");
    assert_eq!(out.chunks().len(), 4);
    assert!(b.is_empty());
}

/// A builder can be read: finished chunks first, then what is pending.
#[test]
fn builder_is_a_source() {
    let mut b = ByteVec::builder(64);
    b.put_bytes(Bytes::from_static(b"chunk"));
    b.put_slice(b"head");
    let mut out: Vec<u8> = vec![];
    assert_eq!(b.buffered_len(), 9);
    b.copy_into(&mut out).unwrap();
    assert_eq!(&out[..], b"chunkhead");
    assert!(b.buffer_is_empty());
}

/// A filled slice is committed up to the reported length; a refusal commits nothing.
#[test]
fn builder_exposes_a_slice() {
    let mut b = ByteVec::builder(4);
    b.put_slice(b"abc");
    let done: Result<Option<usize>, ()> = b.put_uninit_slice(10, |slice| {
        slice[..2].copy_from_slice(b"de");
        Ok(2)
    });
    assert_eq!(done, Ok(Some(2)));
    let refused: Result<Option<usize>, &str> = b.put_uninit_slice(10, |_| Err("no"));
    assert_eq!(refused, Err("no"));
    assert!(b.finish() == b"abcde");
}

/// The defaults: 128 KiB and no copying.
#[test]
fn builder_defaults() {
    let b = Builder::default();
    assert_eq!(b.inline_threshold(), 0);
    assert_eq!(etude::rope::builder::DEFAULT_CAPACITY, 1 << 17);
    assert!(b.is_empty());
}

#[test]
fn room_is_what_the_capacity_leaves() {
    let most = isize::MAX as usize;
    assert_eq!(room_within(64, 0), 64);
    assert_eq!(room_within(64, 10), 54);
    assert_eq!(room_within(64, 64), 0);
    // no buffer grows beyond what one allocation can have
    assert_eq!(room_within(usize::MAX, 10), most - 10);
    assert_eq!(room_within(usize::MAX, most), 0);
    assert_eq!(room_within(usize::MAX, usize::MAX), 0);
}
