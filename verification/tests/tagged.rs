//! Ropes whose bytes are charged to an owner.

use std::cell::Cell;
use std::rc::Rc;

use bytes::Bytes;
use etude::rope::tagged::{Charge, Unmetered};
use etude::rope::{ByteRope, ByteRopeError, ByteVec, Handle, Owner, Tagged};

/// An owner that keeps the number of bytes charged to it.
#[derive(Clone, Default)]
struct Tag {
    count: Rc<Cell<u64>>,
}

impl Tag {
    fn current(&self) -> u64 {
        self.count.get()
    }
}

struct Claim {
    count: Rc<Cell<u64>>,
    len: usize,
}

impl Owner for Tag {
    type Handle = Claim;

    fn tag(&self, len: usize) -> Claim {
        self.count.set(self.count.get() + len as u64);
        Claim {
            count: self.count.clone(),
            len,
        }
    }
}

impl Handle for Claim {
    fn charged(&self) -> usize {
        self.len
    }

    fn lemma_clone(&self, _copy: Self) {}

    fn increment(&mut self, len: usize) {
        self.count.set(self.count.get() + len as u64);
        self.len += len;
    }

    fn decrement(&mut self, len: usize) {
        self.count.set(self.count.get() - len as u64);
        self.len -= len;
    }
}

impl Clone for Claim {
    fn clone(&self) -> Self {
        self.count.set(self.count.get() + self.len as u64);
        Claim {
            count: self.count.clone(),
            len: self.len,
        }
    }
}

impl Drop for Claim {
    fn drop(&mut self) {
        self.count.set(self.count.get() - self.len as u64);
    }
}

#[test]
fn tagged_tag_test() {
    let tag_a = Tag::default();
    let tag_b = Tag::default();
    let chunk = ByteRope::from(b"hello!");
    let a: Tagged<Tag> = chunk.clone().tag(&tag_a);
    let b: Tagged<Tag> = chunk.tag(&tag_b);

    assert_eq!(tag_a.current(), 6);
    assert_eq!(tag_b.current(), 6);

    let a_clone = a.clone();

    assert_eq!(tag_a.current(), 12);

    drop(a_clone);

    assert_eq!(tag_a.current(), 6);

    drop(a);

    assert_eq!(tag_a.current(), 0);
    assert_eq!(tag_b.current(), 6);

    drop(b);

    assert_eq!(tag_a.current(), 0);
    assert_eq!(tag_b.current(), 0);
}

/// The same with the rope under its other name.
#[test]
fn tag_test() {
    let tag_a = Tag::default();
    let tag_b = Tag::default();
    let chunk = ByteVec::from(b"hello!");
    let a: Tagged<Tag> = chunk.clone().tag(&tag_a);
    let b: Tagged<Tag> = chunk.tag(&tag_b);

    assert_eq!(tag_a.current(), 6);
    assert_eq!(tag_b.current(), 6);

    let a_clone = a.clone();

    assert_eq!(tag_a.current(), 12);

    drop(a_clone);

    assert_eq!(tag_a.current(), 6);

    drop(a);

    assert_eq!(tag_a.current(), 0);
    assert_eq!(tag_b.current(), 6);

    drop(b);

    assert_eq!(tag_a.current(), 0);
    assert_eq!(tag_b.current(), 0);
}

/// Exercises the `Tagged` op surface (push_back/append/split_to/untag) and its budget tracking.
#[test]
fn tagged_ops_track_budget() {
    let tag_c = Tag::default();
    let mut t: Tagged<Tag> = ByteRope::from(b"abc").tag(&tag_c);
    assert_eq!(tag_c.current(), 3);
    assert_eq!(t.len(), 3);

    t.push_back(Bytes::from_static(b"de"));
    assert_eq!(tag_c.current(), 5);
    assert_eq!(t.len(), 5);

    let mut extra = ByteRope::from(b"fg");
    t.append(&mut extra);
    assert_eq!(tag_c.current(), 7);
    assert_eq!(t.len(), 7);

    let front = t.split_to(3).ok().expect("split within bounds");
    assert!(front == b"abc");
    assert_eq!(tag_c.current(), 4);
    assert_eq!(t.len(), 4);

    // `untag` yields the inner rope unchanged; the byte content is preserved end to end.
    let rope = t.untag();
    assert!(rope == b"defg");
    assert_eq!(tag_c.current(), 0);
}

/// A split past the end is refused and charges nothing.
#[test]
fn tagged_split_past_the_end() {
    let tag = Tag::default();
    let mut t = ByteRope::from(b"abc").tag(&tag);
    assert_eq!(t.split_to(4).err(), Some(ByteRopeError::OutOfBounds(4)));
    assert_eq!(tag.current(), 3);
}

/// Equality looks at the bytes only; an untagged clone is not charged.
#[test]
fn tagged_equality_and_untagged_clone() {
    let (one, two) = (Tag::default(), Tag::default());
    let a = ByteRope::from(b"xy").tag(&one);
    let mut halves = ByteRope::from(b"x");
    halves.push_back(Bytes::from_static(b"y"));
    let b = halves.tag(&two);
    assert!(a == b);
    let free = a.untag_clone();
    assert_eq!(one.current(), 2);
    assert!(free == b"xy");
    assert_eq!(a.byte_at(1), Some(b'y'));
}

/// The handle that only counts.
#[test]
fn charge_counts() {
    let mut t: Tagged<Unmetered> = Tagged::default();
    assert_eq!(t.len(), 0);
    t.push_back(Bytes::from_static(b"abc"));
    let copy = t.clone();
    assert!(copy == t);
    let mut charge = Charge { len: 4 };
    charge.increment(3);
    charge.decrement(5);
    assert_eq!(charge.clone().len, 2);
}
