//! Ropes whose length is charged to an owner.

use bytes::Bytes;

use vstd::prelude::*;
use vstd::std_specs::cmp::PartialEqSpecImpl;
use vstd::std_specs::convert::FromSpecImpl;

use crate::chunks::clipped;
use crate::rope::byte_rope::ByteRope;
use crate::rope::error::ByteRopeError;
use crate::shared::contents;

verus! {

/// A claim on some bytes of an [`Owner`]. A clone charges the same bytes again, and a drop releases
/// them.
pub trait Handle: Clone + Sized {
    /// How many bytes are charged through this handle.
    spec fn charged(&self) -> usize;

    /// Charges `len` more bytes.
    fn increment(&mut self, len: usize)
        requires
            old(self).charged() + len <= usize::MAX,
        ensures
            final(self).charged() == old(self).charged() + len,
    ;

    /// Releases `len` bytes.
    fn decrement(&mut self, len: usize)
        requires
            len <= old(self).charged(),
        ensures
            final(self).charged() == old(self).charged() - len,
    ;

    /// A clone stands for as many bytes as the handle that it was made from.
    proof fn lemma_clone(&self, copy: Self)
        requires
            call_ensures(Self::clone, (self,), copy),
        ensures
            copy.charged() == self.charged(),
    ;
}

/// Whoever bytes are charged to.
pub trait Owner {
    /// What an owner hands out for each rope.
    type Handle: Handle;

    /// Charges `len` bytes and returns the claim on them.
    fn tag(&self, len: usize) -> (handle: Self::Handle)
        ensures
            handle.charged() == len,
    ;
}

/// A handle that only remembers how many bytes it stands for.
pub struct Charge {
    /// The number of bytes.
    pub len: usize,
}

impl Clone for Charge {
    fn clone(&self) -> (copy: Self)
        ensures
            copy.len == self.len,
    {
        Charge { len: self.len }
    }
}

impl Handle for Charge {
    open spec fn charged(&self) -> usize {
        self.len
    }

    fn increment(&mut self, len: usize) {
        self.len = self.len + len;
    }

    fn decrement(&mut self, len: usize) {
        self.len = self.len - len;
    }

    proof fn lemma_clone(&self, copy: Self) {
    }
}

/// An owner whose handles are all that is known of its bytes.
#[derive(Debug, Clone, Copy)]
pub struct Unmetered;

impl Default for Unmetered {
    fn default() -> (owner: Self) {
        Unmetered
    }
}

impl Owner for Unmetered {
    type Handle = Charge;

    fn tag(&self, len: usize) -> (handle: Charge) {
        Charge { len }
    }
}

/// A rope whose length is charged to an owner.
pub struct Tagged<O: Owner> {
    bytes: ByteRope,
    tag: O::Handle,
}

impl<O: Owner> View for Tagged<O> {
    type V = Seq<u8>;

    /// The bytes of the rope, in order.
    open spec fn view(&self) -> Seq<u8> {
        self.rope()@
    }
}

impl<O: Owner> Tagged<O> {
    /// The rope.
    pub closed spec fn rope(&self) -> ByteRope {
        self.bytes
    }

    /// The owner's claim on the bytes of this rope.
    pub closed spec fn handle(&self) -> O::Handle {
        self.tag
    }

    /// How many bytes are charged for this rope.
    pub open spec fn charged(&self) -> usize {
        self.handle().charged()
    }

    /// The owner is charged for exactly the bytes of the rope.
    pub open spec fn in_step(&self) -> bool {
        self.charged() == self@.len()
    }

    /// Charges the bytes of a rope to `owner`.
    pub fn new(bytes: ByteRope, owner: &O) -> (tagged: Self)
        ensures
            tagged.rope() == bytes,
            call_ensures(O::tag, (owner, bytes@.len() as usize), tagged.handle()),
            tagged.in_step(),
    {
        let len: usize = bytes.len();
        let tag = owner.tag(len);
        Tagged { bytes, tag }
    }

    /// Appends a chunk and charges its bytes.
    pub fn push_back(&mut self, bytes: Bytes)
        requires
            old(self).in_step(),
            old(self)@.len() + contents(bytes).len() <= usize::MAX,
        ensures
            final(self)@ == old(self)@ + contents(bytes),
            final(self).rope().chunk_list() == if contents(bytes).len() == 0 {
                old(self).rope().chunk_list()
            } else {
                old(self).rope().chunk_list().push(contents(bytes))
            },
            exists|tag: &mut O::Handle|
                {
                    &&& *tag == old(self).handle()
                    &&& *final(tag) == final(self).handle()
                    &&& #[trigger] call_ensures(
                        <O::Handle as Handle>::increment,
                        (tag, contents(bytes).len() as usize),
                        (),
                    )
                },
            final(self).in_step(),
    {
        let len: usize = bytes.len();
        assert(len == contents(bytes).len() as usize);
        self.tag.increment(len);
        self.bytes.push_back(bytes);
    }

    /// Moves the chunks of `other` to the back and charges their bytes.
    pub fn append(&mut self, other: &mut ByteRope)
        requires
            old(self).in_step(),
            old(self)@.len() + old(other)@.len() <= usize::MAX,
        ensures
            final(self)@ == old(self)@ + old(other)@,
            final(self).rope().chunk_list() == old(self).rope().chunk_list()
                + old(other).chunk_list(),
            final(other)@ == Seq::<u8>::empty(),
            exists|tag: &mut O::Handle|
                {
                    &&& *tag == old(self).handle()
                    &&& *final(tag) == final(self).handle()
                    &&& #[trigger] call_ensures(
                        <O::Handle as Handle>::increment,
                        (tag, old(other)@.len() as usize),
                        (),
                    )
                },
            final(self).in_step(),
    {
        let len: usize = other.len();
        assert(len == old(other)@.len() as usize);
        self.tag.increment(len);
        self.bytes.append(other);
    }

    /// Splits off the first `at` bytes and releases them.
    pub fn split_to(&mut self, at: usize) -> (result: Result<ByteRope, ByteRopeError>)
        requires
            old(self).in_step(),
        ensures
            match result {
                Ok(front) => {
                    &&& at <= old(self)@.len()
                    &&& front@ == old(self)@.take(at as int)
                    &&& final(self)@ == old(self)@.skip(at as int)
                    &&& front.chunk_list() == clipped(old(self).rope().chunk_list(), 0, at as int)
                    &&& final(self).rope().chunk_list() == clipped(
                        old(self).rope().chunk_list(),
                        at as int,
                        old(self)@.len() as int,
                    )
                    &&& exists|tag: &mut O::Handle|
                        {
                            &&& *tag == old(self).handle()
                            &&& *final(tag) == final(self).handle()
                            &&& #[trigger] call_ensures(
                                <O::Handle as Handle>::decrement,
                                (tag, at),
                                (),
                            )
                        }
                },
                Err(error) => {
                    &&& at > old(self)@.len()
                    &&& error == ByteRopeError::OutOfBounds(at)
                    &&& *final(self) == *old(self)
                },
            },
            final(self).in_step(),
    {
        match self.bytes.split_to(at) {
            Ok(front) => {
                self.tag.decrement(front.len());
                Ok(front)
            },
            Err(error) => Err(error),
        }
    }

    /// The rope, whose bytes are no longer charged.
    pub fn untag(self) -> (rope: ByteRope)
        ensures
            rope == self.rope(),
    {
        self.bytes
    }

    /// Another rope over the same chunks, which is not charged.
    pub fn untag_clone(&self) -> (rope: ByteRope)
        ensures
            rope@ == self@,
            rope.chunk_list() == self.rope().chunk_list(),
    {
        self.bytes.clone()
    }

    /// The number of bytes.
    pub fn len(&self) -> (len: usize)
        ensures
            len == self@.len(),
    {
        self.bytes.len()
    }
}

impl ByteRope {
    /// Charges the bytes of this rope to `owner`.
    pub fn tag<O: Owner>(self, owner: &O) -> (tagged: Tagged<O>)
        ensures
            tagged.rope() == self,
            call_ensures(O::tag, (owner, self@.len() as usize), tagged.handle()),
            tagged.in_step(),
    {
        Tagged::new(self, owner)
    }
}

impl<O: Owner> Clone for Tagged<O> {
    /// Another rope over the same chunks, charged once more.
    fn clone(&self) -> (copy: Self)
        ensures
            copy@ == self@,
            copy.rope().chunk_list() == self.rope().chunk_list(),
            cloned::<O::Handle>(self.handle(), copy.handle()),
            copy.charged() == self.charged(),
            self.in_step() ==> copy.in_step(),
    {
        let bytes = self.bytes.clone();
        let tag = self.tag.clone();
        proof {
            self.tag.lemma_clone(tag);
        }
        Tagged { bytes, tag }
    }
}

impl<O: Default + Owner> Default for Tagged<O> {
    /// An empty rope of a default owner.
    fn default() -> (tagged: Self)
        ensures
            tagged@ == Seq::<u8>::empty(),
            exists|owner: O|
                {
                    &&& call_ensures(O::default, (), owner)
                    &&& #[trigger] call_ensures(O::tag, (&owner, 0usize), tagged.handle())
                },
            tagged.in_step(),
    {
        let owner: O = Default::default();
        Tagged::new(ByteRope::new(), &owner)
    }
}

impl<O: Owner> PartialEq for Tagged<O> {
    fn eq(&self, other: &Self) -> (same: bool)
        ensures
            same == (self@ == other@),
    {
        self.bytes == other.bytes
    }
}

impl<O: Owner> PartialEqSpecImpl for Tagged<O> {
    open spec fn obeys_eq_spec() -> bool {
        true
    }

    open spec fn eq_spec(&self, other: &Self) -> bool {
        self@ == other@
    }
}

impl<O: Owner> Eq for Tagged<O> {

}

impl<O: Default + Owner> From<ByteRope> for Tagged<O> {
    fn from(rope: ByteRope) -> (tagged: Self)
        ensures
            tagged.rope() == rope,
            exists|owner: O|
                {
                    &&& call_ensures(O::default, (), owner)
                    &&& #[trigger] call_ensures(
                        O::tag,
                        (&owner, rope@.len() as usize),
                        tagged.handle(),
                    )
                },
            tagged.in_step(),
    {
        let owner: O = Default::default();
        Tagged::new(rope, &owner)
    }
}

impl<O: Default + Owner> FromSpecImpl<ByteRope> for Tagged<O> {
    open spec fn obeys_from_spec() -> bool {
        false
    }

    open spec fn from_spec(rope: ByteRope) -> Self {
        vstd::pervasive::arbitrary()
    }
}

impl<O: Owner> From<Tagged<O>> for ByteRope {
    fn from(tagged: Tagged<O>) -> (rope: Self)
        ensures
            rope == tagged.rope(),
    {
        tagged.bytes
    }
}

impl<O: Owner> FromSpecImpl<Tagged<O>> for ByteRope {
    open spec fn obeys_from_spec() -> bool {
        true
    }

    open spec fn from_spec(tagged: Tagged<O>) -> Self {
        tagged.rope()
    }
}

impl<O: Owner> core::ops::Deref for Tagged<O> {
    type Target = ByteRope;

    fn deref(&self) -> (rope: &ByteRope)
        ensures
            *rope == self.rope(),
    {
        &self.bytes
    }
}

} // verus!
