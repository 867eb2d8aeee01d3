//! A source that can be made to fail.

use vstd::prelude::*;

use crate::buffer::reader::gained;
use crate::buffer::reader::Buffer;
use crate::buffer::reader::Chunk;
use crate::buffer::reader::Infallible as _;
use crate::buffer::reader::Steady;
use crate::buffer::writer;
use crate::chunks::lemma_clipped_whole;

verus! {

/// Wraps a source that cannot fail so that its reads fail on demand.
///
/// While an error is armed, every read returns a clone of it and reads nothing. Without one, reads
/// pass through.
pub struct Fallible<'a, R, E> where R: Steady, E: 'static + Clone {
    /// Where the bytes come from.
    pub inner: &'a mut R,
    /// The error that reads fail with, if any.
    pub error: Option<E>,
}

impl<'a, R, E> Fallible<'a, R, E> where
    R: Steady,
    E: 'static + Clone,
 {
    /// Wraps `inner` with no error armed.
    pub fn new(inner: &'a mut R) -> (fallible: Self)
        ensures
            *fallible.inner == *old(inner),
            *final(fallible.inner) == *final(inner),
            fallible.error is None,
    {
        Fallible { inner, error: None }
    }

    /// Arms `error`.
    pub fn with_error(self, error: E) -> (fallible: Self)
        ensures
            fallible.inner == self.inner,
            fallible.error == Some(error),
    {
        let mut armed = self;
        armed.error = Some(error);
        armed
    }

    /// Arms or clears the error that subsequent reads return.
    pub fn set_error(&mut self, error: Option<E>)
        ensures
            final(self).error == error,
            final(self).inner == old(self).inner,
    {
        self.error = error;
    }

    /// A clone of the error, if one is armed.
    fn check_error(&self) -> (result: Result<(), E>)
        ensures
            match (result, self.error) {
                (Ok(_), None) => true,
                (Err(given), Some(armed)) => cloned::<E>(armed, given),
                _ => false,
            },
    {
        match &self.error {
            Some(error) => Err(error.clone()),
            None => Ok(()),
        }
    }
}

impl<'a, R, E> Buffer for Fallible<'a, R, E> where
    R: Steady,
    E: 'static + Clone,
 {
    type Error = E;

    open spec fn remaining(&self) -> Seq<u8> {
        self.inner.remaining()
    }

    open spec fn runs(&self) -> Seq<Seq<u8>> {
        self.inner.runs()
    }

    open spec fn hands_back(&self) -> bool {
        self.inner.hands_back()
    }

    proof fn lemma_runs(&self) {
        self.inner.lemma_runs();
    }

    open spec fn fails(&self) -> bool {
        self.error is Some
    }

    open spec fn origin(&self) -> nat {
        self.inner.origin()
    }

    fn buffered_len(&self) -> (len: usize) {
        self.inner.buffered_len()
    }

    fn buffer_is_empty(&self) -> (empty: bool) {
        self.inner.buffer_is_empty()
    }

    fn read_chunk(&mut self, watermark: usize) -> (result: Result<Chunk<'_>, E>)
        ensures
            result is Err <==> old(self).error is Some,
            result matches Err(error) ==> cloned::<E>(old(self).error->Some_0, error),
    {
        match self.check_error() {
            Ok(()) => Ok(self.inner.infallible_read_chunk(watermark)),
            Err(error) => {
                proof {
                    self.inner.lemma_runs();
                    lemma_clipped_whole(self.inner.runs());
                }
                Err(error)
            },
        }
    }

    fn partial_copy_into<Dest>(&mut self, dest: &mut Dest) -> (result: Result<Chunk<'_>, E>) where
        Dest: writer::Buffer,

        ensures
            result is Err <==> old(self).error is Some,
            result matches Err(error) ==> cloned::<E>(old(self).error->Some_0, error),
            result is Err ==> final(dest).written() == old(dest).written(),
    {
        match self.check_error() {
            Ok(()) => Ok(self.inner.infallible_partial_copy_into(dest)),
            Err(error) => {
                proof {
                    self.inner.lemma_runs();
                    lemma_clipped_whole(self.inner.runs());
                    assert(gained(dest.written(), dest.written()) =~= Seq::<u8>::empty());
                    assert(dest.written() + Seq::<u8>::empty() =~= dest.written());
                    assert(Seq::<u8>::empty() + Seq::<u8>::empty() + self.inner.remaining()
                        =~= self.inner.remaining());
                }
                Err(error)
            },
        }
    }
}

} // verus!
