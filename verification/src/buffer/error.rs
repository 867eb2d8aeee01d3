//! What a buffer operation can fail with.

use core::convert::Infallible;

use vstd::prelude::*;

verus! {

/// An error from a buffer operation. `E` is the error of the wrapped source.
#[derive(Debug, PartialEq, Eq, Clone, Copy)]
pub enum Error<E = Infallible> {
    /// A write extended past the buffer's maximum offset.
    OutOfRange,
    /// A final offset was set that conflicts with the buffer's current state.
    InvalidFin,
    /// The wrapped reader failed; carries its error.
    ReaderError(E),
}

impl<E> From<E> for Error<E> {
    fn from(reader: E) -> (error: Self)
        ensures
            error == Error::ReaderError(reader),
    {
        Error::ReaderError(reader)
    }
}

impl<E> vstd::std_specs::convert::FromSpecImpl<E> for Error<E> {
    open spec fn obeys_from_spec() -> bool {
        true
    }

    open spec fn from_spec(reader: E) -> Self {
        Error::ReaderError(reader)
    }
}

impl Error {
    /// Carries an error of an infallible source over to any other source.
    pub fn mapped<E>(error: Error) -> (mapped: Error<E>)
        requires
            error !is ReaderError,
        ensures
            error is OutOfRange ==> mapped is OutOfRange,
            error is InvalidFin ==> mapped is InvalidFin,
    {
        match error {
            Error::OutOfRange => Error::OutOfRange,
            Error::InvalidFin => Error::InvalidFin,
            Error::ReaderError(_) => vstd::pervasive::unreached(),
        }
    }
}

impl<E> Error<E> {
    /// The sentence that describes this error, where `reader` describes the error of the source.
    pub fn message(&self, reader: &str) -> (text: String)
        ensures
            text@ == match self {
                Error::OutOfRange => "write extends out of the maximum possible offset"@,
                Error::InvalidFin => "write modifies the final offset in a non-compliant manner"@,
                Error::ReaderError(_) => "the provided reader failed with: "@ + reader@,
            },
    {
        match self {
            Error::OutOfRange => String::from_str("write extends out of the maximum possible offset"),
            Error::InvalidFin => String::from_str(
                "write modifies the final offset in a non-compliant manner",
            ),
            Error::ReaderError(_) => {
                let mut text = String::from_str("the provided reader failed with: ");
                text.append(reader);
                text
            },
        }
    }
}

} // verus!
