//! What an operation on a byte offset can fail with.

use vstd::prelude::*;
use vstd::string::StringExecFns;

use crate::digits::decimal_digits;
use crate::text::ascii_str;

verus! {

/// An offset or a range that does not lie within a rope.
#[derive(Debug, Clone, Copy, PartialEq, Eq, Structural)]
pub enum ByteRopeError {
    /// An index was past the end of the rope.
    OutOfBounds(usize),
    /// A `start..end` range was past the end of the rope.
    OutOfBoundsRange(usize, usize),
}

/// [`ByteRopeError`] under the name that goes with [`ByteVec`](crate::rope::ByteVec).
pub type ByteVecError = ByteRopeError;

/// The decimal digits of a number, as ASCII bytes.
fn digit_bytes(number: usize) -> (text: Vec<u8>)
    ensures
        text@.len() == decimal_digits(number as nat).len(),
        forall|i: int|
            0 <= i < text@.len() ==> (#[trigger] text@[i]) < 128 && text@[i] as char
                == decimal_digits(number as nat)[i],
    decreases number,
{
    let mut text: Vec<u8> = if number < 10 {
        Vec::new()
    } else {
        digit_bytes(number / 10)
    };
    let ghost front = text@;
    let digit: u8 = (number % 10) as u8 + 48;
    text.push(digit);
    proof {
        let digits = decimal_digits(number as nat);
        assert forall|i: int| 0 <= i < text@.len() implies (#[trigger] text@[i]) < 128
            && text@[i] as char == digits[i] by {
            if i < front.len() {
                assert(front[i] as char == decimal_digits((number / 10) as nat)[i]);
            }
        }
    }
    text
}

/// Appends the decimal digits of a number to a text.
fn append_number(text: &mut String, number: usize)
    ensures
        final(text)@ == old(text)@ + decimal_digits(number as nat),
{
    let bytes = digit_bytes(number);
    let digits: &str = ascii_str(bytes.as_slice());
    assert(digits@ =~= decimal_digits(number as nat));
    text.append(digits);
}

impl ByteRopeError {
    /// The sentence that describes this error.
    pub fn message(&self) -> (text: String)
        ensures
            text@ == match self {
                ByteRopeError::OutOfBounds(at) => "index out of bounds: "@ + decimal_digits(
                    *at as nat,
                ),
                ByteRopeError::OutOfBoundsRange(start, end) => "range out of bounds: "@
                    + decimal_digits(*start as nat) + ".."@ + decimal_digits(*end as nat),
            },
    {
        match self {
            ByteRopeError::OutOfBounds(at) => {
                let mut text = String::from_str("index out of bounds: ");
                append_number(&mut text, *at);
                text
            },
            ByteRopeError::OutOfBoundsRange(start, end) => {
                let mut text = String::from_str("range out of bounds: ");
                append_number(&mut text, *start);
                text.append("..");
                append_number(&mut text, *end);
                text
            },
        }
    }
}

} // verus!
