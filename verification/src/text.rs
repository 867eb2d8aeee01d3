//! Text sinks: where rendered numbers are written.
use vstd::prelude::*;
use vstd::string::{StringExecFns, StringSliceAdditionalSpecFns};
use vstd::utf8::valid_utf8;

verus! {

/// A sink refused the text it was handed.
#[derive(Clone, Copy, PartialEq, Eq, Structural, Debug)]
pub struct SinkError;

/// What writing `s` to a sink does to its text: all of `s` is appended on success, and some prefix of
/// it on failure.
pub open spec fn wrote(before: Seq<char>, after: Seq<char>, s: Seq<char>, ok: bool) -> bool {
    if ok {
        after == before + s
    } else {
        before.is_prefix_of(after) && after.is_prefix_of(before + s)
    }
}

/// How often a sink refused to take text while `ok` came about: never, or once and then nothing more
/// was written to it.
pub open spec fn answered(before: nat, after: nat, refused: bool, ok: bool) -> bool {
    if ok {
        after == before
    } else {
        after == before + 1 && refused
    }
}

/// A destination for text that may refuse what it is handed.
pub trait TextSink {
    /// The text taken so far.
    spec fn text(&self) -> Seq<char>;

    /// Whether this sink takes everything.
    spec fn never_full(&self) -> bool;

    /// How many writes were refused so far.
    spec fn refusals(&self) -> nat;

    /// Whether the last write was refused.
    spec fn refused(&self) -> bool;

    /// Append `s`.
    fn write_str(&mut self, s: &str) -> (r: Result<(), SinkError>)
        ensures
            wrote(old(self).text(), final(self).text(), s@, r is Ok),
            old(self).never_full() ==> r is Ok && final(self).never_full(),
            final(self).refused() == (r is Err),
            answered(old(self).refusals(), final(self).refusals(), final(self).refused(), r is Ok),
    ;
}

impl TextSink for String {
    open spec fn text(&self) -> Seq<char> {
        self@
    }

    open spec fn never_full(&self) -> bool {
        true
    }

    open spec fn refusals(&self) -> nat {
        0
    }

    open spec fn refused(&self) -> bool {
        false
    }

    fn write_str(&mut self, s: &str) -> (r: Result<(), SinkError>) {
        self.append(s);
        Ok(())
    }
}

/// What a write leaves behind: on success the text that was there and all of the new text, on failure
/// the text that was there and the first `k` characters of the new text for some `k`.
pub proof fn law_wrote(before: Seq<char>, after: Seq<char>, s: Seq<char>)
    ensures
        wrote(before, after, s, true) <==> after == before + s,
        wrote(before, after, s, false) <==> exists|k: int|
            0 <= k <= s.len() && after == before + #[trigger] s.take(k),
{
    if wrote(before, after, s, false) {
        let k = after.len() - before.len();
        assert(after =~= before + s.take(k)) by {
            assert forall|i: int| 0 <= i < after.len() implies after[i] == (before + s.take(k))[i] by {
                assert(after[i] == (before + s).subrange(0, after.len() as int)[i]);
            }
        }
    }
    if exists|k: int| 0 <= k <= s.len() && after == before + #[trigger] s.take(k) {
        let k = choose|k: int| 0 <= k <= s.len() && after == before + #[trigger] s.take(k);
        assert(before =~= after.subrange(0, before.len() as int));
        assert(after =~= (before + s).subrange(0, after.len() as int));
    }
}

/// How a sink is asked: where all went well it refused nothing, and otherwise it refused once, with
/// the last write.
pub proof fn law_answered(before: nat, after: nat, refused: bool)
    ensures
        answered(before, after, refused, true) <==> after == before,
        answered(before, after, refused, false) <==> after == before + 1 && refused,
{
}

/// A string takes all text at its back, and never refuses any.
pub proof fn law_string_takes_all(sink: &String)
    ensures
        sink.text() == sink@,
        sink.never_full(),
        sink.refusals() == 0,
        !sink.refused(),
{
}

/// Two writes in a row are one write of both texts.
pub proof fn lemma_wrote_then(
    a: Seq<char>,
    b: Seq<char>,
    c: Seq<char>,
    s: Seq<char>,
    t: Seq<char>,
    ok: bool,
)
    requires
        wrote(a, b, s, true),
        wrote(b, c, t, ok),
    ensures
        wrote(a, c, s + t, ok),
{
    assert(a + s + t =~= a + (s + t));
    if !ok {
        assert(a =~= c.subrange(0, a.len() as int)) by {
            assert(b =~= c.subrange(0, b.len() as int));
            assert forall|i: int| 0 <= i < a.len() implies a[i] == c[i] by {
                assert(a[i] == b[i]);
                assert(b[i] == c.subrange(0, b.len() as int)[i]);
            }
        }
    }
}

/// A write that failed is also a failed write of anything that starts with its text.
pub proof fn lemma_wrote_failed(
    a: Seq<char>,
    b: Seq<char>,
    s: Seq<char>,
    t: Seq<char>,
)
    requires
        wrote(a, b, s, false),
    ensures
        wrote(a, b, s + t, false),
{
    assert(a + (s + t) =~= a + s + t);
    assert(b =~= (a + (s + t)).subrange(0, b.len() as int)) by {
        assert(b =~= (a + s).subrange(0, b.len() as int));
        assert forall|i: int| 0 <= i < b.len() implies b[i] == (a + (s + t))[i] by {
            assert(b[i] == (a + s).subrange(0, b.len() as int)[i]);
        }
    }
}

/// Reads bytes as text with `core::str::from_utf8`: the text is returned exactly when the bytes are
/// valid UTF-8, and encodes back to them.
#[verifier::external_body]
pub(crate) fn utf8_str(bytes: &[u8]) -> (r: Option<&str>)
    ensures
        r is Some <==> valid_utf8(bytes@),
        r matches Some(s) ==> s.spec_bytes() == bytes@,
{
    core::str::from_utf8(bytes).ok()
}

/// `String::into_bytes`: the UTF-8 encoding of a text.
pub assume_specification[ String::into_bytes ](text: String) -> (bytes: Vec<u8>)
    ensures
        bytes@ == vstd::utf8::encode_utf8(text@),
;

/// The text of ASCII bytes.
pub fn ascii_str<'a>(bytes: &'a [u8]) -> (s: &'a str)
    requires
        forall|i: int| 0 <= i < bytes@.len() ==> bytes@[i] < 128,
    ensures
        s@ == Seq::new(bytes@.len(), |i: int| bytes@[i] as char),
{
    let ghost chars = Seq::new(bytes@.len(), |i: int| bytes@[i] as char);
    proof {
        assert(vstd::utf8::is_ascii_chars(chars));
        vstd::utf8::is_ascii_chars_encode_utf8(chars);
        assert(vstd::utf8::encode_utf8(chars) =~= bytes@);
        vstd::utf8::encode_utf8_valid_utf8(chars);
        vstd::utf8::encode_utf8_decode_utf8(chars);
    }
    match utf8_str(bytes) {
        Some(s) => {
            proof {
                vstd::utf8::encode_utf8_decode_utf8(s@);
            }
            s
        },
        None => "",
    }
}

} // verus!
