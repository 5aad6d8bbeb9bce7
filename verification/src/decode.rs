//! The character decoder: from raw bytes to URI characters.

use crate::char_buf::{is_hex, spec_is_hex, Char, PERCENT};
use crate::text::text_of;
use vstd::prelude::*;

verus! {

/// Why a `%` could not be read as a percent-encoded triple.
#[derive(Clone, Copy, Debug, PartialEq, Eq, Structural)]
pub enum EscapeError {
    /// The input ended before both digits had been read.
    TruncatedEscape,
    /// One of the two bytes after the `%` is no hexadecimal digit.
    InvalidEscape,
}

impl EscapeError {
    /// The error in words.
    pub fn to_string(&self) -> (text: String)
        ensures
            text@ == match *self {
                EscapeError::TruncatedEscape => "Unexpected end of escape sequence."@,
                EscapeError::InvalidEscape => "Invalid escape sequence."@,
            },
    {
        match self {
            EscapeError::TruncatedEscape => "Unexpected end of escape sequence.".to_owned(),
            EscapeError::InvalidEscape => "Invalid escape sequence.".to_owned(),
        }
    }
}

/// What one step of decoding delivers: a character, or the reason why the
/// bytes at that place are no character.
pub type Item = Result<Char, EscapeError>;

/// The first item that `bytes` decodes to, and the number of bytes that it
/// takes up. A byte other than `%` is a literal. A `%` takes the next two
/// bytes with it, as far as they are there and hexadecimal; the first one
/// that is missing or no digit ends the item as an error, and a byte that
/// is no digit is used up with it.
pub open spec fn decode_first(bytes: Seq<u8>) -> (Item, nat)
    recommends
        bytes.len() > 0,
{
    if bytes[0] != PERCENT {
        (Ok(Char::Ascii(bytes[0])), 1)
    } else if bytes.len() < 2 {
        (Err(EscapeError::TruncatedEscape), 1)
    } else if !spec_is_hex(bytes[1]) {
        (Err(EscapeError::InvalidEscape), 2)
    } else if bytes.len() < 3 {
        (Err(EscapeError::TruncatedEscape), 2)
    } else if !spec_is_hex(bytes[2]) {
        (Err(EscapeError::InvalidEscape), 3)
    } else {
        (Ok(Char::PctEncoded(bytes[1], bytes[2])), 3)
    }
}

/// Everything that `bytes` decodes to, item by item, up to the end of the
/// input. Decoding goes on behind an error, with the bytes that the error
/// did not use up.
pub open spec fn decode(bytes: Seq<u8>) -> Seq<Item>
    decreases bytes.len(),
{
    if bytes.len() == 0 {
        Seq::empty()
    } else {
        let (item, used) = decode_first(bytes);
        seq![item] + decode(bytes.skip(used as int))
    }
}

/// The given characters as items of a stream.
pub open spec fn items_of(chars: Seq<Char>) -> Seq<Item> {
    chars.map_values(|c: Char| Ok::<Char, EscapeError>(c))
}

/// The characters of a run of items. It is meant for runs without an error.
pub open spec fn chars_of(items: Seq<Item>) -> Seq<Char> {
    items.map_values(|i: Item| i->Ok_0)
}

/// Whether every character of the stream is well-formed.
pub open spec fn stream_wf(s: Seq<Item>) -> bool {
    forall|i: int| 0 <= i < s.len() && (#[trigger] s[i]) is Ok ==> s[i]->Ok_0.wf()
}

/// A `%` and two hexadecimal digits decode to the triple that keeps the two
/// digits as they are, whatever follows, and the triple is written as the
/// same three bytes.
pub proof fn lemma_escape_round_trip(high: u8, low: u8, rest: Seq<u8>)
    requires
        spec_is_hex(high),
        spec_is_hex(low),
    ensures
        decode_first(seq![PERCENT, high, low] + rest) == (
            Ok::<Char, EscapeError>(Char::PctEncoded(high, low)),
            3nat,
        ),
        decode(seq![PERCENT, high, low] + rest) == seq![
            Ok::<Char, EscapeError>(Char::PctEncoded(high, low)),
        ] + decode(rest),
        Char::PctEncoded(high, low).bytes() == seq![PERCENT, high, low],
{
    let bytes = seq![PERCENT, high, low] + rest;
    assert(bytes.skip(3) =~= rest);
}

/// A `%` that two hexadecimal digits do not follow decodes to an error and
/// never to a character: to `InvalidEscape` where the first of the two
/// bytes that is no digit is there, and to `TruncatedEscape` where the
/// input ends before it.
pub proof fn lemma_escape_rejected(bytes: Seq<u8>)
    requires
        bytes.len() > 0,
        bytes[0] == PERCENT,
        bytes.len() < 3 || !spec_is_hex(bytes[1]) || !spec_is_hex(bytes[2]),
    ensures
        decode_first(bytes).0 is Err,
        decode(bytes)[0] is Err,
        decode_first(bytes).0 == Err::<Char, EscapeError>(EscapeError::TruncatedEscape) <==> (
        bytes.len() == 1 || (bytes.len() == 2 && spec_is_hex(bytes[1]))),
        decode_first(bytes).0 == Err::<Char, EscapeError>(EscapeError::InvalidEscape) <==> (
        bytes.len() >= 2 && (!spec_is_hex(bytes[1]) || bytes.len() >= 3)),
{
}

/// Every character that decoding delivers is well-formed.
pub proof fn lemma_decode_wf(bytes: Seq<u8>)
    ensures
        stream_wf(decode(bytes)),
    decreases bytes.len(),
{
    if bytes.len() > 0 {
        let (item, used) = decode_first(bytes);
        let rest = decode(bytes.skip(used as int));
        lemma_decode_wf(bytes.skip(used as int));
        assert forall|i: int| 0 <= i < decode(bytes).len() && (#[trigger] decode(bytes)[i]) is Ok
            implies decode(bytes)[i]->Ok_0.wf() by {
            if i > 0 {
                assert(decode(bytes)[i] == rest[i - 1]);
            }
        }
    }
}

/// Decoding what well-formed characters are written as gives the
/// characters back, provided that none of them is a literal `%`. What
/// follows them is decoded as if they were not there.
pub proof fn lemma_decode_text(chars: Seq<Char>, rest: Seq<u8>)
    requires
        forall|i: int| 0 <= i < chars.len() ==> (#[trigger] chars[i]).wf() && !chars[i].is(PERCENT),
    ensures
        decode(text_of(chars) + rest) == items_of(chars) + decode(rest),
    decreases chars.len(),
{
    let items = items_of(chars);
    if chars.len() == 0 {
        assert(text_of(chars) + rest =~= rest);
        assert(items + decode(rest) =~= decode(rest));
    } else {
        let first = chars[0];
        let tail = chars.skip(1);
        let bytes = text_of(chars) + rest;
        assert(first.wf() && !first.is(PERCENT));
        assert(bytes =~= first.bytes() + (text_of(tail) + rest));
        assert(decode_first(bytes) == (Ok::<Char, EscapeError>(first), first.bytes().len()));
        assert(bytes.skip(first.bytes().len() as int) =~= text_of(tail) + rest);
        assert forall|i: int| 0 <= i < tail.len() implies (#[trigger] tail[i]).wf() && !tail[i].is(
            PERCENT,
        ) by {
            assert(tail[i] == chars[i + 1]);
        }
        lemma_decode_text(tail, rest);
        assert(items + decode(rest) =~= seq![Ok::<Char, EscapeError>(first)] + (items_of(tail)
            + decode(rest)));
    }
}

/// A decoder over a slice of bytes. It hands out one character at a time
/// and only ever moves forward.
pub struct CharStream<'a> {
    bytes: &'a [u8],
    pos: usize,
}

impl<'a> View for CharStream<'a> {
    type V = Seq<u8>;

    /// The bytes that have not been decoded yet.
    closed spec fn view(&self) -> Seq<u8> {
        self.bytes@.skip(self.pos as int)
    }
}

impl<'a> CharStream<'a> {
    #[verifier::type_invariant]
    spec fn inv(self) -> bool {
        self.pos <= self.bytes@.len()
    }

    /// The items that the calls of `next` still to come will deliver.
    pub open spec fn upcoming(&self) -> Seq<Item> {
        decode(self@)
    }

    /// A decoder at the start of `bytes`.
    pub fn new(bytes: &'a [u8]) -> (stream: Self)
        ensures
            stream@ == bytes@,
    {
        assert(bytes@.skip(0) =~= bytes@);
        CharStream { bytes, pos: 0 }
    }

    /// Reads the next byte, if there is one.
    fn next_byte(&mut self) -> (r: Option<u8>)
        ensures
            match r {
                Some(b) => old(self)@.len() > 0 && b == old(self)@[0] && final(self)@ == old(
                    self,
                )@.skip(1),
                None => old(self)@.len() == 0 && final(self)@ == old(self)@,
            },
    {
        proof {
            use_type_invariant(&*self);
        }
        if self.pos < self.bytes.len() {
            let b = self.bytes[self.pos];
            self.pos = self.pos + 1;
            assert(self@ =~= old(self)@.skip(1));
            Some(b)
        } else {
            None
        }
    }

    /// Decodes the next character. `Ok(None)` is the end of the input.
    pub fn next(&mut self) -> (r: Result<Option<Char>, EscapeError>)
        ensures
            old(self)@.len() == 0 ==> r == Ok::<Option<Char>, EscapeError>(None) && final(self)@
                == old(self)@,
            old(self)@.len() > 0 ==> {
                let (item, used) = decode_first(old(self)@);
                &&& r == match item {
                    Ok(c) => Ok::<Option<Char>, EscapeError>(Some(c)),
                    Err(e) => Err(e),
                }
                &&& final(self)@ == old(self)@.skip(used as int)
                &&& old(self).upcoming()[0] == item
                &&& final(self).upcoming() == old(self).upcoming().skip(1)
            },
            match r {
                Ok(Some(c)) => c.wf(),
                _ => true,
            },
    {
        proof {
            if self@.len() > 0 {
                let (item, used) = decode_first(self@);
                assert(decode(self@).skip(1) =~= decode(self@.skip(used as int)));
            }
        }
        let b = match self.next_byte() {
            Some(b) => b,
            None => return Ok(None),
        };
        if b != PERCENT {
            return Ok(Some(Char::Ascii(b)));
        }
        let high = match self.next_byte() {
            Some(b) => b,
            None => return Err(EscapeError::TruncatedEscape),
        };
        assert(self@ =~= old(self)@.skip(2));
        if !is_hex(high) {
            return Err(EscapeError::InvalidEscape);
        }
        let low = match self.next_byte() {
            Some(b) => b,
            None => return Err(EscapeError::TruncatedEscape),
        };
        assert(self@ =~= old(self)@.skip(3));
        if !is_hex(low) {
            return Err(EscapeError::InvalidEscape);
        }
        Ok(Some(Char::PctEncoded(high, low)))
    }
}

impl<'a> From<&'a [u8]> for CharStream<'a> {
    /// A decoder at the start of `bytes`.
    fn from(bytes: &'a [u8]) -> (stream: Self)
        ensures
            stream@ == bytes@,
    {
        assert(bytes@.skip(0) =~= bytes@);
        CharStream { bytes, pos: 0 }
    }
}

impl<'a> vstd::std_specs::convert::FromSpecImpl<&'a [u8]> for CharStream<'a> {
    open spec fn obeys_from_spec() -> bool {
        true
    }

    closed spec fn from_spec(bytes: &'a [u8]) -> Self {
        CharStream { bytes, pos: 0 }
    }
}

} // verus!
