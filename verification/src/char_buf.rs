//! URI characters and the byte classes they are built from.

use crate::text::{as_chars, string_of};
use vstd::prelude::*;

verus! {

/// The byte `%`, which opens a percent-encoded triple.
pub const PERCENT: u8 = 37;

/// The byte `.`, which separates the octets of an IPv4 address.
pub const DOT: u8 = 46;

/// The byte `/`, which separates the segments of a path.
pub const SLASH: u8 = 47;

/// The byte `:`.
pub const COLON: u8 = 58;

/// The byte `?`.
pub const QUESTION: u8 = 63;

/// The byte `@`.
pub const AT: u8 = 64;

/// Lower-case ASCII letters, `a` to `z`.
pub open spec fn spec_is_low_alpha(b: u8) -> bool {
    97 <= b <= 122
}

/// Upper-case ASCII letters, `A` to `Z`.
pub open spec fn spec_is_up_alpha(b: u8) -> bool {
    65 <= b <= 90
}

/// ASCII letters.
pub open spec fn spec_is_alpha(b: u8) -> bool {
    spec_is_low_alpha(b) || spec_is_up_alpha(b)
}

/// ASCII decimal digits, `0` to `9`.
pub open spec fn spec_is_digit(b: u8) -> bool {
    48 <= b <= 57
}

/// ASCII letters and decimal digits.
pub open spec fn spec_is_alphanum(b: u8) -> bool {
    spec_is_alpha(b) || spec_is_digit(b)
}

/// ASCII hexadecimal digits: `0` to `9`, `A` to `F` and `a` to `f`.
pub open spec fn spec_is_hex(b: u8) -> bool {
    spec_is_digit(b) || 65 <= b <= 70 || 97 <= b <= 102
}

/// The marks `-`, `_`, `.`, `!`, `~`, `*`, `'`, `(` and `)`.
pub open spec fn spec_is_mark(b: u8) -> bool {
    b == 45 || b == 95 || b == 46 || b == 33 || b == 126 || b == 42 || b == 39 || b == 40 || b
        == 41
}

/// The reserved bytes `;`, `/`, `?`, `:`, `@`, `&`, `=`, `+`, `$` and `,`.
pub open spec fn spec_is_reserved(b: u8) -> bool {
    b == 59 || b == 47 || b == 63 || b == 58 || b == 64 || b == 38 || b == 61 || b == 43 || b
        == 36 || b == 44
}

/// Letters, digits and marks.
pub open spec fn spec_is_unreserved(b: u8) -> bool {
    spec_is_alphanum(b) || spec_is_mark(b)
}

/// A `%` followed by two hexadecimal digits.
pub open spec fn spec_is_escaped(bytes: (u8, u8, u8)) -> bool {
    bytes.0 == PERCENT && spec_is_hex(bytes.1) && spec_is_hex(bytes.2)
}

#[verifier::when_used_as_spec(spec_is_low_alpha)]
pub fn is_low_alpha(b: u8) -> (r: bool)
    ensures
        r == spec_is_low_alpha(b),
{
    b >= 97 && b <= 122
}

#[verifier::when_used_as_spec(spec_is_up_alpha)]
pub fn is_up_alpha(b: u8) -> (r: bool)
    ensures
        r == spec_is_up_alpha(b),
{
    b >= 65 && b <= 90
}

#[verifier::when_used_as_spec(spec_is_alpha)]
pub fn is_alpha(b: u8) -> (r: bool)
    ensures
        r == spec_is_alpha(b),
{
    is_low_alpha(b) || is_up_alpha(b)
}

#[verifier::when_used_as_spec(spec_is_digit)]
pub fn is_digit(b: u8) -> (r: bool)
    ensures
        r == spec_is_digit(b),
{
    b >= 48 && b <= 57
}

#[verifier::when_used_as_spec(spec_is_alphanum)]
pub fn is_alphanum(b: u8) -> (r: bool)
    ensures
        r == spec_is_alphanum(b),
{
    is_alpha(b) || is_digit(b)
}

#[verifier::when_used_as_spec(spec_is_hex)]
pub fn is_hex(b: u8) -> (r: bool)
    ensures
        r == spec_is_hex(b),
{
    is_digit(b) || (b >= 65 && b <= 70) || (b >= 97 && b <= 102)
}

#[verifier::when_used_as_spec(spec_is_mark)]
pub fn is_mark(b: u8) -> (r: bool)
    ensures
        r == spec_is_mark(b),
{
    match b {
        45 => true,
        95 => true,
        46 => true,
        33 => true,
        126 => true,
        42 => true,
        39 => true,
        40 => true,
        41 => true,
        _ => false,
    }
}

#[verifier::when_used_as_spec(spec_is_reserved)]
pub fn is_reserved(b: u8) -> (r: bool)
    ensures
        r == spec_is_reserved(b),
{
    match b {
        59 => true,
        47 => true,
        63 => true,
        58 => true,
        64 => true,
        38 => true,
        61 => true,
        43 => true,
        36 => true,
        44 => true,
        _ => false,
    }
}

#[verifier::when_used_as_spec(spec_is_unreserved)]
pub fn is_unreserved(b: u8) -> (r: bool)
    ensures
        r == spec_is_unreserved(b),
{
    is_alphanum(b) || is_mark(b)
}

#[verifier::when_used_as_spec(spec_is_escaped)]
pub fn is_escaped(bytes: (u8, u8, u8)) -> (r: bool)
    ensures
        r == spec_is_escaped(bytes),
{
    bytes.0 == PERCENT && is_hex(bytes.1) && is_hex(bytes.2)
}

/// One character of URI text.
///
/// A percent-encoded triple keeps its two digits as they were written, so
/// that writing the character out gives back the bytes it was read from.
#[derive(Clone, Copy, Debug, PartialEq, Eq, Structural)]
pub enum Char {
    /// A single byte, taken as it stands.
    Ascii(u8),
    /// The two digits that followed a `%`.
    PctEncoded(u8, u8),
}

impl Char {
    /// The two digits of a percent-encoded triple are hexadecimal. Decoding
    /// produces no other character.
    pub open spec fn wf(self) -> bool {
        match self {
            Char::Ascii(_) => true,
            Char::PctEncoded(high, low) => spec_is_hex(high) && spec_is_hex(low),
        }
    }

    /// The bytes that this character is written as.
    pub open spec fn bytes(self) -> Seq<u8> {
        match self {
            Char::Ascii(b) => seq![b],
            Char::PctEncoded(high, low) => seq![PERCENT, high, low],
        }
    }

    /// Appends the bytes that this character is written as.
    pub fn write_to(&self, out: &mut Vec<u8>)
        ensures
            final(out)@ == old(out)@ + self.bytes(),
    {
        match self {
            Char::Ascii(b) => {
                out.push(*b);
                assert(out@ =~= old(out)@ + self.bytes());
            },
            Char::PctEncoded(high, low) => {
                out.push(PERCENT);
                out.push(*high);
                out.push(*low);
                assert(out@ =~= old(out)@ + self.bytes());
            },
        }
    }

    /// This character as text: a literal as the character with its code,
    /// a percent-encoded triple as `%` and its two digits.
    pub fn to_string(&self) -> (text: String)
        ensures
            text@ == as_chars(self.bytes()),
    {
        let mut out: Vec<u8> = Vec::new();
        self.write_to(&mut out);
        assert(out@ =~= self.bytes());
        string_of(&out)
    }

    pub open spec fn spec_is(&self, byte: u8) -> bool {
        *self == Char::Ascii(byte)
    }

    pub open spec fn spec_is_pct_encoded(&self) -> bool {
        *self is PctEncoded
    }

    /// Literal letters and digits and the literals `-`, `.`, `_` and `~`.
    pub open spec fn spec_is_unreserved(&self) -> bool {
        match *self {
            Char::Ascii(b) => spec_is_alpha(b) || spec_is_digit(b) || b == 45 || b == 46 || b
                == 95 || b == 126,
            Char::PctEncoded(_, _) => false,
        }
    }

    /// The literals `:`, `|`, `?`, `#`, `[`, `]` and `@`.
    pub open spec fn spec_is_gen_delim(&self) -> bool {
        match *self {
            Char::Ascii(b) => b == 58 || b == 124 || b == 63 || b == 35 || b == 91 || b == 93
                || b == 64,
            Char::PctEncoded(_, _) => false,
        }
    }

    /// The literals `!`, `$`, `&`, `'`, `(`, `)`, `*`, `+`, `,`, `;` and `=`.
    pub open spec fn spec_is_sub_delim(&self) -> bool {
        match *self {
            Char::Ascii(b) => b == 33 || b == 36 || b == 38 || b == 39 || b == 40 || b == 41
                || b == 42 || b == 43 || b == 44 || b == 59 || b == 61,
            Char::PctEncoded(_, _) => false,
        }
    }

    pub open spec fn spec_is_reserved(&self) -> bool {
        self.spec_is_gen_delim() || self.spec_is_sub_delim()
    }

    /// Unreserved, percent-encoded, a sub-delimiter, `:` or `@`.
    pub open spec fn spec_is_pchar(&self) -> bool {
        self.spec_is_unreserved() || self.spec_is_pct_encoded() || self.spec_is_sub_delim()
            || self.spec_is(COLON) || self.spec_is(AT)
    }

    /// A literal decimal digit; a percent-encoded triple never is one.
    pub open spec fn spec_is_digit(&self) -> bool {
        match *self {
            Char::Ascii(b) => spec_is_digit(b),
            Char::PctEncoded(_, _) => false,
        }
    }

    /// A literal hexadecimal digit; a percent-encoded triple never is one.
    pub open spec fn spec_is_hex(&self) -> bool {
        match *self {
            Char::Ascii(b) => spec_is_hex(b),
            Char::PctEncoded(_, _) => false,
        }
    }

    /// Whether this is the literal `byte`.
    #[verifier::when_used_as_spec(spec_is)]
    pub fn is(&self, byte: u8) -> (r: bool)
        ensures
            r == self.spec_is(byte),
    {
        match self {
            Char::Ascii(b) => *b == byte,
            _ => false,
        }
    }

    #[verifier::when_used_as_spec(spec_is_pchar)]
    pub fn is_pchar(&self) -> (r: bool)
        ensures
            r == self.spec_is_pchar(),
    {
        self.is_unreserved() || self.is_pct_encoded() || self.is_sub_delim() || self.is(COLON)
            || self.is(AT)
    }

    #[verifier::when_used_as_spec(spec_is_pct_encoded)]
    pub fn is_pct_encoded(&self) -> (r: bool)
        ensures
            r == self.spec_is_pct_encoded(),
    {
        match self {
            Char::Ascii(_) => false,
            Char::PctEncoded(_, _) => true,
        }
    }

    #[verifier::when_used_as_spec(spec_is_unreserved)]
    pub fn is_unreserved(&self) -> (r: bool)
        ensures
            r == self.spec_is_unreserved(),
    {
        match self {
            Char::Ascii(byte) => {
                is_alpha(*byte) || is_digit(*byte) || match *byte {
                    45 | 46 | 95 | 126 => true,
                    _ => false,
                }
            },
            _ => false,
        }
    }

    #[verifier::when_used_as_spec(spec_is_reserved)]
    pub fn is_reserved(&self) -> (r: bool)
        ensures
            r == self.spec_is_reserved(),
    {
        self.is_gen_delim() || self.is_sub_delim()
    }

    #[verifier::when_used_as_spec(spec_is_gen_delim)]
    pub fn is_gen_delim(&self) -> (r: bool)
        ensures
            r == self.spec_is_gen_delim(),
    {
        match self {
            Char::Ascii(byte) => match *byte {
                58 | 124 | 63 | 35 | 91 | 93 | 64 => true,
                _ => false,
            },
            _ => false,
        }
    }

    #[verifier::when_used_as_spec(spec_is_sub_delim)]
    pub fn is_sub_delim(&self) -> (r: bool)
        ensures
            r == self.spec_is_sub_delim(),
    {
        match self {
            Char::Ascii(byte) => match *byte {
                33 | 36 | 38 | 39 | 40 | 41 | 42 | 43 | 44 | 59 | 61 => true,
                _ => false,
            },
            _ => false,
        }
    }

    #[verifier::when_used_as_spec(spec_is_digit)]
    pub fn is_digit(&self) -> (r: bool)
        ensures
            r == self.spec_is_digit(),
    {
        match self {
            Char::Ascii(byte) => is_digit(*byte),
            _ => false,
        }
    }

    #[verifier::when_used_as_spec(spec_is_hex)]
    pub fn is_hex(&self) -> (r: bool)
        ensures
            r == self.spec_is_hex(),
    {
        match self {
            Char::Ascii(byte) => is_hex(*byte),
            _ => false,
        }
    }
}

} // verus!
