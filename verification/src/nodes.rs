//! The syntax nodes that the productions build. A node keeps the
//! characters that it was matched from, so that it can be written out as
//! they were read.

use crate::char_buf::{Char, DOT, SLASH};
use crate::grammar::{
    all_in, ipv4_text, ipv4_valid, is_dec_octet, join, path_text, path_valid, slash, CharClass,
    PathView,
};
use crate::text::{
    as_chars, lemma_text_of_concat, lemma_text_of_one, string_of, text_of, write_chars,
};
use vstd::prelude::*;

verus! {

/// One segment of a path: characters of `pchar`, possibly none.
#[derive(Clone, Debug, PartialEq, Eq)]
pub struct Segment(pub Vec<Char>);

impl View for Segment {
    type V = Seq<Char>;

    open spec fn view(&self) -> Seq<Char> {
        self.0@
    }
}

impl Segment {
    /// Every character of the segment is a `pchar`.
    pub open spec fn wf(&self) -> bool {
        all_in(self@, CharClass::Pchar)
    }

    /// The characters of the segment.
    pub open spec fn text(&self) -> Seq<Char> {
        self@
    }

    /// Appends the segment as it is written.
    pub fn write_to(&self, out: &mut Vec<u8>)
        ensures
            final(out)@ == old(out)@ + text_of(self.text()),
    {
        write_chars(&self.0, out);
    }

    /// The segment as it is written, each byte as the character with that
    /// code.
    pub fn to_string(&self) -> (text: String)
        ensures
            text@ == as_chars(text_of(self.text())),
    {
        let mut out: Vec<u8> = Vec::new();
        self.write_to(&mut out);
        assert(out@ =~= text_of(self.text()));
        string_of(&out)
    }
}

/// The query of a URI: characters of `pchar`, `/` and `?`, possibly none.
#[derive(Clone, Debug, PartialEq, Eq)]
pub struct Query(pub Vec<Char>);

impl View for Query {
    type V = Seq<Char>;

    open spec fn view(&self) -> Seq<Char> {
        self.0@
    }
}

impl Query {
    /// Every character of the query is a `pchar`, `/` or `?`.
    pub open spec fn wf(&self) -> bool {
        all_in(self@, CharClass::QueryChar)
    }

    /// The characters of the query.
    pub open spec fn text(&self) -> Seq<Char> {
        self@
    }

    /// Appends the query as it is written.
    pub fn write_to(&self, out: &mut Vec<u8>)
        ensures
            final(out)@ == old(out)@ + text_of(self.text()),
    {
        write_chars(&self.0, out);
    }

    /// The query as it is written, each byte as the character with that
    /// code.
    pub fn to_string(&self) -> (text: String)
        ensures
            text@ == as_chars(text_of(self.text())),
    {
        let mut out: Vec<u8> = Vec::new();
        self.write_to(&mut out);
        assert(out@ =~= text_of(self.text()));
        string_of(&out)
    }
}

/// The fragment of a URI: characters of `pchar`, `/` and `?`, possibly
/// none.
#[derive(Clone, Debug, PartialEq, Eq)]
pub struct Fragment(pub Vec<Char>);

impl View for Fragment {
    type V = Seq<Char>;

    open spec fn view(&self) -> Seq<Char> {
        self.0@
    }
}

impl Fragment {
    /// Every character of the fragment is a `pchar`, `/` or `?`.
    pub open spec fn wf(&self) -> bool {
        all_in(self@, CharClass::QueryChar)
    }

    /// The characters of the fragment.
    pub open spec fn text(&self) -> Seq<Char> {
        self@
    }

    /// Appends the fragment as it is written.
    pub fn write_to(&self, out: &mut Vec<u8>)
        ensures
            final(out)@ == old(out)@ + text_of(self.text()),
    {
        write_chars(&self.0, out);
    }

    /// The fragment as it is written, each byte as the character with that
    /// code.
    pub fn to_string(&self) -> (text: String)
        ensures
            text@ == as_chars(text_of(self.text())),
    {
        let mut out: Vec<u8> = Vec::new();
        self.write_to(&mut out);
        assert(out@ =~= text_of(self.text()));
        string_of(&out)
    }
}

/// One part of a dotted-decimal address: one to three digits with a value
/// of 255 at most. The digits are kept as they were written.
#[derive(Clone, Debug, PartialEq, Eq)]
pub struct DecOctet(pub Vec<Char>);

impl View for DecOctet {
    type V = Seq<Char>;

    open spec fn view(&self) -> Seq<Char> {
        self.0@
    }
}

impl DecOctet {
    /// The part is one to three digits with a value of 255 at most.
    pub open spec fn wf(&self) -> bool {
        is_dec_octet(self@)
    }

    /// The digits of the part.
    pub open spec fn text(&self) -> Seq<Char> {
        self@
    }

    /// Appends the part as it is written.
    pub fn write_to(&self, out: &mut Vec<u8>)
        ensures
            final(out)@ == old(out)@ + text_of(self.text()),
    {
        write_chars(&self.0, out);
    }

    /// The part as it is written, each byte as the character with that
    /// code.
    pub fn to_string(&self) -> (text: String)
        ensures
            text@ == as_chars(text_of(self.text())),
    {
        let mut out: Vec<u8> = Vec::new();
        self.write_to(&mut out);
        assert(out@ =~= text_of(self.text()));
        string_of(&out)
    }
}

/// A group of four hexadecimal digits, kept as they were written.
#[derive(Clone, Debug, PartialEq, Eq)]
pub struct H16(pub Char, pub Char, pub Char, pub Char);

impl View for H16 {
    type V = Seq<Char>;

    open spec fn view(&self) -> Seq<Char> {
        seq![self.0, self.1, self.2, self.3]
    }
}

impl H16 {
    /// The four characters of the group are hexadecimal digits.
    pub open spec fn wf(&self) -> bool {
        all_in(self@, CharClass::HexDigit)
    }

    /// The four digits of the group.
    pub open spec fn text(&self) -> Seq<Char> {
        self@
    }

    /// Appends the group as it is written.
    pub fn write_to(&self, out: &mut Vec<u8>)
        ensures
            final(out)@ == old(out)@ + text_of(self.text()),
    {
        proof {
            let (a, b, c, d) = (self.0, self.1, self.2, self.3);
            lemma_text_of_one(a);
            lemma_text_of_one(b);
            lemma_text_of_one(c);
            lemma_text_of_one(d);
            assert(seq![a, b] =~= seq![a] + seq![b]);
            assert(seq![a, b, c] =~= seq![a, b] + seq![c]);
            assert(seq![a, b, c, d] =~= seq![a, b, c] + seq![d]);
            lemma_text_of_concat(seq![a], seq![b]);
            lemma_text_of_concat(seq![a, b], seq![c]);
            lemma_text_of_concat(seq![a, b, c], seq![d]);
        }
        self.0.write_to(out);
        self.1.write_to(out);
        self.2.write_to(out);
        self.3.write_to(out);
        assert(out@ =~= old(out)@ + text_of(self.text()));
    }

    /// The group as it is written, each byte as the character with that
    /// code.
    pub fn to_string(&self) -> (text: String)
        ensures
            text@ == as_chars(text_of(self.text())),
    {
        let mut out: Vec<u8> = Vec::new();
        self.write_to(&mut out);
        assert(out@ =~= text_of(self.text()));
        string_of(&out)
    }
}

/// A dotted-decimal IPv4 address: its four parts in the order of the text.
#[derive(Clone, Debug, PartialEq, Eq)]
pub struct Ipv4address(pub DecOctet, pub DecOctet, pub DecOctet, pub DecOctet);

/// The parts as sequences of characters.
pub open spec fn octet_views(octets: Seq<DecOctet>) -> Seq<Seq<Char>> {
    octets.map_values(|octet: DecOctet| octet@)
}

impl View for Ipv4address {
    type V = Seq<Seq<Char>>;

    open spec fn view(&self) -> Seq<Seq<Char>> {
        seq![self.0@, self.1@, self.2@, self.3@]
    }
}

impl Ipv4address {
    /// Each of the four parts is one to three digits with a value of 255 at
    /// most.
    pub open spec fn wf(&self) -> bool {
        ipv4_valid(self@)
    }

    /// The four parts with a `.` between each two.
    pub open spec fn text(&self) -> Seq<Char> {
        ipv4_text(self@)
    }

    /// Appends the address as it is written.
    pub fn write_to(&self, out: &mut Vec<u8>)
        ensures
            final(out)@ == old(out)@ + text_of(self.text()),
    {
        proof {
            let dot = Char::Ascii(DOT);
            let (a, b, c, d) = (self.0@, self.1@, self.2@, self.3@);
            assert(seq![a, b].drop_last() =~= seq![a]);
            assert(seq![a, b, c].drop_last() =~= seq![a, b]);
            assert(seq![a, b, c, d].drop_last() =~= seq![a, b, c]);
            assert(join(seq![a], dot) == a);
            assert(join(seq![a, b], dot) == a + seq![dot] + b);
            assert(join(seq![a, b, c], dot) == a + seq![dot] + b + seq![dot] + c);
            assert(self.text() == a + seq![dot] + b + seq![dot] + c + seq![dot] + d);
            lemma_text_of_one(dot);
            lemma_text_of_concat(a, seq![dot]);
            lemma_text_of_concat(a + seq![dot], b);
            lemma_text_of_concat(a + seq![dot] + b, seq![dot]);
            lemma_text_of_concat(a + seq![dot] + b + seq![dot], c);
            lemma_text_of_concat(a + seq![dot] + b + seq![dot] + c, seq![dot]);
            lemma_text_of_concat(a + seq![dot] + b + seq![dot] + c + seq![dot], d);
        }
        self.0.write_to(out);
        out.push(DOT);
        self.1.write_to(out);
        out.push(DOT);
        self.2.write_to(out);
        out.push(DOT);
        self.3.write_to(out);
        assert(out@ =~= old(out)@ + text_of(self.text()));
    }

    /// The address as it is written, each byte as the character with that
    /// code.
    pub fn to_string(&self) -> (text: String)
        ensures
            text@ == as_chars(text_of(self.text())),
    {
        let mut out: Vec<u8> = Vec::new();
        self.write_to(&mut out);
        assert(out@ =~= text_of(self.text()));
        string_of(&out)
    }
}

/// A path: its segments, and whether a `/` stands in front of them.
///
/// The path without segments and the path with one empty segment are two
/// paths, and both are written as nothing. The productions say which of
/// them they make.
#[derive(Clone, Debug, PartialEq, Eq)]
pub struct Path {
    pub segments: Vec<Segment>,
    pub absolute: bool,
}

/// The segments as sequences of characters.
pub open spec fn segment_views(segments: Seq<Segment>) -> Seq<Seq<Char>> {
    segments.map_values(|segment: Segment| segment@)
}

impl View for Path {
    type V = PathView;

    open spec fn view(&self) -> PathView {
        PathView { absolute: self.absolute, segments: segment_views(self.segments@) }
    }
}

impl Path {
    /// Every character of every segment is a `pchar`.
    pub open spec fn wf(&self) -> bool {
        path_valid(self@)
    }

    /// A `/` in front if the path is absolute, then the segments with a
    /// `/` between each two.
    pub open spec fn text(&self) -> Seq<Char> {
        path_text(self@)
    }

    /// Appends the path as it is written.
    pub fn write_to(&self, out: &mut Vec<u8>)
        ensures
            final(out)@ == old(out)@ + text_of(self.text()),
    {
        let ghost views = segment_views(self.segments@);
        let ghost front: Seq<Char> = if self.absolute {
            seq![slash()]
        } else {
            Seq::empty()
        };
        if self.absolute {
            out.push(SLASH);
        }
        proof {
            lemma_text_of_one(slash());
            assert(out@ =~= old(out)@ + text_of(front));
            assert(front + join(views.take(0), slash()) =~= front);
        }
        let mut i: usize = 0;
        while i < self.segments.len()
            invariant
                i <= self.segments.len(),
                views == segment_views(self.segments@),
                out@ == old(out)@ + text_of(front + join(views.take(i as int), slash())),
            decreases self.segments.len() - i,
        {
            let ghost done = join(views.take(i as int), slash());
            let ghost piece = views[i as int];
            proof {
                assert(views.take(i + 1).drop_last() =~= views.take(i as int));
                assert(views.take(i + 1).last() == piece);
                lemma_text_of_one(slash());
            }
            if i > 0 {
                out.push(SLASH);
                proof {
                    lemma_text_of_concat(front + done, seq![slash()]);
                    lemma_text_of_concat(front + done + seq![slash()], piece);
                    assert(front + join(views.take(i + 1), slash()) =~= front + done + seq![
                        slash(),
                    ] + piece);
                }
            } else {
                proof {
                    assert(done =~= Seq::<Char>::empty());
                    lemma_text_of_concat(front, piece);
                    assert(front + done =~= front);
                    assert(front + join(views.take(i + 1), slash()) =~= front + piece);
                }
            }
            self.segments[i].write_to(out);
            assert(out@ =~= old(out)@ + text_of(front + join(views.take(i + 1), slash())));
            i = i + 1;
        }
        proof {
            assert(views.take(self.segments.len() as int) =~= views);
            assert(self.text() =~= front + join(views, slash()));
        }
    }

    /// The path as it is written, each byte as the character with that
    /// code.
    pub fn to_string(&self) -> (text: String)
        ensures
            text@ == as_chars(text_of(self.text())),
    {
        let mut out: Vec<u8> = Vec::new();
        self.write_to(&mut out);
        assert(out@ =~= text_of(self.text()));
        string_of(&out)
    }
}

} // verus!
