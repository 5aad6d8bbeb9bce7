//! What each production matches, stated over the stream of items that a
//! buffer delivers.
//!
//! A path whose text is empty can be held in two ways, which are written
//! alike: without segments, or with one segment that is empty. This
//! library holds it as follows. The segments of a path are the pieces of
//! its text between the slashes, the `/` in front of an absolute path left
//! aside, and a text without a `/` is one piece even where it is empty. So
//! `path`, `path-absolute`, `path-rootless` and `path-noscheme` never make
//! a path without segments: `/` alone is the absolute path with one empty
//! segment, and `path` on a text that begins with no path is the path
//! with one empty segment that is not absolute. Only `path-empty`, and
//! `path-abempty` where not even a `/` comes, make the path without
//! segments.

use crate::buffer::BufferView;
use crate::char_buf::{AT, COLON, Char, DOT, PERCENT, QUESTION, SLASH};
use crate::decode::{chars_of, EscapeError, Item};
use vstd::prelude::*;

verus! {

/// The classes of characters that the productions are made of.
#[derive(Clone, Copy, Debug, PartialEq, Eq, Structural)]
pub enum CharClass {
    /// `pchar`: unreserved, percent-encoded, a sub-delimiter, `:` or `@`.
    Pchar,
    /// `pchar` without `:`.
    PcharNoColon,
    /// `pchar`, `/` or `?`: what a query and a fragment are made of.
    QueryChar,
    /// `pchar` or `/`: what a path is made of.
    PathChar,
    /// A literal decimal digit.
    Digit,
    /// A literal hexadecimal digit.
    HexDigit,
}

impl CharClass {
    pub open spec fn spec_admits(&self, c: Char) -> bool {
        match *self {
            CharClass::Pchar => c.is_pchar(),
            CharClass::PcharNoColon => c.is_pchar() && !c.is(COLON),
            CharClass::QueryChar => c.is_pchar() || c.is(SLASH) || c.is(QUESTION),
            CharClass::PathChar => c.is_pchar() || c.is(SLASH),
            CharClass::Digit => c.is_digit(),
            CharClass::HexDigit => c.is_hex(),
        }
    }

    /// Whether `c` belongs to the class.
    #[verifier::when_used_as_spec(spec_admits)]
    pub fn admits(&self, c: Char) -> (r: bool)
        ensures
            r == self.spec_admits(c),
    {
        match self {
            CharClass::Pchar => c.is_pchar(),
            CharClass::PcharNoColon => c.is_unreserved() || c.is_pct_encoded() || c.is_sub_delim()
                || c.is(AT),
            CharClass::QueryChar => c.is_pchar() || c.is(SLASH) || c.is(QUESTION),
            CharClass::PathChar => c.is_pchar() || c.is(SLASH),
            CharClass::Digit => c.is_digit(),
            CharClass::HexDigit => c.is_hex(),
        }
    }
}

/// Whether `item` is a character of `class`.
pub open spec fn fits(item: Item, class: CharClass) -> bool {
    item is Ok && class.admits(item->Ok_0)
}

/// The number of items at the front of `s`, up to the first that is no
/// character of `class`.
pub open spec fn run_len(s: Seq<Item>, class: CharClass) -> nat
    decreases s.len(),
{
    if s.len() > 0 && fits(s[0], class) {
        1 + run_len(s.skip(1), class)
    } else {
        0
    }
}

/// Whether all of `chars` belong to `class`.
pub open spec fn all_in(chars: Seq<Char>, class: CharClass) -> bool {
    forall|i: int| 0 <= i < chars.len() ==> class.admits(#[trigger] chars[i])
}

/// The first `n` items of `s` as characters.
pub open spec fn run(s: Seq<Item>, n: nat) -> Seq<Char> {
    chars_of(s.take(n as int))
}

/// The outcome of one attempt to match a production at the front of a
/// stream.
pub struct Match<T> {
    /// The node, `None` where the production does not match, or the
    /// decoding error that the attempt ran into.
    pub result: Result<Option<T>, EscapeError>,
    /// How many items the attempt read.
    pub reach: nat,
    /// How many of them it kept. The others went back to the buffer.
    pub consumed: nat,
}

/// Whether the attempt has matched, and `node` is what it has matched.
pub open spec fn matched<T>(found: Match<T>, node: T) -> bool {
    found.result == Ok::<Option<T>, EscapeError>(Some(node))
}

/// The attempt that read `n` fitting items and, behind them, the item that
/// ended it, if the stream has one. A decoding error at that place is the
/// outcome, and is used up. Any other item goes back, and the outcome is
/// `value`; without a value the `n` items go back as well.
pub open spec fn stopped<T>(s: Seq<Item>, n: nat, value: Option<T>) -> Match<T> {
    if n < s.len() && s[n as int] is Err {
        Match { result: Err(s[n as int]->Err_0), reach: n + 1, consumed: n + 1 }
    } else {
        Match {
            result: Ok(value),
            reach: if n < s.len() {
                n + 1
            } else {
                n
            },
            consumed: if value is Some {
                n
            } else {
                0
            },
        }
    }
}

/// The attempt that read `n` fitting items and looked no further. Without
/// a value the `n` items go back.
pub open spec fn filled<T>(n: nat, value: Option<T>) -> Match<T> {
    Match {
        result: Ok(value),
        reach: n,
        consumed: if value is Some {
            n
        } else {
            0
        },
    }
}

/// `second` tried where `first` ended: both values where both match, and
/// nothing kept where either does not.
pub open spec fn and_then<A, B>(first: Match<A>, second: Match<B>) -> Match<(A, B)> {
    match first.result {
        Ok(Some(a)) => {
            let reach = if first.reach > first.consumed + second.reach {
                first.reach
            } else {
                first.consumed + second.reach
            };
            match second.result {
                Ok(Some(b)) => Match {
                    result: Ok(Some((a, b))),
                    reach,
                    consumed: first.consumed + second.consumed,
                },
                Ok(None) => Match { result: Ok(None), reach, consumed: 0 },
                Err(e) => Match {
                    result: Err(e),
                    reach,
                    consumed: first.consumed + second.consumed,
                },
            }
        },
        Ok(None) => Match { result: Ok(None), reach: first.reach, consumed: 0 },
        Err(e) => Match { result: Err(e), reach: first.reach, consumed: first.consumed },
    }
}

/// `second` tried at the same place where `first` did not match.
pub open spec fn or_else<T>(first: Match<T>, second: Match<T>) -> Match<T> {
    if first.result == Ok::<Option<T>, EscapeError>(None) {
        Match {
            result: second.result,
            reach: if first.reach > second.reach {
                first.reach
            } else {
                second.reach
            },
            consumed: second.consumed,
        }
    } else {
        first
    }
}

/// The value of a run of decimal digits.
pub open spec fn decimal(digits: Seq<Char>) -> nat
    decreases digits.len(),
{
    if digits.len() == 0 {
        0
    } else {
        decimal(digits.drop_last()) * 10 + match digits.last() {
            Char::Ascii(b) => (b - 48) as nat,
            Char::PctEncoded(_, _) => 0,
        }
    }
}

/// `segment`: the longest run of `pchar`, which may be empty.
pub open spec fn segment_match(s: Seq<Item>) -> Match<Seq<Char>> {
    let n = run_len(s, CharClass::Pchar);
    stopped(s, n, Some(run(s, n)))
}

/// The longest run of `class`, which may not be empty.
pub open spec fn run_nz_match(s: Seq<Item>, class: CharClass) -> Match<Seq<Char>> {
    let n = run_len(s, class);
    stopped(
        s,
        n,
        if n > 0 {
            Some(run(s, n))
        } else {
            None
        },
    )
}

/// `segment-nz`: the longest run of `pchar`, which may not be empty.
pub open spec fn segment_nz_match(s: Seq<Item>) -> Match<Seq<Char>> {
    run_nz_match(s, CharClass::Pchar)
}

/// `segment-nz-nc`: the longest run of `pchar` other than `:`, which may
/// not be empty.
pub open spec fn segment_nz_nc_match(s: Seq<Item>) -> Match<Seq<Char>> {
    run_nz_match(s, CharClass::PcharNoColon)
}

/// `fragment`: the longest run of `pchar`, `/` and `?`, which may be
/// empty.
pub open spec fn fragment_match(s: Seq<Item>) -> Match<Seq<Char>> {
    let n = run_len(s, CharClass::QueryChar);
    stopped(s, n, Some(run(s, n)))
}

/// `query`: as `fragment`.
pub open spec fn query_match(s: Seq<Item>) -> Match<Seq<Char>> {
    fragment_match(s)
}

/// The number of digits that `dec-octet` takes: the digits at the front,
/// but no more than three.
pub open spec fn dec_octet_len(s: Seq<Item>) -> nat {
    let n = run_len(s, CharClass::Digit);
    if n < 3 {
        n
    } else {
        3
    }
}

/// Whether `digits` are one to three digits with a value of 255 at most.
pub open spec fn is_dec_octet(digits: Seq<Char>) -> bool {
    &&& 1 <= digits.len() <= 3
    &&& forall|i: int| 0 <= i < digits.len() ==> (#[trigger] digits[i]).is_digit()
    &&& decimal(digits) <= 255
}

/// `dec-octet`: up to three digits are taken, as many as there are. They
/// match if there is one at least and their value is 255 at most. No
/// shorter run is tried.
pub open spec fn dec_octet_match(s: Seq<Item>) -> Match<Seq<Char>> {
    let n = dec_octet_len(s);
    let value = if is_dec_octet(run(s, n)) {
        Some(run(s, n))
    } else {
        None
    };
    if n == 3 {
        filled(n, value)
    } else {
        stopped(s, n, value)
    }
}

/// `h16` as this library has it: exactly four hexadecimal digits.
pub open spec fn h16_match(s: Seq<Item>) -> Match<Seq<Char>> {
    let n = run_len(s, CharClass::HexDigit);
    if n >= 4 {
        filled(4, Some(run(s, 4)))
    } else {
        stopped(s, n, None)
    }
}

/// The one literal `byte`.
pub open spec fn literal_match(s: Seq<Item>, byte: u8) -> Match<Char> {
    if s.len() > 0 && s[0] == Ok::<Char, EscapeError>(Char::Ascii(byte)) {
        filled(1, Some(Char::Ascii(byte)))
    } else {
        stopped(s, 0, None)
    }
}

/// `count` times `dec-octet`, with a `.` between each two.
pub open spec fn dotted_match(s: Seq<Item>, count: nat) -> Match<Seq<Seq<Char>>>
    decreases count,
{
    let head = dec_octet_match(s);
    if count <= 1 {
        Match {
            result: match head.result {
                Ok(Some(d)) => Ok(Some(seq![d])),
                Ok(None) => Ok(None),
                Err(e) => Err(e),
            },
            reach: head.reach,
            consumed: head.consumed,
        }
    } else {
        let t = s.skip(head.consumed as int);
        let dot = literal_match(t, DOT);
        let rest = dotted_match(t.skip(dot.consumed as int), (count - 1) as nat);
        let all = and_then(head, and_then(dot, rest));
        Match {
            result: match all.result {
                Ok(Some(found)) => Ok(Some(seq![found.0] + found.1.1)),
                Ok(None) => Ok(None),
                Err(e) => Err(e),
            },
            reach: all.reach,
            consumed: all.consumed,
        }
    }
}

/// `IPv4address`: four `dec-octet`, with a `.` between each two.
pub open spec fn ipv4_match(s: Seq<Item>) -> Match<Seq<Seq<Char>>> {
    dotted_match(s, 4)
}

/// What a path stands for.
pub struct PathView {
    /// Whether the text of the path begins with `/`.
    pub absolute: bool,
    /// The segments in the order of the text.
    pub segments: Seq<Seq<Char>>,
}

/// Whether every segment of the path is made of `pchar`.
pub open spec fn path_valid(path: PathView) -> bool {
    forall|k: int|
        0 <= k < path.segments.len() ==> all_in(#[trigger] path.segments[k], CharClass::Pchar)
}

/// Whether these are the four parts of an address.
pub open spec fn ipv4_valid(parts: Seq<Seq<Char>>) -> bool {
    &&& parts.len() == 4
    &&& forall|k: int| 0 <= k < parts.len() ==> is_dec_octet(#[trigger] parts[k])
}

/// The literal `/` as a character.
pub open spec fn slash() -> Char {
    Char::Ascii(SLASH)
}

/// The number of characters of `text` behind its last `/`, or the length
/// of `text` where it holds no `/`.
pub open spec fn last_piece_len(text: Seq<Char>) -> nat
    decreases text.len(),
{
    if text.len() == 0 || text.last() == slash() {
        0
    } else {
        1 + last_piece_len(text.drop_last())
    }
}

/// The pieces of `text` between its slashes. There is one more of them
/// than there are slashes, so a text without a `/` is one piece, even
/// where it is empty.
pub open spec fn split(text: Seq<Char>) -> Seq<Seq<Char>>
    decreases text.len(),
{
    let k = last_piece_len(text);
    if k >= text.len() {
        seq![text]
    } else {
        split(text.take(text.len() - k - 1)).push(text.skip(text.len() - k))
    }
}

/// The given pieces with `separator` between each two.
pub open spec fn join(pieces: Seq<Seq<Char>>, separator: Char) -> Seq<Char>
    decreases pieces.len(),
{
    if pieces.len() == 0 {
        Seq::empty()
    } else if pieces.len() == 1 {
        pieces[0]
    } else {
        join(pieces.drop_last(), separator) + seq![separator] + pieces.last()
    }
}

/// The text of a path: a `/` in front if it is absolute, then its segments
/// with a `/` between each two.
pub open spec fn path_text(path: PathView) -> Seq<Char> {
    if path.absolute {
        seq![slash()] + join(path.segments, slash())
    } else {
        join(path.segments, slash())
    }
}

/// The text of an address: its parts with a `.` between each two.
pub open spec fn ipv4_text(parts: Seq<Seq<Char>>) -> Seq<Char> {
    join(parts, Char::Ascii(DOT))
}

/// The segments of a text that is empty or begins with `/`: none for the
/// empty text, else the pieces of what follows the first `/`.
pub open spec fn slash_pieces(text: Seq<Char>) -> Seq<Seq<Char>> {
    if text.len() == 0 {
        Seq::empty()
    } else {
        split(text.skip(1))
    }
}

/// The number of items that `*( "/" segment )` takes: where the stream
/// begins with `/`, the longest run of `pchar` and `/`.
pub open spec fn tail_len(s: Seq<Item>) -> nat {
    if s.len() > 0 && s[0] == Ok::<Char, EscapeError>(slash()) {
        run_len(s, CharClass::PathChar)
    } else {
        0
    }
}

/// `*( "/" segment )`: one segment for each `/`.
pub open spec fn tail_match(s: Seq<Item>) -> Match<Seq<Seq<Char>>> {
    let n = tail_len(s);
    stopped(s, n, Some(slash_pieces(run(s, n))))
}

/// The path with one segment, which is empty.
pub open spec fn one_empty_segment(absolute: bool) -> PathView {
    PathView { absolute, segments: seq![Seq::<Char>::empty()] }
}

/// The path without segments.
pub open spec fn no_segments() -> PathView {
    PathView { absolute: false, segments: Seq::empty() }
}

/// A first segment and the segments behind it as one path.
pub open spec fn as_path(found: Match<(Seq<Char>, Seq<Seq<Char>>)>) -> Match<PathView> {
    Match {
        result: match found.result {
            Ok(Some(parts)) => Ok(
                Some(PathView { absolute: false, segments: seq![parts.0] + parts.1 }),
            ),
            Ok(None) => Ok(None),
            Err(e) => Err(e),
        },
        reach: found.reach,
        consumed: found.consumed,
    }
}

/// `path-abempty`: `*( "/" segment )`. It matches the empty text as the
/// path without segments, and any other text as an absolute path.
pub open spec fn path_abempty_match(s: Seq<Item>) -> Match<PathView> {
    let tail = tail_match(s);
    Match {
        result: match tail.result {
            Ok(Some(segments)) => Ok(Some(PathView { absolute: segments.len() > 0, segments })),
            Ok(None) => Ok(None),
            Err(e) => Err(e),
        },
        reach: tail.reach,
        consumed: tail.consumed,
    }
}

/// A first segment of `class`, which may not be empty, then
/// `*( "/" segment )`.
pub open spec fn segments_match(s: Seq<Item>, class: CharClass) -> Match<PathView> {
    let first = run_nz_match(s, class);
    as_path(and_then(first, tail_match(s.skip(first.consumed as int))))
}

/// `path-rootless`: `segment-nz *( "/" segment )`.
pub open spec fn path_rootless_match(s: Seq<Item>) -> Match<PathView> {
    segments_match(s, CharClass::Pchar)
}

/// `path-noscheme`: `segment-nz-nc *( "/" segment )`.
pub open spec fn path_noscheme_match(s: Seq<Item>) -> Match<PathView> {
    segments_match(s, CharClass::PcharNoColon)
}

/// `path-absolute`: `"/" [ segment-nz *( "/" segment ) ]`. A `/` with no
/// segment behind it is the absolute path with one empty segment.
pub open spec fn path_absolute_match(s: Seq<Item>) -> Match<PathView> {
    let root = literal_match(s, SLASH);
    let rest = or_else(path_rootless_match(s.skip(1)), filled(0, Some(one_empty_segment(false))));
    let both = and_then(root, rest);
    Match {
        result: match both.result {
            Ok(Some(parts)) => Ok(Some(PathView { absolute: true, segments: parts.1.segments })),
            Ok(None) => Ok(None),
            Err(e) => Err(e),
        },
        reach: both.reach,
        consumed: both.consumed,
    }
}

/// `path-empty`: the path without segments, where the next item is no
/// `pchar`. The item is looked at and not taken.
pub open spec fn path_empty_match(s: Seq<Item>) -> Match<PathView> {
    stopped(
        s,
        0,
        if s.len() > 0 && fits(s[0], CharClass::Pchar) {
            None
        } else {
            Some(no_segments())
        },
    )
}

/// `path`: `path-absolute`, else `path-rootless`, else the path with one
/// empty segment that is not absolute.
pub open spec fn path_match(s: Seq<Item>) -> Match<PathView> {
    or_else(
        path_absolute_match(s),
        or_else(path_rootless_match(s), filled(0, Some(one_empty_segment(false)))),
    )
}

/// Where an attempt leaves the buffer: it has read `reach` items and put
/// back all but the first `consumed`.
pub open spec fn leaves<T>(before: BufferView, found: Match<T>) -> BufferView {
    before.after(found.reach, found.consumed)
}

/// Whether no character of `text` is a `/`.
pub open spec fn slash_free(text: Seq<Char>) -> bool {
    forall|i: int| 0 <= i < text.len() ==> #[trigger] text[i] != slash()
}

/// Whether the first `n` items of the stream are characters, none of them
/// a literal `%`.
pub open spec fn chars_only(s: Seq<Item>, n: nat) -> bool {
    &&& n <= s.len()
    &&& forall|i: int| 0 <= i < n ==> (#[trigger] s[i]) is Ok && !s[i]->Ok_0.is(PERCENT)
}

/// Whether `found` has kept characters only, none of them a literal `%`,
/// and `text` is what it has kept.
pub open spec fn kept_text<V>(s: Seq<Item>, found: Match<V>, text: Seq<Char>) -> bool {
    &&& chars_only(s, found.consumed)
    &&& text == run(s, found.consumed)
}

} // verus!
