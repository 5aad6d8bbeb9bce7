//! The productions: each tries to match at the place where the buffer
//! stands, and leaves the buffer there if it does not match.

use crate::buffer::{BufferView, CharBuffer};
use crate::char_buf::{Char, DOT, SLASH};
use crate::decode::{items_of, EscapeError, Item};
use crate::grammar::{
    and_then, as_path, dec_octet_match, decimal, dotted_match, filled, fits, fragment_match,
    h16_match, ipv4_match, kept_text, leaves, literal_match, no_segments, one_empty_segment,
    path_abempty_match, path_absolute_match, path_empty_match, path_match, path_noscheme_match,
    path_rootless_match, query_match, run, run_len, segment_match, segment_nz_match,
    segment_nz_nc_match, slash, slash_free, slash_pieces, stopped, tail_len, tail_match, CharClass,
    Match,
};
use crate::laws::{
    lemma_dec_octet_text, lemma_fragment_text, lemma_h16_text, lemma_ipv4_text, lemma_ipv4_valid,
    lemma_path_abempty_text, lemma_path_absolute_text, lemma_path_empty_text,
    lemma_path_noscheme_text, lemma_path_rootless_text, lemma_path_text, lemma_paths_valid,
    lemma_query_text, lemma_runs_valid, lemma_segment_nz_nc_text, lemma_segment_nz_text,
    lemma_segment_text,
};
use crate::lemmas::{
    lemma_dec_octet_bounds, lemma_dotted_bounds, lemma_path_absolute_bounds,
    lemma_path_rootless_bounds, lemma_run_len, lemma_run_len_is, lemma_split_one, lemma_split_push,
};
use crate::nodes::{
    octet_views, segment_views, DecOctet, Fragment, H16, Ipv4address, Path, Query, Segment,
};
use vstd::prelude::*;

verus! {

/// What a result says of the stream, with the node taken by its view.
pub open spec fn seen<T: View>(r: Result<T, EscapeError>) -> Result<Option<T::V>, EscapeError> {
    match r {
        Ok(node) => Ok(Some(node@)),
        Err(e) => Err(e),
    }
}

/// What a result that may be `None` says of the stream, with the node
/// taken by its view.
pub open spec fn seen_if_any<T: View>(r: Result<Option<T>, EscapeError>) -> Result<
    Option<T::V>,
    EscapeError,
> {
    match r {
        Ok(Some(node)) => Ok(Some(node@)),
        Ok(None) => Ok(None),
        Err(e) => Err(e),
    }
}

/// The longest run of `class` at the front of `s`, cut off after `limit`
/// characters where there is a limit.
spec fn run_match(s: Seq<Item>, class: CharClass, limit: Option<usize>) -> Match<
    Seq<Char>,
> {
    let n = run_len(s, class);
    if limit is Some && n >= limit->0 {
        filled(limit->0 as nat, Some(run(s, limit->0 as nat)))
    } else {
        stopped(s, n, Some(run(s, n)))
    }
}

/// Reads characters of `class` for as long as they come, up to `limit` of
/// them, and puts back the character that ends the run.
fn read_run(tb: &mut CharBuffer, class: CharClass, limit: Option<usize>) -> (r: Result<
    Vec<Char>,
    EscapeError,
>)
    ensures
        seen(r) == run_match(old(tb)@.stream, class, limit).result,
        final(tb)@ == leaves(old(tb)@, run_match(old(tb)@.stream, class, limit)),
{
    let ghost s = tb@.stream;
    let ghost start = tb@;
    let mut tokens: Vec<Char> = Vec::new();
    proof {
        tb.lemma_wf();
        start.lemma_after_after(0, 0, 0, 0);
        assert(start.after(0, 0).stream =~= start.stream);
    }
    loop
        invariant
            s == old(tb)@.stream,
            start == old(tb)@,
            tokens.len() <= s.len(),
            forall|i: int|
                0 <= i < tokens.len() ==> fits(#[trigger] s[i], class) && s[i]->Ok_0 == tokens[i],
            tb@ == start.after(tokens.len() as nat, tokens.len() as nat),
            limit is Some ==> tokens.len() <= limit->0,
        decreases s.len() - tokens.len(),
    {
        let ghost k = tokens.len() as nat;
        proof {
            lemma_run_len_is(s, class, k);
            assert(tokens@ =~= run(s, k));
        }
        match limit {
            Some(most) => {
                if tokens.len() >= most {
                    return Ok(tokens);
                }
            },
            None => {},
        }
        let popped = tb.pop();
        proof {
            if s.len() > k {
                start.lemma_after_after(k, k, 1, 1);
            }
        }
        match popped {
            Ok(Some(c)) => {
                if class.admits(c) {
                    tokens.push(c);
                } else {
                    tb.push(c);
                    proof {
                        assert(items_of(seq![c]) =~= s.subrange(k as int, k as int + 1));
                        start.lemma_after_unread(k + 1, k + 1, seq![c]);
                    }
                    return Ok(tokens);
                }
            },
            Ok(None) => {
                return Ok(tokens);
            },
            Err(e) => {
                return Err(e);
            },
        }
    }
}

/// Puts back the characters of a run that was read and did not make a
/// node.
fn unread_run(tb: &mut CharBuffer, tokens: Vec<Char>, Ghost(start): Ghost<BufferView>, Ghost(
    reach,
): Ghost<nat>)
    requires
        tokens.len() <= reach <= start.stream.len(),
        items_of(tokens@) == start.stream.take(tokens.len() as int),
        old(tb)@ == start.after(reach, tokens.len() as nat),
    ensures
        final(tb)@ == start.after(reach, 0),
        final(tb)@.stream == start.stream,
{
    proof {
        start.lemma_after_unread(reach, tokens.len() as nat, tokens@);
        assert(start.stream.skip(0) =~= start.stream);
    }
    tb.push_tokens(tokens);
}

/// `segment`: reads characters of `pchar` for as long as they come. It
/// matches always, possibly nothing.
pub fn parse_segment(tb: &mut CharBuffer) -> (r: Result<Segment, EscapeError>)
    ensures
        seen(r) == segment_match(old(tb)@.stream).result,
        final(tb)@ == leaves(old(tb)@, segment_match(old(tb)@.stream)),
        match r {
            Ok(node) => node.wf() && kept_text(
                old(tb)@.stream,
                segment_match(old(tb)@.stream),
                node.text(),
            ),
            Err(_) => true,
        },
{
    let tokens = read_run(tb, CharClass::Pchar, None)?;
    proof {
        lemma_runs_valid(old(tb)@.stream, tokens@);
        lemma_segment_text(old(tb)@.stream, tokens@);
    }
    Ok(Segment(tokens))
}

/// `segment-nz`: as `segment`, but one character at least.
pub fn parse_segment_nz(tb: &mut CharBuffer) -> (r: Result<Option<Segment>, EscapeError>)
    ensures
        seen_if_any(r) == segment_nz_match(old(tb)@.stream).result,
        final(tb)@ == leaves(old(tb)@, segment_nz_match(old(tb)@.stream)),
        r == Ok::<Option<Segment>, EscapeError>(None) ==> final(tb)@.stream == old(tb)@.stream,
        match r {
            Ok(Some(node)) => node.wf() && kept_text(
                old(tb)@.stream,
                segment_nz_match(old(tb)@.stream),
                node.text(),
            ),
            _ => true,
        },
{
    proof {
        lemma_run_len(tb@.stream, CharClass::Pchar);
        assert(tb@.stream.skip(0) =~= tb@.stream);
    }
    let tokens = read_run(tb, CharClass::Pchar, None)?;
    if tokens.len() == 0 {
        Ok(None)
    } else {
        proof {
            lemma_runs_valid(old(tb)@.stream, tokens@);
            lemma_segment_nz_text(old(tb)@.stream, tokens@);
        }
        Ok(Some(Segment(tokens)))
    }
}

/// `segment-nz-nc`: as `segment-nz`, but a `:` ends it.
pub fn parse_segment_nz_nc(tb: &mut CharBuffer) -> (r: Result<Option<Segment>, EscapeError>)
    ensures
        seen_if_any(r) == segment_nz_nc_match(old(tb)@.stream).result,
        final(tb)@ == leaves(old(tb)@, segment_nz_nc_match(old(tb)@.stream)),
        r == Ok::<Option<Segment>, EscapeError>(None) ==> final(tb)@.stream == old(tb)@.stream,
        match r {
            Ok(Some(node)) => node.wf() && kept_text(
                old(tb)@.stream,
                segment_nz_nc_match(old(tb)@.stream),
                node.text(),
            ),
            _ => true,
        },
{
    proof {
        lemma_run_len(tb@.stream, CharClass::PcharNoColon);
        assert(tb@.stream.skip(0) =~= tb@.stream);
    }
    let tokens = read_run(tb, CharClass::PcharNoColon, None)?;
    if tokens.len() == 0 {
        Ok(None)
    } else {
        proof {
            lemma_runs_valid(old(tb)@.stream, tokens@);
            lemma_segment_nz_nc_text(old(tb)@.stream, tokens@);
        }
        Ok(Some(Segment(tokens)))
    }
}

/// `fragment`: reads characters of `pchar`, `/` and `?` for as long as
/// they come. It matches always, possibly nothing.
pub fn parse_fragment(tb: &mut CharBuffer) -> (r: Result<Fragment, EscapeError>)
    ensures
        seen(r) == fragment_match(old(tb)@.stream).result,
        final(tb)@ == leaves(old(tb)@, fragment_match(old(tb)@.stream)),
        match r {
            Ok(node) => node.wf() && kept_text(
                old(tb)@.stream,
                fragment_match(old(tb)@.stream),
                node.text(),
            ),
            Err(_) => true,
        },
{
    let tokens = read_run(tb, CharClass::QueryChar, None)?;
    proof {
        lemma_runs_valid(old(tb)@.stream, tokens@);
        lemma_fragment_text(old(tb)@.stream, tokens@);
    }
    Ok(Fragment(tokens))
}

/// `query`: matches what `fragment` matches.
pub fn parse_query(tb: &mut CharBuffer) -> (r: Result<Query, EscapeError>)
    ensures
        seen(r) == query_match(old(tb)@.stream).result,
        final(tb)@ == leaves(old(tb)@, query_match(old(tb)@.stream)),
        match r {
            Ok(node) => node.wf() && kept_text(
                old(tb)@.stream,
                query_match(old(tb)@.stream),
                node.text(),
            ),
            Err(_) => true,
        },
{
    let query = Query(parse_fragment(tb)?.0);
    proof {
        lemma_runs_valid(old(tb)@.stream, query@);
        lemma_query_text(old(tb)@.stream, query@);
    }
    Ok(query)
}

/// The value of up to three decimal digits.
fn decimal_value(digits: &Vec<Char>) -> (value: u32)
    requires
        digits.len() <= 3,
        forall|i: int| 0 <= i < digits.len() ==> (#[trigger] digits[i]).is_digit(),
    ensures
        value == decimal(digits@),
{
    let mut value: u32 = 0;
    let mut i: usize = 0;
    while i < digits.len()
        invariant
            i <= digits.len() <= 3,
            forall|j: int| 0 <= j < digits.len() ==> (#[trigger] digits[j]).is_digit(),
            value == decimal(digits@.take(i as int)),
            value < 1000,
            i < 3 ==> value < 100,
            i < 2 ==> value < 10,
            i < 1 ==> value == 0,
        decreases digits.len() - i,
    {
        let digit: u32 = match digits[i] {
            Char::Ascii(b) => (b - 48) as u32,
            Char::PctEncoded(_, _) => 0,
        };
        proof {
            assert(digits[i as int].is_digit());
            assert(digits@.take(i + 1).drop_last() =~= digits@.take(i as int));
        }
        value = value * 10 + digit;
        i = i + 1;
    }
    proof {
        assert(digits@.take(digits.len() as int) =~= digits@);
    }
    value
}

/// `dec-octet`: reads up to three digits, as many as come, and takes them
/// as a number. Where there is none, or the number is above 255, all of
/// them go back and nothing is matched.
pub fn parse_dec_octet(tb: &mut CharBuffer) -> (r: Result<Option<DecOctet>, EscapeError>)
    ensures
        seen_if_any(r) == dec_octet_match(old(tb)@.stream).result,
        final(tb)@ == leaves(old(tb)@, dec_octet_match(old(tb)@.stream)),
        r == Ok::<Option<DecOctet>, EscapeError>(None) ==> final(tb)@.stream == old(tb)@.stream,
        match r {
            Ok(Some(node)) => node.wf() && kept_text(
                old(tb)@.stream,
                dec_octet_match(old(tb)@.stream),
                node.text(),
            ),
            _ => true,
        },
{
    let ghost start = tb@;
    let ghost s = tb@.stream;
    let ghost found = run_match(s, CharClass::Digit, Some(3));
    proof {
        lemma_run_len(s, CharClass::Digit);
    }
    let tokens = read_run(tb, CharClass::Digit, Some(3))?;
    proof {
        assert(tokens@ == run(s, tokens.len() as nat));
        assert(items_of(tokens@) =~= s.take(tokens.len() as int));
        lemma_runs_valid(s, tokens@);
    }
    if tokens.len() > 0 && decimal_value(&tokens) <= 255 {
        proof {
            lemma_dec_octet_text(s, tokens@);
        }
        Ok(Some(DecOctet(tokens)))
    } else {
        unread_run(tb, tokens, Ghost(start), Ghost(found.reach));
        Ok(None)
    }
}

/// `h16` as this library has it: reads four hexadecimal digits. Where
/// fewer come, they go back and nothing is matched.
pub fn parse_h16(tb: &mut CharBuffer) -> (r: Result<Option<H16>, EscapeError>)
    ensures
        seen_if_any(r) == h16_match(old(tb)@.stream).result,
        final(tb)@ == leaves(old(tb)@, h16_match(old(tb)@.stream)),
        r == Ok::<Option<H16>, EscapeError>(None) ==> final(tb)@.stream == old(tb)@.stream,
        match r {
            Ok(Some(node)) => node.wf() && kept_text(
                old(tb)@.stream,
                h16_match(old(tb)@.stream),
                node.text(),
            ),
            _ => true,
        },
{
    let ghost start = tb@;
    let ghost s = tb@.stream;
    let ghost found = run_match(s, CharClass::HexDigit, Some(4));
    proof {
        lemma_run_len(s, CharClass::HexDigit);
    }
    let tokens = read_run(tb, CharClass::HexDigit, Some(4))?;
    proof {
        assert(tokens@ == run(s, tokens.len() as nat));
        assert(items_of(tokens@) =~= s.take(tokens.len() as int));
        lemma_runs_valid(s, tokens@);
    }
    if tokens.len() == 4 {
        let group = H16(tokens[0], tokens[1], tokens[2], tokens[3]);
        proof {
            assert(group@ =~= tokens@);
            lemma_h16_text(s, group@);
        }
        Ok(Some(group))
    } else {
        unread_run(tb, tokens, Ghost(start), Ghost(found.reach));
        Ok(None)
    }
}

/// Reads the one literal `byte`, and puts back any other character.
fn read_literal(tb: &mut CharBuffer, byte: u8) -> (r: Result<Option<Char>, EscapeError>)
    ensures
        r == literal_match(old(tb)@.stream, byte).result,
        final(tb)@ == leaves(old(tb)@, literal_match(old(tb)@.stream, byte)),
{
    let ghost start = tb@;
    proof {
        assert(start.stream.skip(0) =~= start.stream);
    }
    match tb.pop()? {
        Some(c) => {
            if c.is(byte) {
                Ok(Some(c))
            } else {
                tb.push(c);
                proof {
                    assert(items_of(seq![c]) =~= start.stream.subrange(0, 1));
                    start.lemma_after_unread(1, 1, seq![c]);
                }
                Ok(None)
            }
        },
        None => Ok(None),
    }
}

/// `*( "/" segment )`: reads a segment behind each `/` for as long as one
/// comes, and adds the segments to `segments`.
fn read_tail(tb: &mut CharBuffer, segments: &mut Vec<Segment>) -> (r: Result<(), EscapeError>)
    ensures
        final(tb)@ == leaves(old(tb)@, tail_match(old(tb)@.stream)),
        match r {
            Ok(()) => tail_match(old(tb)@.stream).result == Ok::<
                Option<Seq<Seq<Char>>>,
                EscapeError,
            >(Some(slash_pieces(run(old(tb)@.stream, tail_len(old(tb)@.stream)))))
                && segment_views(final(segments)@) == segment_views(old(segments)@)
                + slash_pieces(run(old(tb)@.stream, tail_len(old(tb)@.stream))),
            Err(e) => tail_match(old(tb)@.stream).result == Err::<
                Option<Seq<Seq<Char>>>,
                EscapeError,
            >(e),
        },
{
    let ghost start = tb@;
    let ghost s = tb@.stream;
    let ghost before = segment_views(segments@);
    let ghost mut pos: nat = 0;
    let ghost mut reach: nat = 0;
    proof {
        assert(start.after(0, 0).stream =~= s);
        assert(run(s, 0) =~= Seq::<Char>::empty());
        assert(before + slash_pieces(run(s, 0)) =~= before);
    }
    loop
        invariant
            start == old(tb)@,
            s == start.stream,
            before == segment_views(old(segments)@),
            pos <= reach <= s.len(),
            reach <= pos + 1,
            tb@ == start.after(reach, pos),
            forall|i: int| 0 <= i < pos ==> fits(#[trigger] s[i], CharClass::PathChar),
            pos > 0 ==> s[0] == Ok::<Char, EscapeError>(slash()),
            0 < pos < s.len() ==> !fits(s[pos as int], CharClass::Pchar),
            segment_views(segments@) == before + slash_pieces(run(s, pos)),
        decreases s.len() - pos,
    {
        let popped = tb.pop();
        proof {
            if pos < s.len() {
                start.lemma_after_after(reach, pos, 1, 1);
            }
            lemma_run_len_is(s, CharClass::PathChar, pos);
        }
        match popped {
            Ok(Some(c)) => {
                if c.is(SLASH) {
                    let ghost t = s.skip(pos as int + 1);
                    let ghost n = run_len(t, CharClass::Pchar);
                    let ghost here = tb@;
                    proof {
                        assert(here.stream =~= t);
                        lemma_run_len(t, CharClass::Pchar);
                        assert forall|i: int| 0 <= i < pos + 1 + n implies fits(
                            #[trigger] s[i],
                            CharClass::PathChar,
                        ) by {
                            if i > pos {
                                assert(s[i] == t[i - pos - 1]);
                            }
                        }
                        if pos + 1 + n < s.len() {
                            assert(s[pos as int + 1 + n as int] == t[n as int]);
                        }
                        lemma_run_len_is(s, CharClass::PathChar, pos + 1 + n);
                        start.lemma_after_after(
                            pos + 1,
                            pos + 1,
                            segment_match(t).reach,
                            segment_match(t).consumed,
                        );
                    }
                    let segment = parse_segment(tb)?;
                    proof {
                        let piece = segment@;
                        assert(piece == run(t, n));
                        assert(slash_free(piece)) by {
                            assert forall|i: int| 0 <= i < piece.len() implies #[trigger] piece[i]
                                != slash() by {
                                assert(fits(t[i], CharClass::Pchar));
                            }
                        }
                        let text = run(s, pos + 1 + n).skip(1);
                        if pos == 0 {
                            assert(text =~= piece);
                            lemma_split_one(piece);
                        } else {
                            assert(text =~= run(s, pos).skip(1) + seq![slash()] + piece);
                            lemma_split_push(run(s, pos).skip(1), piece);
                        }
                        assert(segment_views(segments@.push(segment)) =~= segment_views(
                            segments@,
                        ).push(piece));
                        assert(before + slash_pieces(run(s, pos)).push(piece) =~= (before
                            + slash_pieces(run(s, pos))).push(piece));
                        reach = pos + 1 + segment_match(t).reach;
                        pos = pos + 1 + n;
                    }
                    segments.push(segment);
                } else {
                    tb.push(c);
                    proof {
                        assert(items_of(seq![c]) =~= s.subrange(pos as int, pos as int + 1));
                        start.lemma_after_unread(pos + 1, pos + 1, seq![c]);
                    }
                    return Ok(());
                }
            },
            Ok(None) => {
                return Ok(());
            },
            Err(e) => {
                return Err(e);
            },
        }
    }
}

/// `path-abempty`: reads a segment behind each `/` for as long as one
/// comes. It matches always: nothing as the path without segments, and
/// anything else as an absolute path.
pub fn parse_path_abempty(tb: &mut CharBuffer) -> (r: Result<Option<Path>, EscapeError>)
    ensures
        seen_if_any(r) == path_abempty_match(old(tb)@.stream).result,
        final(tb)@ == leaves(old(tb)@, path_abempty_match(old(tb)@.stream)),
        r is Ok ==> r->Ok_0 is Some,
        match r {
            Ok(Some(node)) => node.wf() && kept_text(
                old(tb)@.stream,
                path_abempty_match(old(tb)@.stream),
                node.text(),
            ),
            _ => true,
        },
{
    let mut segments: Vec<Segment> = Vec::new();
    assert(segment_views(segments@) =~= Seq::<Seq<Char>>::empty());
    read_tail(tb, &mut segments)?;
    let path = Path { absolute: segments.len() > 0, segments };
    proof {
        let pieces = slash_pieces(run(old(tb)@.stream, tail_len(old(tb)@.stream)));
        assert(path@.segments =~= pieces);
        lemma_paths_valid(old(tb)@.stream, path@);
        lemma_path_abempty_text(old(tb)@.stream, path@);
    }
    Ok(Some(path))
}

/// A first segment, then a segment behind each `/` for as long as one
/// comes.
fn read_segments(tb: &mut CharBuffer, first: Segment, Ghost(start): Ghost<BufferView>, Ghost(
    head,
): Ghost<Match<Seq<Char>>>) -> (r: Result<Path, EscapeError>)
    requires
        head.result == Ok::<Option<Seq<Char>>, EscapeError>(Some(first@)),
        head.consumed <= head.reach <= start.stream.len(),
        old(tb)@ == leaves(start, head),
    ensures
        seen(r) == as_path(
            and_then(head, tail_match(start.stream.skip(head.consumed as int))),
        ).result,
        final(tb)@ == leaves(
            start,
            as_path(and_then(head, tail_match(start.stream.skip(head.consumed as int)))),
        ),
{
    let ghost t = start.stream.skip(head.consumed as int);
    let mut segments: Vec<Segment> = Vec::new();
    segments.push(first);
    proof {
        assert(segment_views(segments@) =~= seq![first@]);
        lemma_run_len(t, CharClass::PathChar);
        start.lemma_after_after(
            head.reach,
            head.consumed,
            tail_match(t).reach,
            tail_match(t).consumed,
        );
    }
    read_tail(tb, &mut segments)?;
    Ok(Path { segments, absolute: false })
}

/// `path-rootless`: a segment that is not empty, then a segment behind
/// each `/` for as long as one comes.
pub fn parse_path_rootless(tb: &mut CharBuffer) -> (r: Result<Option<Path>, EscapeError>)
    ensures
        seen_if_any(r) == path_rootless_match(old(tb)@.stream).result,
        final(tb)@ == leaves(old(tb)@, path_rootless_match(old(tb)@.stream)),
        r == Ok::<Option<Path>, EscapeError>(None) ==> final(tb)@.stream == old(tb)@.stream,
        match r {
            Ok(Some(node)) => node.wf() && kept_text(
                old(tb)@.stream,
                path_rootless_match(old(tb)@.stream),
                node.text(),
            ),
            _ => true,
        },
{
    let ghost start = tb@;
    proof {
        lemma_run_len(start.stream, CharClass::Pchar);
    }
    match parse_segment_nz(tb)? {
        Some(first) => {
            let path = read_segments(
                tb,
                first,
                Ghost(start),
                Ghost(segment_nz_match(start.stream)),
            )?;
            proof {
                lemma_paths_valid(start.stream, path@);
                lemma_path_rootless_text(start.stream, path@);
            }
            Ok(Some(path))
        },
        None => Ok(None),
    }
}

/// `path-noscheme`: a segment without `:` that is not empty, then a
/// segment behind each `/` for as long as one comes.
pub fn parse_path_noscheme(tb: &mut CharBuffer) -> (r: Result<Option<Path>, EscapeError>)
    ensures
        seen_if_any(r) == path_noscheme_match(old(tb)@.stream).result,
        final(tb)@ == leaves(old(tb)@, path_noscheme_match(old(tb)@.stream)),
        r == Ok::<Option<Path>, EscapeError>(None) ==> final(tb)@.stream == old(tb)@.stream,
        match r {
            Ok(Some(node)) => node.wf() && kept_text(
                old(tb)@.stream,
                path_noscheme_match(old(tb)@.stream),
                node.text(),
            ),
            _ => true,
        },
{
    let ghost start = tb@;
    proof {
        lemma_run_len(start.stream, CharClass::PcharNoColon);
    }
    match parse_segment_nz_nc(tb)? {
        Some(first) => {
            let path = read_segments(
                tb,
                first,
                Ghost(start),
                Ghost(segment_nz_nc_match(start.stream)),
            )?;
            proof {
                lemma_paths_valid(start.stream, path@);
                lemma_path_noscheme_text(start.stream, path@);
            }
            Ok(Some(path))
        },
        None => Ok(None),
    }
}

/// The path with one segment, which is empty.
fn empty_segment_path(absolute: bool) -> (path: Path)
    ensures
        path@ == one_empty_segment(absolute),
{
    let mut segments: Vec<Segment> = Vec::new();
    segments.push(Segment(Vec::new()));
    let path = Path { segments, absolute };
    assert(path@.segments =~= seq![Seq::<Char>::empty()]);
    path
}

/// `path-absolute`: a `/`, then what `path-rootless` matches, if it
/// matches; if not, the path has one empty segment.
pub fn parse_path_absolute(tb: &mut CharBuffer) -> (r: Result<Option<Path>, EscapeError>)
    ensures
        seen_if_any(r) == path_absolute_match(old(tb)@.stream).result,
        final(tb)@ == leaves(old(tb)@, path_absolute_match(old(tb)@.stream)),
        r == Ok::<Option<Path>, EscapeError>(None) ==> final(tb)@.stream == old(tb)@.stream,
        match r {
            Ok(Some(node)) => node.wf() && kept_text(
                old(tb)@.stream,
                path_absolute_match(old(tb)@.stream),
                node.text(),
            ),
            _ => true,
        },
{
    let ghost start = tb@;
    let ghost t = start.stream.skip(1);
    proof {
        assert(start.stream.skip(0) =~= start.stream);
    }
    match read_literal(tb, SLASH)? {
        Some(_) => {
            proof {
                lemma_path_rootless_bounds(t);
                start.lemma_after_after(
                    1,
                    1,
                    path_rootless_match(t).reach,
                    path_rootless_match(t).consumed,
                );
            }
            let path = match parse_path_rootless(tb)? {
                Some(rootless) => Path { segments: rootless.segments, absolute: true },
                None => empty_segment_path(true),
            };
            proof {
                lemma_paths_valid(start.stream, path@);
                lemma_path_absolute_text(start.stream, path@);
            }
            Ok(Some(path))
        },
        None => Ok(None),
    }
}

/// `path-empty`: looks at the next character and takes nothing. It matches
/// the path without segments where there is no next character, or one
/// that is no `pchar`.
pub fn parse_path_empty(tb: &mut CharBuffer) -> (r: Result<Option<Path>, EscapeError>)
    ensures
        seen_if_any(r) == path_empty_match(old(tb)@.stream).result,
        final(tb)@ == leaves(old(tb)@, path_empty_match(old(tb)@.stream)),
        r is Ok ==> final(tb)@.stream == old(tb)@.stream,
        match r {
            Ok(Some(node)) => node.wf() && kept_text(
                old(tb)@.stream,
                path_empty_match(old(tb)@.stream),
                node.text(),
            ),
            _ => true,
        },
{
    let ghost start = tb@;
    proof {
        assert(start.stream.skip(0) =~= start.stream);
    }
    match tb.pop()? {
        Some(c) => {
            let is_pchar = c.is_pchar();
            tb.push(c);
            proof {
                assert(items_of(seq![c]) =~= start.stream.subrange(0, 1));
                start.lemma_after_unread(1, 1, seq![c]);
            }
            if is_pchar {
                Ok(None)
            } else {
                let path = Path { segments: Vec::new(), absolute: false };
                assert(path@.segments =~= no_segments().segments);
                proof {
                    lemma_paths_valid(start.stream, path@);
                    lemma_path_empty_text(start.stream, path@);
                }
                Ok(Some(path))
            }
        },
        None => {
            let path = Path { segments: Vec::new(), absolute: false };
            assert(path@.segments =~= no_segments().segments);
            proof {
                lemma_paths_valid(start.stream, path@);
                lemma_path_empty_text(start.stream, path@);
            }
            Ok(Some(path))
        },
    }
}

/// `path`: what `path-absolute` matches, else what `path-rootless`
/// matches, else the path with one empty segment that is not absolute. It
/// matches always.
pub fn parse_path(tb: &mut CharBuffer) -> (r: Result<Path, EscapeError>)
    ensures
        seen(r) == path_match(old(tb)@.stream).result,
        final(tb)@ == leaves(old(tb)@, path_match(old(tb)@.stream)),
        match r {
            Ok(node) => node.wf() && kept_text(
                old(tb)@.stream,
                path_match(old(tb)@.stream),
                node.text(),
            ),
            Err(_) => true,
        },
{
    let ghost start = tb@;
    proof {
        lemma_path_absolute_bounds(start.stream);
        lemma_path_rootless_bounds(start.stream);
        start.lemma_after_after(
            path_absolute_match(start.stream).reach,
            0,
            path_rootless_match(start.stream).reach,
            path_rootless_match(start.stream).consumed,
        );
    }
    let path = if let Some(path) = parse_path_absolute(tb)? {
        path
    } else if let Some(path) = parse_path_rootless(tb)? {
        path
    } else {
        empty_segment_path(false)
    };
    proof {
        lemma_paths_valid(start.stream, path@);
        lemma_path_text(start.stream, path@);
    }
    Ok(path)
}

/// `count` parts with a `.` between each two. Where one of them is
/// missing, everything that was read goes back.
fn read_dotted(tb: &mut CharBuffer, count: usize) -> (r: Result<Option<Vec<DecOctet>>, EscapeError>)
    requires
        count >= 1,
    ensures
        match r {
            Ok(Some(octets)) => dotted_match(old(tb)@.stream, count as nat).result == Ok::<
                Option<Seq<Seq<Char>>>,
                EscapeError,
            >(Some(octet_views(octets@))),
            Ok(None) => dotted_match(old(tb)@.stream, count as nat).result == Ok::<
                Option<Seq<Seq<Char>>>,
                EscapeError,
            >(None),
            Err(e) => dotted_match(old(tb)@.stream, count as nat).result == Err::<
                Option<Seq<Seq<Char>>>,
                EscapeError,
            >(e),
        },
        final(tb)@ == leaves(old(tb)@, dotted_match(old(tb)@.stream, count as nat)),
    decreases count,
{
    let ghost start = tb@;
    let ghost s = start.stream;
    let ghost first = dec_octet_match(s);
    let ghost t = s.skip(first.consumed as int);
    let ghost dot = literal_match(t, DOT);
    let ghost u = t.skip(dot.consumed as int);
    proof {
        lemma_dec_octet_bounds(s);
    }
    let head = match parse_dec_octet(tb)? {
        Some(octet) => octet,
        None => {
            return Ok(None);
        },
    };
    if count <= 1 {
        let mut octets: Vec<DecOctet> = Vec::new();
        octets.push(head);
        assert(octet_views(octets@) =~= seq![head@]);
        return Ok(Some(octets));
    }
    proof {
        start.lemma_after_after(first.reach, first.consumed, dot.reach, dot.consumed);
    }
    let point = match read_literal(tb, DOT)? {
        Some(c) => c,
        None => {
            proof {
                start.lemma_after_unread(
                    if first.reach > first.consumed + dot.reach {
                        first.reach
                    } else {
                        first.consumed + dot.reach
                    },
                    first.consumed,
                    head@,
                );
            }
            tb.push_tokens(head.0);
            return Ok(None);
        },
    };
    let ghost rest = dotted_match(u, (count - 1) as nat);
    let ghost inner = and_then(dot, rest);
    let ghost reach = if first.reach > first.consumed + inner.reach {
        first.reach
    } else {
        first.consumed + inner.reach
    };
    proof {
        lemma_dotted_bounds(u, (count - 1) as nat);
        leaves(start, first).lemma_after_after(1, 1, rest.reach, rest.consumed);
        start.lemma_after_after(first.reach, first.consumed, inner.reach, 1 + rest.consumed);
    }
    match read_dotted(tb, count - 1)? {
        Some(mut octets) => {
            proof {
                assert(octet_views(octets@.insert(0, head)) =~= seq![head@] + octet_views(
                    octets@,
                ));
            }
            octets.insert(0, head);
            Ok(Some(octets))
        },
        None => {
            proof {
                assert(items_of(seq![point]) =~= s.subrange(
                    first.consumed as int,
                    first.consumed as int + 1,
                ));
                start.lemma_after_unread(reach, first.consumed + 1, seq![point]);
                start.lemma_after_unread(reach, first.consumed, head@);
            }
            tb.push(point);
            tb.push_tokens(head.0);
            Ok(None)
        },
    }
}

/// `IPv4address`: four parts with a `.` between each two. Where one of
/// them is missing, everything that was read goes back: no part of an
/// address is ever returned.
pub fn parse_ipv4_address(tb: &mut CharBuffer) -> (r: Result<Option<Ipv4address>, EscapeError>)
    ensures
        seen_if_any(r) == ipv4_match(old(tb)@.stream).result,
        final(tb)@ == leaves(old(tb)@, ipv4_match(old(tb)@.stream)),
        r == Ok::<Option<Ipv4address>, EscapeError>(None) ==> final(tb)@.stream == old(
            tb,
        )@.stream,
        match r {
            Ok(Some(node)) => node.wf() && kept_text(
                old(tb)@.stream,
                ipv4_match(old(tb)@.stream),
                node.text(),
            ),
            _ => true,
        },
{
    proof {
        lemma_dotted_bounds(tb@.stream, 4);
        assert(tb@.stream.skip(0) =~= tb@.stream);
    }
    match read_dotted(tb, 4)? {
        Some(mut octets) => {
            let ghost all = octets@;
            let d4 = octets.pop().unwrap();
            let d3 = octets.pop().unwrap();
            let d2 = octets.pop().unwrap();
            let d1 = octets.pop().unwrap();
            let address = Ipv4address(d1, d2, d3, d4);
            proof {
                assert(address@ =~= octet_views(all));
                lemma_ipv4_valid(old(tb)@.stream, address@);
                lemma_ipv4_text(old(tb)@.stream, address@);
            }
            Ok(Some(address))
        },
        None => Ok(None),
    }
}

} // verus!
