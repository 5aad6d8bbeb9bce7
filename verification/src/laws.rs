//! Laws of matching and writing. For every production: what it matches is
//! valid; a node is written as the text that it was matched from; and
//! matching what a node is written as gives the node again.

use crate::char_buf::{Char, DOT};
use crate::decode::{decode, stream_wf, EscapeError, Item};
use crate::grammar::{
    all_in, dec_octet_len, dec_octet_match, dotted_match, fragment_match, h16_match, ipv4_match,
    ipv4_text, ipv4_valid, is_dec_octet, join, kept_text, literal_match, matched,
    path_abempty_match, path_absolute_match, path_empty_match, path_match, path_noscheme_match,
    path_rootless_match, path_text, path_valid, query_match, run, run_len, run_nz_match,
    segment_match, segment_nz_match, segment_nz_nc_match, segments_match, slash, tail_len,
    tail_match, CharClass, Match, PathView,
};
use crate::lemmas::{
    lemma_chars_concat, lemma_dec_octet_bounds, lemma_dotted_bounds, lemma_join_front,
    lemma_join_split, lemma_path_absolute_bounds, lemma_reread, lemma_run_alone, lemma_run_len,
    lemma_run_len_take, lemma_run_valid, lemma_split_pieces, lemma_split_valid,
};
use crate::text::text_of;
use vstd::prelude::*;

verus! {

/// Whether an attempt is faithful to a text: what it has kept is this
/// text, and the attempt on the items that it has kept, with nothing
/// behind them, has the same outcome.
spec fn faithful<V>(s: Seq<Item>, found: Match<V>, alone: Match<V>, text: Seq<Char>) -> bool {
    &&& kept_text(s, found, text)
    &&& alone.result == found.result
}

/// `segment` is faithful to the segment that it matches.
proof fn lemma_segment_faithful(s: Seq<Item>, segment: Seq<Char>)
    requires
        matched(segment_match(s), segment),
    ensures
        faithful(
            s,
            segment_match(s),
            segment_match(s.take(segment_match(s).consumed as int)),
            segment,
        ),
{
    lemma_run_alone(s, CharClass::Pchar, run_len(s, CharClass::Pchar));
}

/// A segment is written as the text that it was matched from.
pub proof fn lemma_segment_text(s: Seq<Item>, segment: Seq<Char>)
    requires
        matched(segment_match(s), segment),
    ensures
        kept_text(s, segment_match(s), segment),
{
    lemma_segment_faithful(s, segment);
}

/// Writing out a segment that was matched and matching `segment` on what
/// was written gives the same segment.
pub proof fn lemma_segment_round_trip(s: Seq<Item>, segment: Seq<Char>)
    requires
        stream_wf(s),
        matched(segment_match(s), segment),
    ensures
        matched(segment_match(decode(text_of(segment))), segment),
{
    lemma_segment_faithful(s, segment);
    lemma_reread(s, segment_match(s).consumed);
}

/// A run that may not be empty is matched faithfully.
proof fn lemma_run_nz_faithful(s: Seq<Item>, class: CharClass, chars: Seq<Char>)
    requires
        matched(run_nz_match(s, class), chars),
    ensures
        faithful(
            s,
            run_nz_match(s, class),
            run_nz_match(s.take(run_nz_match(s, class).consumed as int), class),
            chars,
        ),
{
    lemma_run_alone(s, class, run_len(s, class));
}

/// A segment that `segment-nz` has matched is written as the text that it
/// was matched from.
pub proof fn lemma_segment_nz_text(s: Seq<Item>, segment: Seq<Char>)
    requires
        matched(segment_nz_match(s), segment),
    ensures
        kept_text(s, segment_nz_match(s), segment),
{
    lemma_run_nz_faithful(s, CharClass::Pchar, segment);
}

/// Writing out a segment that `segment-nz` has matched and matching
/// `segment-nz` on what was written gives the same segment.
pub proof fn lemma_segment_nz_round_trip(s: Seq<Item>, segment: Seq<Char>)
    requires
        stream_wf(s),
        matched(segment_nz_match(s), segment),
    ensures
        matched(segment_nz_match(decode(text_of(segment))), segment),
{
    lemma_run_nz_faithful(s, CharClass::Pchar, segment);
    lemma_reread(s, segment_nz_match(s).consumed);
}

/// A segment that `segment-nz-nc` has matched is written as the text that
/// it was matched from.
pub proof fn lemma_segment_nz_nc_text(s: Seq<Item>, segment: Seq<Char>)
    requires
        matched(segment_nz_nc_match(s), segment),
    ensures
        kept_text(s, segment_nz_nc_match(s), segment),
{
    lemma_run_nz_faithful(s, CharClass::PcharNoColon, segment);
}

/// Writing out a segment that `segment-nz-nc` has matched and matching
/// `segment-nz-nc` on what was written gives the same segment.
pub proof fn lemma_segment_nz_nc_round_trip(s: Seq<Item>, segment: Seq<Char>)
    requires
        stream_wf(s),
        matched(segment_nz_nc_match(s), segment),
    ensures
        matched(segment_nz_nc_match(decode(text_of(segment))), segment),
{
    lemma_run_nz_faithful(s, CharClass::PcharNoColon, segment);
    lemma_reread(s, segment_nz_nc_match(s).consumed);
}

/// `fragment` is faithful to the fragment that it matches.
proof fn lemma_fragment_faithful(s: Seq<Item>, fragment: Seq<Char>)
    requires
        matched(fragment_match(s), fragment),
    ensures
        faithful(
            s,
            fragment_match(s),
            fragment_match(s.take(fragment_match(s).consumed as int)),
            fragment,
        ),
{
    lemma_run_alone(s, CharClass::QueryChar, run_len(s, CharClass::QueryChar));
}

/// A fragment is written as the text that it was matched from.
pub proof fn lemma_fragment_text(s: Seq<Item>, fragment: Seq<Char>)
    requires
        matched(fragment_match(s), fragment),
    ensures
        kept_text(s, fragment_match(s), fragment),
{
    lemma_fragment_faithful(s, fragment);
}

/// Writing out a fragment that was matched and matching `fragment` on what
/// was written gives the same fragment.
pub proof fn lemma_fragment_round_trip(s: Seq<Item>, fragment: Seq<Char>)
    requires
        stream_wf(s),
        matched(fragment_match(s), fragment),
    ensures
        matched(fragment_match(decode(text_of(fragment))), fragment),
{
    lemma_fragment_faithful(s, fragment);
    lemma_reread(s, fragment_match(s).consumed);
}

/// A query is written as the text that it was matched from.
pub proof fn lemma_query_text(s: Seq<Item>, query: Seq<Char>)
    requires
        matched(query_match(s), query),
    ensures
        kept_text(s, query_match(s), query),
{
    lemma_fragment_faithful(s, query);
}

/// Writing out a query that was matched and matching `query` on what was
/// written gives the same query.
pub proof fn lemma_query_round_trip(s: Seq<Item>, query: Seq<Char>)
    requires
        stream_wf(s),
        matched(query_match(s), query),
    ensures
        matched(query_match(decode(text_of(query))), query),
{
    lemma_fragment_round_trip(s, query);
}

/// What the productions that take one run of characters match is valid:
/// the characters of a segment are `pchar`, and one at least where the
/// production asks for it; those of a query or a fragment are `pchar`, `/`
/// or `?`; a part of an address is one to three digits with a value of 255
/// at most; and a group is four hexadecimal digits.
pub proof fn lemma_runs_valid(s: Seq<Item>, chars: Seq<Char>)
    ensures
        matched(segment_match(s), chars) ==> all_in(chars, CharClass::Pchar),
        matched(segment_nz_match(s), chars) ==> all_in(chars, CharClass::Pchar) && chars.len()
            > 0,
        matched(segment_nz_nc_match(s), chars) ==> all_in(chars, CharClass::PcharNoColon)
            && chars.len() > 0,
        matched(fragment_match(s), chars) ==> all_in(chars, CharClass::QueryChar),
        matched(query_match(s), chars) ==> all_in(chars, CharClass::QueryChar),
        matched(dec_octet_match(s), chars) ==> is_dec_octet(chars),
        matched(h16_match(s), chars) ==> all_in(chars, CharClass::HexDigit) && chars.len() == 4,
{
    lemma_run_len(s, CharClass::Pchar);
    lemma_run_len(s, CharClass::PcharNoColon);
    lemma_run_len(s, CharClass::QueryChar);
    lemma_run_len(s, CharClass::HexDigit);
    lemma_run_valid(s, CharClass::Pchar, run_len(s, CharClass::Pchar));
    lemma_run_valid(s, CharClass::PcharNoColon, run_len(s, CharClass::PcharNoColon));
    lemma_run_valid(s, CharClass::QueryChar, run_len(s, CharClass::QueryChar));
    if run_len(s, CharClass::HexDigit) >= 4 {
        lemma_run_valid(s, CharClass::HexDigit, 4);
    }
}

/// `h16` is faithful to the group that it matches.
proof fn lemma_h16_faithful(s: Seq<Item>, group: Seq<Char>)
    requires
        matched(h16_match(s), group),
    ensures
        faithful(s, h16_match(s), h16_match(s.take(h16_match(s).consumed as int)), group),
{
    lemma_run_alone(s, CharClass::HexDigit, 4);
}

/// A group of four hexadecimal digits is written as the text that it was
/// matched from.
pub proof fn lemma_h16_text(s: Seq<Item>, group: Seq<Char>)
    requires
        matched(h16_match(s), group),
    ensures
        kept_text(s, h16_match(s), group),
{
    lemma_h16_faithful(s, group);
}

/// Writing out a group that `h16` has matched and matching `h16` on what
/// was written gives the same group.
pub proof fn lemma_h16_round_trip(s: Seq<Item>, group: Seq<Char>)
    requires
        stream_wf(s),
        matched(h16_match(s), group),
    ensures
        matched(h16_match(decode(text_of(group))), group),
{
    lemma_h16_faithful(s, group);
    lemma_reread(s, 4);
}

/// `dec-octet` keeps the digits that it matches, and matches the same
/// digits on any front of the stream that holds them.
proof fn lemma_dec_octet_front(s: Seq<Item>, octet: Seq<Char>, k: nat)
    requires
        matched(dec_octet_match(s), octet),
        dec_octet_match(s).consumed <= k <= s.len(),
    ensures
        kept_text(s, dec_octet_match(s), octet),
        matched(dec_octet_match(s.take(k as int)), octet),
        dec_octet_match(s.take(k as int)).consumed == dec_octet_match(s).consumed,
{
    let n = dec_octet_len(s);
    lemma_run_alone(s, CharClass::Digit, n);
    lemma_run_len_take(s, CharClass::Digit, k);
    assert(s.take(k as int).take(n as int) =~= s.take(n as int));
}

/// A part of an address is written as the text that it was matched from.
pub proof fn lemma_dec_octet_text(s: Seq<Item>, octet: Seq<Char>)
    requires
        matched(dec_octet_match(s), octet),
    ensures
        kept_text(s, dec_octet_match(s), octet),
{
    lemma_dec_octet_bounds(s);
    lemma_dec_octet_front(s, octet, dec_octet_match(s).consumed);
}

/// Writing out a part that `dec-octet` has matched and matching
/// `dec-octet` on what was written gives the same part.
pub proof fn lemma_dec_octet_round_trip(s: Seq<Item>, octet: Seq<Char>)
    requires
        stream_wf(s),
        matched(dec_octet_match(s), octet),
    ensures
        matched(dec_octet_match(decode(text_of(octet))), octet),
{
    lemma_dec_octet_bounds(s);
    lemma_dec_octet_front(s, octet, dec_octet_match(s).consumed);
    lemma_reread(s, dec_octet_match(s).consumed);
}

/// Where two parts or more are matched, the first is matched, a `.`
/// follows it, and the others are matched behind the `.`.
proof fn lemma_dotted_unfold(s: Seq<Item>, count: nat, parts: Seq<Seq<Char>>)
    requires
        count >= 2,
        matched(dotted_match(s, count), parts),
    ensures
        parts.len() >= 1,
        matched(dec_octet_match(s), parts[0]),
        dec_octet_match(s).consumed < s.len(),
        s[dec_octet_match(s).consumed as int] == Ok::<Char, EscapeError>(Char::Ascii(DOT)),
        matched(
            dotted_match(s.skip(dec_octet_match(s).consumed as int + 1), (count - 1) as nat),
            parts.skip(1),
        ),
        dotted_match(s, count).consumed == dec_octet_match(s).consumed + 1 + dotted_match(
            s.skip(dec_octet_match(s).consumed as int + 1),
            (count - 1) as nat,
        ).consumed,
{
    let head = dec_octet_match(s);
    let t = s.skip(head.consumed as int);
    let point = literal_match(t, DOT);
    let rest = dotted_match(t.skip(point.consumed as int), (count - 1) as nat);
    lemma_dec_octet_bounds(s);
    assert(head.result is Ok && head.result->Ok_0 is Some);
    assert(point.result is Ok && point.result->Ok_0 is Some);
    assert(rest.result is Ok && rest.result->Ok_0 is Some);
    assert(point.consumed == 1);
    assert(t[0] == s[head.consumed as int]);
    assert(t.skip(1) =~= s.skip(head.consumed as int + 1));
    let first = head.result->Ok_0->Some_0;
    let others = rest.result->Ok_0->Some_0;
    assert(parts == seq![first] + others);
    assert(parts.skip(1) =~= others);
}

/// Where a part is matched, a `.` follows it, and parts are matched
/// behind the `.`, all of them are matched together.
proof fn lemma_dotted_fold(s: Seq<Item>, count: nat, first: Seq<Char>, others: Seq<Seq<Char>>)
    requires
        count >= 2,
        matched(dec_octet_match(s), first),
        dec_octet_match(s).consumed < s.len(),
        s[dec_octet_match(s).consumed as int] == Ok::<Char, EscapeError>(Char::Ascii(DOT)),
        matched(
            dotted_match(s.skip(dec_octet_match(s).consumed as int + 1), (count - 1) as nat),
            others,
        ),
    ensures
        matched(dotted_match(s, count), seq![first] + others),
{
    let head = dec_octet_match(s);
    let t = s.skip(head.consumed as int);
    let point = literal_match(t, DOT);
    assert(t[0] == s[head.consumed as int]);
    assert(point.consumed == 1);
    assert(t.skip(1) =~= s.skip(head.consumed as int + 1));
}

/// Each of the parts that were matched is one to three digits with a
/// value of 255 at most.
proof fn lemma_dotted_valid(s: Seq<Item>, count: nat, parts: Seq<Seq<Char>>)
    requires
        count >= 1,
        matched(dotted_match(s, count), parts),
    ensures
        parts.len() == count,
        forall|k: int| 0 <= k < parts.len() ==> is_dec_octet(#[trigger] parts[k]),
    decreases count,
{
    lemma_dotted_bounds(s, count);
    if count == 1 {
        let first = dec_octet_match(s).result->Ok_0->Some_0;
        assert(parts =~= seq![first]);
    } else {
        lemma_dotted_unfold(s, count, parts);
        let u = s.skip(dec_octet_match(s).consumed as int + 1);
        lemma_dotted_valid(u, (count - 1) as nat, parts.skip(1));
        assert forall|k: int| 0 <= k < parts.len() implies is_dec_octet(#[trigger] parts[k]) by {
            if k > 0 {
                assert(parts[k] == parts.skip(1)[k - 1]);
            }
        }
    }
}

/// Parts with a `.` between each two are written as the text that they
/// were matched from.
proof fn lemma_dotted_text(s: Seq<Item>, count: nat, parts: Seq<Seq<Char>>)
    requires
        count >= 1,
        matched(dotted_match(s, count), parts),
    ensures
        kept_text(s, dotted_match(s, count), join(parts, Char::Ascii(DOT))),
    decreases count,
{
    let dot = Char::Ascii(DOT);
    let head = dec_octet_match(s);
    lemma_dec_octet_bounds(s);
    if count == 1 {
        let first = head.result->Ok_0->Some_0;
        lemma_dec_octet_front(s, first, head.consumed);
        assert(parts =~= seq![first]);
    } else {
        lemma_dotted_unfold(s, count, parts);
        let first = parts[0];
        let others = parts.skip(1);
        let n = head.consumed;
        let t = s.skip(n as int);
        let u = s.skip(n as int + 1);
        let rest = dotted_match(u, (count - 1) as nat);
        lemma_dotted_text(u, (count - 1) as nat, others);
        lemma_dotted_valid(u, (count - 1) as nat, others);
        lemma_dec_octet_front(s, first, n);
        assert(parts =~= seq![first] + others);
        lemma_join_front(first, others, dot);
        assert(t[0] == s[n as int]);
        assert(t.skip(1) =~= u);
        assert(run(t, 1) =~= seq![dot]);
        lemma_chars_concat(t, 1, rest.consumed);
        lemma_chars_concat(s, n, 1 + rest.consumed);
        assert(first + (seq![dot] + run(u, rest.consumed)) =~= first + seq![dot] + run(
            u,
            rest.consumed,
        ));
    }
}

/// Parts with a `.` between each two are matched again on the items that
/// they were matched from, with nothing behind them.
proof fn lemma_dotted_alone(s: Seq<Item>, count: nat, parts: Seq<Seq<Char>>)
    requires
        count >= 1,
        matched(dotted_match(s, count), parts),
    ensures
        matched(dotted_match(s.take(dotted_match(s, count).consumed as int), count), parts),
    decreases count,
{
    let head = dec_octet_match(s);
    let total = dotted_match(s, count).consumed;
    let front = s.take(total as int);
    lemma_dotted_bounds(s, count);
    if count == 1 {
        let first = head.result->Ok_0->Some_0;
        lemma_dec_octet_front(s, first, total);
        assert(parts =~= seq![first]);
    } else {
        lemma_dotted_unfold(s, count, parts);
        let first = parts[0];
        let others = parts.skip(1);
        let n = head.consumed;
        let u = s.skip(n as int + 1);
        let rest = dotted_match(u, (count - 1) as nat);
        lemma_dotted_bounds(u, (count - 1) as nat);
        lemma_dotted_alone(u, (count - 1) as nat, others);
        lemma_dec_octet_front(s, first, total);
        assert(front[n as int] == s[n as int]);
        assert(front.skip(n as int + 1) =~= u.take(rest.consumed as int));
        lemma_dotted_fold(front, count, first, others);
        assert(parts =~= seq![first] + others);
    }
}

/// The parts of an address that was matched are four, each of them one to
/// three digits with a value of 255 at most.
pub proof fn lemma_ipv4_valid(s: Seq<Item>, address: Seq<Seq<Char>>)
    requires
        matched(ipv4_match(s), address),
    ensures
        ipv4_valid(address),
{
    lemma_dotted_valid(s, 4, address);
}

/// An address is written as the text that it was matched from.
pub proof fn lemma_ipv4_text(s: Seq<Item>, address: Seq<Seq<Char>>)
    requires
        matched(ipv4_match(s), address),
    ensures
        kept_text(s, ipv4_match(s), ipv4_text(address)),
{
    lemma_dotted_text(s, 4, address);
}

/// Writing out an address that was matched and matching `IPv4address` on
/// what was written gives the same address.
pub proof fn lemma_ipv4_round_trip(s: Seq<Item>, address: Seq<Seq<Char>>)
    requires
        stream_wf(s),
        matched(ipv4_match(s), address),
    ensures
        matched(ipv4_match(decode(text_of(ipv4_text(address)))), address),
{
    lemma_dotted_text(s, 4, address);
    lemma_dotted_alone(s, 4, address);
    lemma_reread(s, ipv4_match(s).consumed);
}

/// The segments behind the first are written, each behind a `/`, as the
/// text that they were matched from, and are matched again on the items
/// that they were matched from, with nothing behind them.
proof fn lemma_tail_faithful(s: Seq<Item>, pieces: Seq<Seq<Char>>)
    requires
        matched(tail_match(s), pieces),
    ensures
        faithful(
            s,
            tail_match(s),
            tail_match(s.take(tail_len(s) as int)),
            if pieces.len() == 0 {
                Seq::<Char>::empty()
            } else {
                seq![slash()] + join(pieces, slash())
            },
        ),
        tail_match(s).consumed == tail_len(s),
        pieces.len() == 0 <==> tail_len(s) == 0,
{
    let n = tail_len(s);
    let front = s.take(n as int);
    if n == 0 {
        assert(run(s, 0) =~= Seq::<Char>::empty());
        assert(run(front, 0) =~= Seq::<Char>::empty());
    } else {
        lemma_run_alone(s, CharClass::PathChar, n);
        let text = run(s, n);
        lemma_split_pieces(text.skip(1));
        lemma_join_split(text.skip(1));
        assert(seq![slash()] + text.skip(1) =~= text);
        assert(front[0] == s[0]);
    }
}

/// The segments behind the first are made of `pchar`.
proof fn lemma_tail_valid(s: Seq<Item>, pieces: Seq<Seq<Char>>)
    requires
        matched(tail_match(s), pieces),
    ensures
        forall|k: int| 0 <= k < pieces.len() ==> all_in(#[trigger] pieces[k], CharClass::Pchar),
{
    let n = tail_len(s);
    if n > 0 {
        lemma_run_len(s, CharClass::PathChar);
        lemma_run_valid(s, CharClass::PathChar, n);
        let text = run(s, n);
        assert(all_in(text.skip(1), CharClass::PathChar)) by {
            assert forall|i: int| 0 <= i < text.skip(1).len() implies CharClass::PathChar.admits(
                #[trigger] text.skip(1)[i],
            ) by {
                assert(text.skip(1)[i] == text[i + 1]);
            }
        }
        lemma_split_valid(text.skip(1));
    }
}

/// A first segment and the segments behind it are matched faithfully.
proof fn lemma_segments_faithful(s: Seq<Item>, class: CharClass, path: PathView)
    requires
        class == CharClass::Pchar || class == CharClass::PcharNoColon,
        matched(segments_match(s, class), path),
    ensures
        faithful(
            s,
            segments_match(s, class),
            segments_match(s.take(segments_match(s, class).consumed as int), class),
            path_text(path),
        ),
{
    let head = run_nz_match(s, class);
    let first = head.result->Ok_0->Some_0;
    let n = head.consumed;
    let t = s.skip(n as int);
    let pieces = tail_match(t).result->Ok_0->Some_0;
    let total = n + tail_len(t);
    lemma_run_len(s, class);
    assert(matched(head, first));
    assert(n == run_len(s, class));
    assert(matched(tail_match(t), pieces));
    lemma_run_alone(s, class, n);
    lemma_tail_faithful(t, pieces);
    assert(segments_match(s, class).consumed == total);
    assert(first == run(s, n));
    assert(path == PathView { absolute: false, segments: seq![first] + pieces });
    lemma_join_front(first, pieces, slash());
    lemma_chars_concat(s, n, tail_len(t));
    assert(path_text(path) == join(seq![first] + pieces, slash()));
    if pieces.len() > 0 {
        assert(run(s, total) =~= first + seq![slash()] + join(pieces, slash()));
    }
    let front = s.take(total as int);
    lemma_run_len_take(s, class, total);
    assert(front.take(n as int) =~= s.take(n as int));
    assert(front.skip(n as int) =~= t.take(tail_len(t) as int));
    if n < total {
        assert(front[n as int] == t[0]);
    }
}

/// A first segment and the segments behind it are made of `pchar`.
proof fn lemma_segments_valid(s: Seq<Item>, class: CharClass, path: PathView)
    requires
        class == CharClass::Pchar || class == CharClass::PcharNoColon,
        matched(segments_match(s, class), path),
    ensures
        path_valid(path),
        path.segments.len() >= 1,
{
    let head = run_nz_match(s, class);
    let first = head.result->Ok_0->Some_0;
    let t = s.skip(head.consumed as int);
    let pieces = tail_match(t).result->Ok_0->Some_0;
    lemma_run_valid(s, class, run_len(s, class));
    lemma_tail_valid(t, pieces);
    assert(path.segments == seq![first] + pieces);
    assert(all_in(first, CharClass::Pchar)) by {
        assert forall|i: int| 0 <= i < first.len() implies CharClass::Pchar.admits(
            #[trigger] first[i],
        ) by {
            assert(class.admits(first[i]));
        }
    }
    assert forall|k: int| 0 <= k < path.segments.len() implies all_in(
        #[trigger] path.segments[k],
        CharClass::Pchar,
    ) by {
        if k > 0 {
            assert(path.segments[k] == pieces[k - 1]);
        }
    }
}

/// A path that `path-rootless` has matched is written as the text that it
/// was matched from.
pub proof fn lemma_path_rootless_text(s: Seq<Item>, path: PathView)
    requires
        matched(path_rootless_match(s), path),
    ensures
        kept_text(s, path_rootless_match(s), path_text(path)),
{
    lemma_segments_faithful(s, CharClass::Pchar, path);
}

/// Writing out a path that `path-rootless` has matched and matching
/// `path-rootless` on what was written gives the same path.
pub proof fn lemma_path_rootless_round_trip(s: Seq<Item>, path: PathView)
    requires
        stream_wf(s),
        matched(path_rootless_match(s), path),
    ensures
        matched(path_rootless_match(decode(text_of(path_text(path)))), path),
{
    lemma_segments_faithful(s, CharClass::Pchar, path);
    lemma_reread(s, path_rootless_match(s).consumed);
}

/// A path that `path-noscheme` has matched is written as the text that it
/// was matched from.
pub proof fn lemma_path_noscheme_text(s: Seq<Item>, path: PathView)
    requires
        matched(path_noscheme_match(s), path),
    ensures
        kept_text(s, path_noscheme_match(s), path_text(path)),
{
    lemma_segments_faithful(s, CharClass::PcharNoColon, path);
}

/// Writing out a path that `path-noscheme` has matched and matching
/// `path-noscheme` on what was written gives the same path.
pub proof fn lemma_path_noscheme_round_trip(s: Seq<Item>, path: PathView)
    requires
        stream_wf(s),
        matched(path_noscheme_match(s), path),
    ensures
        matched(path_noscheme_match(decode(text_of(path_text(path)))), path),
{
    lemma_segments_faithful(s, CharClass::PcharNoColon, path);
    lemma_reread(s, path_noscheme_match(s).consumed);
}

/// `path-abempty` is faithful to the path that it matches.
proof fn lemma_path_abempty_faithful(s: Seq<Item>, path: PathView)
    requires
        matched(path_abempty_match(s), path),
    ensures
        faithful(
            s,
            path_abempty_match(s),
            path_abempty_match(s.take(path_abempty_match(s).consumed as int)),
            path_text(path),
        ),
{
    lemma_tail_faithful(s, path.segments);
}

/// A path that `path-abempty` has matched is written as the text that it
/// was matched from.
pub proof fn lemma_path_abempty_text(s: Seq<Item>, path: PathView)
    requires
        matched(path_abempty_match(s), path),
    ensures
        kept_text(s, path_abempty_match(s), path_text(path)),
{
    lemma_path_abempty_faithful(s, path);
}

/// Writing out a path that `path-abempty` has matched and matching
/// `path-abempty` on what was written gives the same path.
pub proof fn lemma_path_abempty_round_trip(s: Seq<Item>, path: PathView)
    requires
        stream_wf(s),
        matched(path_abempty_match(s), path),
    ensures
        matched(path_abempty_match(decode(text_of(path_text(path)))), path),
{
    lemma_path_abempty_faithful(s, path);
    lemma_reread(s, path_abempty_match(s).consumed);
}

/// `path-absolute` is faithful to the path that it matches.
proof fn lemma_path_absolute_faithful(s: Seq<Item>, path: PathView)
    requires
        matched(path_absolute_match(s), path),
    ensures
        faithful(
            s,
            path_absolute_match(s),
            path_absolute_match(s.take(path_absolute_match(s).consumed as int)),
            path_text(path),
        ),
{
    let t = s.skip(1);
    let inner = path_rootless_match(t);
    let total = path_absolute_match(s).consumed;
    let front = s.take(total as int);
    assert(s.len() > 0 && s[0] == Ok::<Char, EscapeError>(slash()));
    lemma_path_absolute_bounds(s);
    assert(total >= 1);
    assert(front[0] == s[0]);
    assert(run(s, 1) =~= seq![slash()]);
    if inner.result == Ok::<Option<PathView>, EscapeError>(None) {
        assert(total == 1);
        assert(path.segments =~= seq![Seq::<Char>::empty()]);
        assert(join(path.segments, slash()) =~= Seq::<Char>::empty());
        assert(front.skip(1) =~= Seq::<Item>::empty());
    } else {
        let found = inner.result->Ok_0->Some_0;
        lemma_segments_faithful(t, CharClass::Pchar, found);
        assert(path.segments == found.segments);
        lemma_chars_concat(s, 1, inner.consumed);
        assert(front.skip(1) =~= t.take(inner.consumed as int));
    }
}

/// An absolute path that was matched has one segment at least, and its
/// segments are made of `pchar`.
proof fn lemma_path_absolute_valid(s: Seq<Item>, path: PathView)
    requires
        matched(path_absolute_match(s), path),
    ensures
        path_valid(path),
        path.absolute,
        path.segments.len() >= 1,
{
    let t = s.skip(1);
    let inner = path_rootless_match(t);
    if inner.result == Ok::<Option<PathView>, EscapeError>(None) {
        assert(path.segments =~= seq![Seq::<Char>::empty()]);
    } else {
        let found = inner.result->Ok_0->Some_0;
        lemma_segments_valid(t, CharClass::Pchar, found);
        assert(path.segments == found.segments);
    }
}

/// A path that `path-absolute` has matched is written as the text that it
/// was matched from.
pub proof fn lemma_path_absolute_text(s: Seq<Item>, path: PathView)
    requires
        matched(path_absolute_match(s), path),
    ensures
        kept_text(s, path_absolute_match(s), path_text(path)),
{
    lemma_path_absolute_faithful(s, path);
}

/// Writing out a path that `path-absolute` has matched and matching
/// `path-absolute` on what was written gives the same path.
pub proof fn lemma_path_absolute_round_trip(s: Seq<Item>, path: PathView)
    requires
        stream_wf(s),
        matched(path_absolute_match(s), path),
    ensures
        matched(path_absolute_match(decode(text_of(path_text(path)))), path),
{
    lemma_path_absolute_faithful(s, path);
    lemma_reread(s, path_absolute_match(s).consumed);
}

/// The path that `path-empty` matches is written as nothing, which is what
/// it was matched from.
pub proof fn lemma_path_empty_text(s: Seq<Item>, path: PathView)
    requires
        matched(path_empty_match(s), path),
    ensures
        kept_text(s, path_empty_match(s), path_text(path)),
{
    assert(run(s, 0) =~= Seq::<Char>::empty());
}

/// Writing out the path that `path-empty` has matched and matching
/// `path-empty` on what was written gives the same path.
pub proof fn lemma_path_empty_round_trip(s: Seq<Item>, path: PathView)
    requires
        stream_wf(s),
        matched(path_empty_match(s), path),
    ensures
        matched(path_empty_match(decode(text_of(path_text(path)))), path),
{
    lemma_path_empty_text(s, path);
    lemma_reread(s, 0);
}

/// `path` is faithful to the path that it matches.
proof fn lemma_path_faithful(s: Seq<Item>, path: PathView)
    requires
        matched(path_match(s), path),
    ensures
        faithful(
            s,
            path_match(s),
            path_match(s.take(path_match(s).consumed as int)),
            path_text(path),
        ),
{
    let total = path_match(s).consumed;
    let front = s.take(total as int);
    if path_absolute_match(s).result is Ok && path_absolute_match(s).result->Ok_0 is Some {
        lemma_path_absolute_faithful(s, path);
    } else if path_rootless_match(s).result is Ok && path_rootless_match(s).result->Ok_0 is Some {
        lemma_segments_faithful(s, CharClass::Pchar, path);
        lemma_run_len(s, CharClass::Pchar);
        assert(front[0] == s[0]);
    } else {
        assert(path.segments =~= seq![Seq::<Char>::empty()]);
        assert(join(path.segments, slash()) =~= Seq::<Char>::empty());
        assert(run(s, 0) =~= Seq::<Char>::empty());
    }
}

/// A path that `path` has matched is written as the text that it was
/// matched from.
pub proof fn lemma_path_text(s: Seq<Item>, path: PathView)
    requires
        matched(path_match(s), path),
    ensures
        kept_text(s, path_match(s), path_text(path)),
{
    lemma_path_faithful(s, path);
}

/// Writing out a path that `path` has matched and matching `path` on what
/// was written gives the same path.
pub proof fn lemma_path_round_trip(s: Seq<Item>, path: PathView)
    requires
        stream_wf(s),
        matched(path_match(s), path),
    ensures
        matched(path_match(decode(text_of(path_text(path)))), path),
{
    lemma_path_faithful(s, path);
    lemma_reread(s, path_match(s).consumed);
}

/// What the path productions match is valid: every segment is made of
/// `pchar`. A path that `path-rootless`, `path-noscheme`, `path-absolute`
/// or `path` has matched has one segment at least; the first segment of
/// the first two is not empty, and that of `path-noscheme` holds no `:`.
/// `path-empty` matches the path without segments only, and a path that
/// `path-abempty` has matched is absolute unless it is that path.
pub proof fn lemma_paths_valid(s: Seq<Item>, path: PathView)
    ensures
        matched(path_abempty_match(s), path) ==> path_valid(path) && (path.absolute
            <==> path.segments.len() > 0),
        matched(path_rootless_match(s), path) ==> path_valid(path) && !path.absolute
            && path.segments.len() >= 1 && path.segments[0].len() > 0,
        matched(path_noscheme_match(s), path) ==> path_valid(path) && !path.absolute
            && path.segments.len() >= 1 && path.segments[0].len() > 0 && all_in(
            path.segments[0],
            CharClass::PcharNoColon,
        ),
        matched(path_absolute_match(s), path) ==> path_valid(path) && path.absolute
            && path.segments.len() >= 1,
        matched(path_empty_match(s), path) ==> path_valid(path) && !path.absolute
            && path.segments.len() == 0,
        matched(path_match(s), path) ==> path_valid(path) && path.segments.len() >= 1,
{
    if matched(path_abempty_match(s), path) {
        lemma_tail_valid(s, path.segments);
    }
    if matched(path_rootless_match(s), path) {
        lemma_segments_valid(s, CharClass::Pchar, path);
        lemma_run_len(s, CharClass::Pchar);
    }
    if matched(path_noscheme_match(s), path) {
        lemma_segments_valid(s, CharClass::PcharNoColon, path);
        lemma_run_len(s, CharClass::PcharNoColon);
        lemma_run_valid(s, CharClass::PcharNoColon, run_len(s, CharClass::PcharNoColon));
    }
    if matched(path_absolute_match(s), path) {
        lemma_path_absolute_valid(s, path);
    }
    if matched(path_match(s), path) {
        if matched(path_absolute_match(s), path) {
        } else if matched(path_rootless_match(s), path) {
        } else {
            assert(path.segments =~= seq![Seq::<Char>::empty()]);
        }
    }
}

} // verus!
