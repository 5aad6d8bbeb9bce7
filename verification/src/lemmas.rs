//! Facts about runs, pieces and attempts that the proofs of the productions
//! and the laws rest on.

use crate::char_buf::{Char, DOT, PERCENT};
use crate::decode::{decode, items_of, lemma_decode_text, stream_wf, Item};
use crate::grammar::{
    all_in, chars_only, dec_octet_match, dotted_match, fits, join, last_piece_len, literal_match,
    matched, path_absolute_match, path_rootless_match, run, run_len, segment_nz_match, slash,
    slash_free, split, tail_match, CharClass,
};
use crate::text::text_of;
use vstd::prelude::*;

verus! {

/// Behind the last `/` of a text stands what was written behind it.
pub proof fn lemma_last_piece_len(text: Seq<Char>, piece: Seq<Char>)
    requires
        slash_free(piece),
    ensures
        last_piece_len(piece) == piece.len(),
        last_piece_len(text + seq![slash()] + piece) == piece.len(),
    decreases piece.len(),
{
    let whole = text + seq![slash()] + piece;
    if piece.len() > 0 {
        assert(piece.last() == piece[piece.len() - 1]);
        assert(whole.last() == piece.last());
        assert(whole.drop_last() =~= text + seq![slash()] + piece.drop_last());
        lemma_last_piece_len(text, piece.drop_last());
    } else {
        assert(whole.last() == slash());
    }
}

/// In front of the last piece of a text stands a `/`, if anything, and
/// the piece holds none.
pub proof fn lemma_last_piece(text: Seq<Char>)
    ensures
        last_piece_len(text) <= text.len(),
        last_piece_len(text) < text.len() ==> text[text.len() - last_piece_len(text) - 1]
            == slash(),
        slash_free(text.skip(text.len() - last_piece_len(text))),
    decreases text.len(),
{
    let k = last_piece_len(text);
    if text.len() > 0 && text.last() != slash() {
        let front = text.drop_last();
        lemma_last_piece(front);
        let piece = text.skip(text.len() - k);
        let before = front.skip(front.len() - last_piece_len(front));
        assert forall|i: int| 0 <= i < piece.len() implies #[trigger] piece[i] != slash() by {
            if i < piece.len() - 1 {
                assert(piece[i] == before[i]);
            }
        }
        if k < text.len() {
            assert(text[text.len() - k - 1] == front[front.len() - last_piece_len(front) - 1]);
        }
    }
}

/// A text has one piece at least, and no piece holds a `/`.
pub proof fn lemma_split_pieces(text: Seq<Char>)
    ensures
        split(text).len() >= 1,
        forall|i: int| 0 <= i < split(text).len() ==> slash_free(#[trigger] split(text)[i]),
    decreases text.len(),
{
    let k = last_piece_len(text);
    lemma_last_piece(text);
    if k >= text.len() {
        assert(text.skip(0) =~= text);
    } else {
        lemma_split_pieces(text.take(text.len() - k - 1));
    }
}

/// One more piece is written behind the others, after a separator.
pub proof fn lemma_join_push(pieces: Seq<Seq<Char>>, piece: Seq<Char>, separator: Char)
    requires
        pieces.len() >= 1,
    ensures
        join(pieces.push(piece), separator) == join(pieces, separator) + seq![separator] + piece,
{
    assert(pieces.push(piece).drop_last() =~= pieces);
}

/// The first piece is written in front of the others, before a separator
/// if there are others.
pub proof fn lemma_join_front(piece: Seq<Char>, pieces: Seq<Seq<Char>>, separator: Char)
    ensures
        join(seq![piece] + pieces, separator) == if pieces.len() == 0 {
            piece
        } else {
            piece + seq![separator] + join(pieces, separator)
        },
    decreases pieces.len(),
{
    let all = seq![piece] + pieces;
    if pieces.len() == 0 {
        assert(all =~= seq![piece]);
    } else {
        let front = pieces.drop_last();
        assert(all.drop_last() =~= seq![piece] + front);
        assert(all.last() == pieces.last());
        lemma_join_front(piece, front, separator);
        if front.len() == 0 {
            assert(pieces =~= seq![pieces.last()]);
            assert(join(pieces, separator) == pieces.last());
        } else {
            assert(join(all, separator) =~= piece + seq![separator] + join(pieces, separator));
        }
    }
}

/// The pieces of a text, written with a `/` between each two, are the
/// text.
pub proof fn lemma_join_split(text: Seq<Char>)
    ensures
        join(split(text), slash()) == text,
    decreases text.len(),
{
    let k = last_piece_len(text);
    lemma_last_piece(text);
    if k < text.len() {
        let front = text.take(text.len() - k - 1);
        let piece = text.skip(text.len() - k);
        lemma_join_split(front);
        lemma_split_pieces(front);
        lemma_join_push(split(front), piece, slash());
        assert(front + seq![slash()] + piece =~= text);
    }
}

/// A text without a `/` is one piece.
pub proof fn lemma_split_one(piece: Seq<Char>)
    requires
        slash_free(piece),
    ensures
        split(piece) == seq![piece],
{
    lemma_last_piece_len(Seq::empty(), piece);
}

/// A `/` and a text without one add one piece.
pub proof fn lemma_split_push(text: Seq<Char>, piece: Seq<Char>)
    requires
        slash_free(piece),
    ensures
        split(text + seq![slash()] + piece) == split(text).push(piece),
{
    let whole = text + seq![slash()] + piece;
    lemma_last_piece_len(text, piece);
    assert(whole.take(whole.len() - piece.len() - 1) =~= text);
    assert(whole.skip(whole.len() - piece.len()) =~= piece);
}

/// What a run is: `run_len` items fit, and the one behind them, if
/// there is one, does not.
pub proof fn lemma_run_len(s: Seq<Item>, class: CharClass)
    ensures
        run_len(s, class) <= s.len(),
        forall|i: int| 0 <= i < run_len(s, class) ==> fits(#[trigger] s[i], class),
        run_len(s, class) < s.len() ==> !fits(s[run_len(s, class) as int], class),
    decreases s.len(),
{
    if s.len() > 0 && fits(s[0], class) {
        let t = s.skip(1);
        lemma_run_len(t, class);
        assert forall|i: int| 0 <= i < run_len(s, class) implies fits(#[trigger] s[i], class) by {
            if i > 0 {
                assert(s[i] == t[i - 1]);
            }
        }
        if run_len(s, class) < s.len() {
            assert(s[run_len(s, class) as int] == t[run_len(t, class) as int]);
        }
    }
}

/// A run is as long as the items that fit: if the first `k` fit, the run
/// has `k` items at least, and exactly `k` if the stream ends there or the
/// next item does not fit.
pub proof fn lemma_run_len_is(s: Seq<Item>, class: CharClass, k: nat)
    requires
        k <= s.len(),
        forall|i: int| 0 <= i < k ==> fits(#[trigger] s[i], class),
    ensures
        run_len(s, class) >= k,
        (k == s.len() || !fits(s[k as int], class)) ==> run_len(s, class) == k,
    decreases k,
{
    if k > 0 {
        let t = s.skip(1);
        assert(fits(s[0], class));
        assert forall|i: int| 0 <= i < k - 1 implies fits(#[trigger] t[i], class) by {
            assert(t[i] == s[i + 1]);
        }
        lemma_run_len_is(t, class, (k - 1) as nat);
        if k < s.len() {
            assert(t[k - 1] == s[k as int]);
        }
    }
}

/// An attempt at `*( "/" segment )` keeps no more than it reads, and
/// reads no more than there is.
pub proof fn lemma_tail_bounds(s: Seq<Item>)
    ensures
        tail_match(s).consumed <= tail_match(s).reach <= s.len(),
{
    lemma_run_len(s, CharClass::PathChar);
}

/// An attempt at `path-rootless` keeps no more than it reads, and reads no
/// more than there is.
pub proof fn lemma_path_rootless_bounds(s: Seq<Item>)
    ensures
        path_rootless_match(s).consumed <= path_rootless_match(s).reach <= s.len(),
{
    lemma_run_len(s, CharClass::Pchar);
    lemma_tail_bounds(s.skip(segment_nz_match(s).consumed as int));
}

/// An attempt at `path-absolute` keeps no more than it reads, and reads no
/// more than there is.
pub proof fn lemma_path_absolute_bounds(s: Seq<Item>)
    ensures
        path_absolute_match(s).consumed <= path_absolute_match(s).reach <= s.len(),
{
    if s.len() > 0 {
        lemma_path_rootless_bounds(s.skip(1));
    }
}

/// An attempt at `dec-octet` keeps no more than it reads, and reads no
/// more than there is. What it keeps are the digits that it matched.
pub proof fn lemma_dec_octet_bounds(s: Seq<Item>)
    ensures
        dec_octet_match(s).consumed <= dec_octet_match(s).reach <= s.len(),
        dec_octet_match(s).result is Ok && dec_octet_match(s).result->Ok_0 is Some ==> s.take(
            dec_octet_match(s).consumed as int,
        ) == items_of(dec_octet_match(s).result->Ok_0->Some_0),
{
    lemma_run_len(s, CharClass::Digit);
    let found = dec_octet_match(s);
    if found.result is Ok && found.result->Ok_0 is Some {
        let digits = found.result->Ok_0->Some_0;
        assert(s.take(found.consumed as int) =~= items_of(digits));
    }
}

/// An attempt at `count` dotted parts keeps no more than it reads, and
/// reads no more than there is. Where it matches, it has `count` parts.
pub proof fn lemma_dotted_bounds(s: Seq<Item>, count: nat)
    requires
        count >= 1,
    ensures
        dotted_match(s, count).consumed <= dotted_match(s, count).reach <= s.len(),
        dotted_match(s, count).result is Ok && dotted_match(s, count).result->Ok_0 is Some
            ==> dotted_match(s, count).result->Ok_0->Some_0.len() == count,
    decreases count,
{
    lemma_dec_octet_bounds(s);
    if count > 1 {
        let head = dec_octet_match(s);
        let t = s.skip(head.consumed as int);
        let dot = literal_match(t, DOT);
        lemma_dotted_bounds(t.skip(dot.consumed as int), (count - 1) as nat);
    }
}

/// Characters followed by characters are characters, and what they are
/// read as is what the first are read as and then the others.
pub proof fn lemma_chars_concat(s: Seq<Item>, n: nat, m: nat)
    requires
        chars_only(s, n),
        chars_only(s.skip(n as int), m),
    ensures
        chars_only(s, n + m),
        run(s, n + m) == run(s, n) + run(s.skip(n as int), m),
{
    let t = s.skip(n as int);
    assert forall|i: int| 0 <= i < n + m implies (#[trigger] s[i]) is Ok && !s[i]->Ok_0.is(
        PERCENT,
    ) by {
        if i >= n {
            assert(s[i] == t[i - n]);
        }
    }
    assert(run(s, n + m) =~= run(s, n) + run(t, m));
}

/// The run at the front of the first `k` items is the run at the front of
/// the stream, cut off at `k`.
pub proof fn lemma_run_len_take(s: Seq<Item>, class: CharClass, k: nat)
    requires
        k <= s.len(),
    ensures
        run_len(s.take(k as int), class) == if run_len(s, class) < k {
            run_len(s, class)
        } else {
            k
        },
{
    lemma_run_len(s, class);
    let n = if run_len(s, class) < k {
        run_len(s, class)
    } else {
        k
    };
    let front = s.take(k as int);
    assert forall|i: int| 0 <= i < n implies fits(#[trigger] front[i], class) by {
        assert(front[i] == s[i]);
        assert(fits(s[i], class));
    }
    if n < k {
        assert(front[n as int] == s[n as int]);
    }
    lemma_run_len_is(front, class, n);
}

/// Decoding what the first `n` items are written as gives these items, if
/// they are well-formed characters and none of them is a literal `%`.
pub proof fn lemma_reread(s: Seq<Item>, n: nat)
    requires
        n <= s.len(),
        stream_wf(s),
        forall|i: int| 0 <= i < n ==> (#[trigger] s[i]) is Ok && !s[i]->Ok_0.is(PERCENT),
    ensures
        decode(text_of(run(s, n))) == s.take(n as int),
{
    let chars = run(s, n);
    assert forall|i: int| 0 <= i < chars.len() implies (#[trigger] chars[i]).wf() && !chars[i].is(
        PERCENT,
    ) by {
        assert(chars[i] == s[i]->Ok_0);
        assert(s[i] is Ok);
    }
    lemma_decode_text(chars, Seq::empty());
    assert(text_of(chars) + Seq::<u8>::empty() =~= text_of(chars));
    assert(decode(Seq::<u8>::empty()) =~= Seq::<Item>::empty());
    assert(items_of(chars) + Seq::<Item>::empty() =~= s.take(n as int));
}

/// A run of a class that is read alone is read whole.
pub proof fn lemma_run_alone(s: Seq<Item>, class: CharClass, n: nat)
    requires
        n <= run_len(s, class),
    ensures
        n <= s.len(),
        run_len(s.take(n as int), class) == n,
        run(s.take(n as int), n) == run(s, n),
        forall|i: int| 0 <= i < n ==> (#[trigger] s[i]) is Ok && !s[i]->Ok_0.is(PERCENT),
{
    lemma_run_len(s, class);
    lemma_run_len_take(s, class, n);
    assert(s.take(n as int).take(n as int) =~= s.take(n as int));
    assert forall|i: int| 0 <= i < n implies (#[trigger] s[i]) is Ok && !s[i]->Ok_0.is(
        PERCENT,
    ) by {
        assert(fits(s[i], class));
    }
}

/// The characters of a run belong to its class.
pub proof fn lemma_run_valid(s: Seq<Item>, class: CharClass, n: nat)
    requires
        n <= run_len(s, class),
    ensures
        all_in(run(s, n), class),
{
    lemma_run_len(s, class);
    assert forall|i: int| 0 <= i < run(s, n).len() implies class.admits(
        #[trigger] run(s, n)[i],
    ) by {
        assert(fits(s[i], class));
    }
}

/// The pieces of a text of `pchar` and `/` are made of `pchar`.
pub proof fn lemma_split_valid(text: Seq<Char>)
    requires
        all_in(text, CharClass::PathChar),
    ensures
        forall|k: int|
            0 <= k < split(text).len() ==> all_in(#[trigger] split(text)[k], CharClass::Pchar),
    decreases text.len(),
{
    let k = last_piece_len(text);
    lemma_last_piece(text);
    let piece = text.skip(text.len() - k);
    assert(all_in(piece, CharClass::Pchar)) by {
        assert forall|i: int| 0 <= i < piece.len() implies CharClass::Pchar.admits(
            #[trigger] piece[i],
        ) by {
            assert(piece[i] == text[text.len() - k + i]);
            assert(CharClass::PathChar.admits(text[text.len() - k + i]));
            assert(piece[i] != slash());
        }
    }
    if k >= text.len() {
        assert(piece =~= text);
    } else {
        let front = text.take(text.len() - k - 1);
        assert(all_in(front, CharClass::PathChar)) by {
            assert forall|i: int| 0 <= i < front.len() implies CharClass::PathChar.admits(
                #[trigger] front[i],
            ) by {
                assert(front[i] == text[i]);
            }
        }
        lemma_split_valid(front);
        assert forall|j: int| 0 <= j < split(text).len() implies all_in(
            #[trigger] split(text)[j],
            CharClass::Pchar,
        ) by {
            if j < split(front).len() {
                assert(split(text)[j] == split(front)[j]);
            } else {
                assert(split(text)[j] == piece);
            }
        }
    }
}

} // verus!
