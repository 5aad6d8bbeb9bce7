//! Characters as bytes and as text.

use crate::char_buf::Char;
use vstd::prelude::*;

verus! {

/// The bytes that the given characters are written as, one after the other.
pub open spec fn text_of(chars: Seq<Char>) -> Seq<u8>
    decreases chars.len(),
{
    if chars.len() == 0 {
        Seq::empty()
    } else {
        chars[0].bytes() + text_of(chars.skip(1))
    }
}

/// Written one after the other, two runs of characters give the bytes of
/// the first and then the bytes of the second.
pub proof fn lemma_text_of_concat(front: Seq<Char>, back: Seq<Char>)
    ensures
        text_of(front + back) == text_of(front) + text_of(back),
    decreases front.len(),
{
    if front.len() == 0 {
        assert(front + back =~= back);
        assert(text_of(front) + text_of(back) =~= text_of(back));
    } else {
        assert((front + back).skip(1) =~= front.skip(1) + back);
        lemma_text_of_concat(front.skip(1), back);
        assert(text_of(front + back) =~= text_of(front) + text_of(back));
    }
}

/// One character alone is written as its bytes.
pub proof fn lemma_text_of_one(c: Char)
    ensures
        text_of(seq![c]) == c.bytes(),
{
    assert(seq![c].skip(1) =~= Seq::<Char>::empty());
    assert(text_of(seq![c].skip(1)) =~= Seq::<u8>::empty());
    assert(text_of(seq![c]) =~= c.bytes());
}

/// Each byte as the character with that code.
pub open spec fn as_chars(bytes: Seq<u8>) -> Seq<char> {
    bytes.map_values(|b: u8| b as char)
}

/// Taken on trust of the standard library: `String::push` appends `ch` to
/// the end of the string and leaves what the string held in front of it.
pub assume_specification[ String::push ](s: &mut String, ch: char)
    ensures
        final(s)@ == old(s)@.push(ch),
;

/// The string that holds, for each byte, the character with that code.
pub(crate) fn string_of(bytes: &Vec<u8>) -> (text: String)
    ensures
        text@ == as_chars(bytes@),
{
    let mut text = String::new();
    let mut i: usize = 0;
    while i < bytes.len()
        invariant
            i <= bytes.len(),
            text@ == as_chars(bytes@.take(i as int)),
        decreases bytes.len() - i,
    {
        text.push(bytes[i] as char);
        assert(text@ =~= as_chars(bytes@.take(i + 1)));
        i = i + 1;
    }
    assert(bytes@.take(bytes.len() as int) =~= bytes@);
    text
}

/// Appends the bytes that `chars` are written as.
pub(crate) fn write_chars(chars: &Vec<Char>, out: &mut Vec<u8>)
    ensures
        final(out)@ == old(out)@ + text_of(chars@),
{
    let mut i: usize = 0;
    assert(out@ =~= old(out)@ + text_of(chars@.take(0)));
    while i < chars.len()
        invariant
            i <= chars.len(),
            out@ == old(out)@ + text_of(chars@.take(i as int)),
        decreases chars.len() - i,
    {
        proof {
            assert(chars@.take(i + 1) =~= chars@.take(i as int) + seq![chars[i as int]]);
            lemma_text_of_concat(chars@.take(i as int), seq![chars[i as int]]);
            lemma_text_of_one(chars[i as int]);
        }
        chars[i].write_to(out);
        assert(out@ =~= old(out)@ + text_of(chars@.take(i + 1)));
        i = i + 1;
    }
    assert(chars@.take(chars.len() as int) =~= chars@);
}

} // verus!
