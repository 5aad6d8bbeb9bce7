//! The rollback buffer: decoded characters that can be read, and put back
//! to be read again, without limit.

use crate::char_buf::Char;
use crate::decode::{
    decode, items_of, lemma_decode_wf, stream_wf, CharStream, EscapeError, Item,
};
use std::collections::VecDeque;
use vstd::prelude::*;

verus! {

/// What a buffer stands for.
pub struct BufferView {
    /// Everything that reading will deliver from here on, in order, up to
    /// the end of the input.
    pub stream: Seq<Item>,
    /// How many items at the front of `stream` the buffer holds itself. The
    /// others are still to be decoded.
    pub buffered: nat,
}

impl BufferView {
    /// The items that the buffer holds are within the stream, and all of
    /// them are characters.
    pub open spec fn wf(self) -> bool {
        &&& self.buffered <= self.stream.len()
        &&& forall|i: int| 0 <= i < self.buffered ==> (#[trigger] self.stream[i]) is Ok
    }

    /// The buffer after its first `reach` items have been read and all but
    /// the first `consumed` of them put back. Reading takes from the queue
    /// first and from the decoder for the rest, and what is put back stands
    /// in the queue. So the queue then holds the items behind the first
    /// `consumed`, up to the last one that was read or that it held before.
    pub open spec fn after(self, reach: nat, consumed: nat) -> BufferView
        recommends
            consumed <= reach <= self.stream.len(),
    {
        BufferView {
            stream: self.stream.skip(consumed as int),
            buffered: (if self.buffered > reach {
                self.buffered - consumed
            } else {
                reach - consumed
            }) as nat,
        }
    }

    /// The buffer after `chars` have been put in front of it.
    pub open spec fn unread(self, chars: Seq<Char>) -> BufferView {
        BufferView {
            stream: items_of(chars) + self.stream,
            buffered: self.buffered + chars.len(),
        }
    }

    /// Two attempts in a row are one attempt: the second reads on from
    /// where the first has stopped keeping items.
    pub proof fn lemma_after_after(self, reach1: nat, consumed1: nat, reach2: nat, consumed2: nat)
        requires
            consumed1 <= reach1 <= self.stream.len(),
            consumed2 <= reach2 <= self.stream.len() - consumed1,
        ensures
            self.after(reach1, consumed1).after(reach2, consumed2) == self.after(
                if reach1 > consumed1 + reach2 {
                    reach1
                } else {
                    consumed1 + reach2
                },
                consumed1 + consumed2,
            ),
    {
        assert(self.stream.skip(consumed1 as int).skip(consumed2 as int) =~= self.stream.skip(
            (consumed1 + consumed2) as int,
        ));
    }

    /// Putting back the last characters that an attempt has kept is the
    /// attempt that keeps so many fewer.
    pub proof fn lemma_after_unread(self, reach: nat, consumed: nat, chars: Seq<Char>)
        requires
            chars.len() <= consumed <= reach <= self.stream.len(),
            items_of(chars) == self.stream.subrange(consumed - chars.len(), consumed as int),
        ensures
            self.after(reach, consumed).unread(chars) == self.after(
                reach,
                (consumed - chars.len()) as nat,
            ),
    {
        assert(items_of(chars) + self.stream.skip(consumed as int) =~= self.stream.skip(
            consumed - chars.len(),
        ));
    }
}

/// A decoder with a queue in front of it. Reading takes from the queue
/// first and decodes only when the queue is empty; what is put back goes to
/// the front of the queue.
pub struct CharBuffer<'a> {
    pending: VecDeque<Char>,
    source: CharStream<'a>,
}

impl<'a> View for CharBuffer<'a> {
    type V = BufferView;

    /// The characters of the queue, then what the decoder has still to
    /// deliver.
    closed spec fn view(&self) -> BufferView {
        BufferView {
            stream: items_of(self.pending@) + self.source.upcoming(),
            buffered: self.pending@.len(),
        }
    }
}

/// A buffer over the characters that `bytes` decodes to, with nothing read
/// yet.
pub fn new_char_buf<'a>(bytes: &'a [u8]) -> (tb: CharBuffer<'a>)
    ensures
        tb@.stream == decode(bytes@),
        tb@.buffered == 0,
        stream_wf(tb@.stream),
{
    CharBuffer::new(CharStream::new(bytes))
}

impl<'a> CharBuffer<'a> {
    /// Every buffer is well-formed.
    pub proof fn lemma_wf(&self)
        ensures
            self@.wf(),
    {
    }

    /// A buffer in front of `source`, with an empty queue.
    pub fn new(source: CharStream<'a>) -> (tb: Self)
        ensures
            tb@.stream == source.upcoming(),
            tb@.buffered == 0,
            stream_wf(tb@.stream),
    {
        proof {
            lemma_decode_wf(source@);
        }
        let tb = CharBuffer { pending: VecDeque::new(), source };
        assert(tb@.stream =~= source.upcoming());
        tb
    }

    /// The number of characters in the queue.
    pub fn len(&self) -> (n: usize)
        ensures
            n == self@.buffered,
    {
        self.pending.len()
    }

    /// Reads the next character. `Ok(None)` is the end of the input; a
    /// decoding error is handed on and used up.
    pub fn pop(&mut self) -> (r: Result<Option<Char>, EscapeError>)
        ensures
            match r {
                Ok(None) => old(self)@.stream.len() == 0 && final(self)@ == old(self)@,
                Ok(Some(c)) => old(self)@.stream.len() > 0 && old(self)@.stream[0] == Ok::<
                    Char,
                    EscapeError,
                >(c) && final(self)@ == old(self)@.after(1, 1),
                Err(e) => old(self)@.stream.len() > 0 && old(self)@.stream[0] == Err::<
                    Char,
                    EscapeError,
                >(e) && final(self)@ == old(self)@.after(1, 1),
            },
    {
        match self.pending.pop_front() {
            Some(c) => {
                assert(self@.stream =~= old(self)@.stream.skip(1));
                Ok(Some(c))
            },
            None => {
                let ghost rest = self.source@;
                let r = self.source.next();
                proof {
                    assert(items_of(self.pending@) =~= Seq::<Item>::empty());
                    assert(old(self)@.stream =~= decode(rest));
                    assert(self@.stream =~= decode(self.source@));
                }
                r
            },
        }
    }

    /// Puts `c` back: it is the next character to be read.
    pub fn push(&mut self, c: Char)
        ensures
            final(self)@ == old(self)@.unread(seq![c]),
    {
        self.pending.push_front(c);
        assert(self@.stream =~= old(self)@.unread(seq![c]).stream);
    }

    /// Puts `tokens` back: they are read next, in the order in which they
    /// stand in `tokens`.
    pub fn push_tokens(&mut self, tokens: Vec<Char>)
        ensures
            final(self)@ == old(self)@.unread(tokens@),
    {
        let mut i: usize = tokens.len();
        assert(self@.stream =~= old(self)@.unread(tokens@.skip(i as int)).stream);
        while i > 0
            invariant
                i <= tokens.len(),
                self@ == old(self)@.unread(tokens@.skip(i as int)),
            decreases i,
        {
            i = i - 1;
            self.push(tokens[i]);
            proof {
                assert(tokens@.skip(i as int) =~= seq![tokens[i as int]] + tokens@.skip(
                    i as int + 1,
                ));
                assert(self@.stream =~= old(self)@.unread(tokens@.skip(i as int)).stream);
            }
        }
        assert(tokens@.skip(0) =~= tokens@);
    }
}

} // verus!
