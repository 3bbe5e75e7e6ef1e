//! The input-reading capability: bounded character lookahead over byte input.
//!
//! An input reader turns a byte buffer into a character stream. It exposes
//! `peek(k)`, which reads the k-th not-yet-consumed character without
//! changing any state, and `consume(k)`, which advances past `k` characters,
//! clamping at end of input. Reaching end of input is success, not failure:
//! `peek` simply returns `None` past the end.
//!
//! Two implementations exist: [`MemoryReader`] decodes the whole input at
//! construction, while [`BufferedReader`] holds only a fixed-capacity window
//! of decoded characters. Both satisfy the contracts of [`ReadInput`], so
//! any consumer written against the trait behaves identically over either;
//! [`lemma_reader_equivalence`] records that fact.

use vstd::math::min;
use vstd::prelude::*;
use vstd::utf8::decode_utf8;
use vstd::utf8::valid_utf8;

pub use crate::buffered_reader::BufferedReader;
pub use crate::memory_reader::MemoryReader;

verus! {

/// Ways of misusing the bounded-window reader's buffer.
#[derive(Debug, Clone, Copy, PartialEq, Eq, Structural)]
pub enum BufferErrorKind {
    /// A single `consume` asked for more characters than the window can hold.
    Overconsumed(usize),
}

/// What went wrong while reading input.
#[derive(Debug, Clone, Copy, PartialEq, Eq, Structural)]
pub enum Repr {
    /// The input is not valid UTF-8; the payload is the byte offset of the
    /// first malformed scalar encoding.
    Utf8(usize),
    /// The bounded window was misused.
    Buffer(BufferErrorKind),
}

/// The error type for input reading operations of the [`ReadInput`] trait.
#[derive(Debug, Clone, Copy, PartialEq, Eq, Structural)]
pub struct Error {
    pub repr: Repr,
}

impl Error {
    /// The error reported when one `consume` call asks for more characters
    /// than the bounded window holds.
    pub fn overconsume_buffer(count: usize) -> (e: Error)
        ensures
            e.repr == Repr::Buffer(BufferErrorKind::Overconsumed(count)),
    {
        Error { repr: Repr::Buffer(BufferErrorKind::Overconsumed(count)) }
    }

    /// The error reported when the input bytes are not valid UTF-8.
    pub fn invalid_encoding(offset: usize) -> (e: Error)
        ensures
            e.repr == Repr::Utf8(offset),
    {
        Error { repr: Repr::Utf8(offset) }
    }
}

/// The `ReadInput` trait allows for peeking and consuming input.
///
/// `remaining()` is the sequence of characters not yet consumed, and
/// `lookahead()` is the number of characters a reader guarantees `peek` can
/// see: `peek(k)` must answer from `remaining()` whenever
/// `k < lookahead()`, and may answer `None` beyond that even before the end
/// of input. `consume(k)` fails exactly when `k` exceeds `lookahead()`,
/// since no sequence of in-range `peek` calls could have observed that many
/// characters.
pub trait ReadInput: Sized {
    /// The reader's internal invariant.
    spec fn inv(&self) -> bool;

    /// The characters not yet consumed.
    spec fn remaining(&self) -> Seq<char>;

    /// How many characters `peek` is guaranteed to see ahead.
    spec fn lookahead(&self) -> nat;

    /// Every reader guarantees at least one character of lookahead.
    proof fn lookahead_at_least_one(&self)
        requires
            self.inv(),
        ensures
            self.lookahead() >= 1,
    ;

    /// Returns the k-th character in the input from the current position,
    /// without consuming anything.
    fn peek(&self, k: usize) -> (r: Option<char>)
        requires
            self.inv(),
        ensures
            k < min(self.lookahead() as int, self.remaining().len() as int) ==> r == Some(
                self.remaining()[k as int],
            ),
            r matches Some(c) ==> k < self.remaining().len() && c == self.remaining()[k as int],
    ;

    /// Advances the input reader's position by `k` characters, clamping at
    /// end of input. Fails exactly when `k` exceeds the guaranteed
    /// lookahead; once the reader is at end of input, it stays there.
    fn consume(&mut self, k: usize) -> (r: Result<(), Error>)
        requires
            old(self).inv(),
        ensures
            final(self).inv(),
            final(self).lookahead() == old(self).lookahead(),
            r is Ok <==> k <= old(self).lookahead(),
            r is Ok ==> final(self).remaining() == old(self).remaining().skip(
                min(k as int, old(self).remaining().len() as int),
            ),
            r matches Err(e) ==> final(self).remaining() == old(self).remaining() && e.repr
                == Repr::Buffer(BufferErrorKind::Overconsumed(k)),
            old(self).remaining().len() == 0 ==> final(self).remaining().len() == 0,
    ;

    /// Checks whether the input has run out of characters.
    fn has_reached_eof(&self) -> (r: bool)
        requires
            self.inv(),
        ensures
            r == (self.remaining().len() == 0),
    ;

    /// Wraps this reader so its characters can be drawn one at a time.
    fn input_reader(self) -> (r: InputReader<Self>)
        requires
            self.inv(),
        ensures
            r.spec_reader() == self,
    {
        InputReader { reader: self }
    }
}

/// Draws the characters of an input reader one at a time.
///
/// This struct is created by the [`ReadInput::input_reader`] method.
pub struct InputReader<R> {
    reader: R,
}

impl<R> InputReader<R> {
    /// The wrapped reader.
    pub closed spec fn spec_reader(&self) -> R {
        self.reader
    }
}

impl<R: ReadInput> InputReader<R> {

    /// Yields the next character and consumes it, or `None` at end of input.
    pub fn next(&mut self) -> (r: Option<char>)
        requires
            old(self).spec_reader().inv(),
        ensures
            final(self).spec_reader().inv(),
            old(self).spec_reader().remaining().len() == 0 ==> r is None && final(self).spec_reader()
                == old(self).spec_reader(),
            old(self).spec_reader().remaining().len() > 0 ==> r == Some(
                old(self).spec_reader().remaining()[0],
            ) && final(self).spec_reader().remaining() == old(self).spec_reader().remaining().skip(1),
    {
        proof {
            self.reader.lookahead_at_least_one();
        }
        match self.reader.peek(0) {
            None => None,
            Some(c) => match self.reader.consume(1) {
                Ok(()) => Some(c),
                Err(_) => {
                    proof {
                        assert(false);
                    }
                    None
                },
            },
        }
    }

    /// Draws every character to exhaustion: the result is exactly the
    /// sequence of characters the reader had left.
    pub fn collect_chars(&mut self) -> (v: Vec<char>)
        requires
            old(self).spec_reader().inv(),
        ensures
            final(self).spec_reader().inv(),
            v@ == old(self).spec_reader().remaining(),
            final(self).spec_reader().remaining().len() == 0,
    {
        let mut out: Vec<char> = Vec::new();
        loop
            invariant
                self.spec_reader().inv(),
                out@ + self.spec_reader().remaining() == old(self).spec_reader().remaining(),
            ensures
                self.spec_reader().remaining().len() == 0,
            decreases self.spec_reader().remaining().len(),
        {
            match self.next() {
                Some(c) => {
                    out.push(c);
                    proof {
                        assert(out@ + self.spec_reader().remaining() =~= old(
                            self,
                        ).spec_reader().remaining());
                    }
                },
                None => {
                    break ;
                },
            }
        }
        proof {
            assert(out@ =~= out@ + self.spec_reader().remaining());
        }
        out
    }
}

/// Reader equivalence: the two reader strategies, constructed over the same
/// byte input, expose exactly the same character sequence — whatever window
/// capacity the bounded reader was given. Since iterating a reader to
/// exhaustion yields exactly `remaining()` (the contract of
/// [`InputReader::collect_chars`]), iterating either reader produces the
/// same characters; on empty input both report end of input at once.
///
/// The premises are precisely what [`MemoryReader::new`] and
/// [`BufferedReader::with_capacity`] establish for every capacity of at
/// least one.
pub proof fn lemma_reader_equivalence(source: Seq<u8>, m: MemoryReader, b: BufferedReader)
    requires
        valid_utf8(source),
        m.remaining() == decode_utf8(source),
        b.remaining() == decode_utf8(source),
    ensures
        m.remaining() == b.remaining(),
        source.len() == 0 ==> m.remaining().len() == 0 && b.remaining().len() == 0,
{
}

} // verus!
