//! Whole-input reading: the entire byte source is decoded once.

use vstd::math::min;
use vstd::prelude::*;
use vstd::utf8::decode_utf8;
use vstd::utf8::valid_utf8;

use crate::input_reader::Error;
use crate::input_reader::ReadInput;
use crate::input_reader::Repr;
use crate::utf8::decode_to_chars;

verus! {

/// The `MemoryReader` struct provides in-memory whole-input reading.
///
/// The whole source is decoded to characters at construction, which fails
/// exactly when the bytes are not valid UTF-8. Afterwards `peek` is a direct
/// indexed access, `consume` only moves a cursor, and neither can fail:
/// the guaranteed lookahead is unlimited.
pub struct MemoryReader {
    buf: Vec<char>,
    pos: usize,
}

impl MemoryReader {
    /// Creates a new `MemoryReader` by decoding the whole input.
    ///
    /// Returns an encoding error, carrying the byte offset of the first
    /// malformed scalar, exactly when the input is not valid UTF-8.
    pub fn new(source: Vec<u8>) -> (r: Result<MemoryReader, Error>)
        ensures
            r is Ok <==> valid_utf8(source@),
            r matches Ok(m) ==> m.inv() && m.remaining() == decode_utf8(source@),
            r matches Err(e) ==> e.repr matches Repr::Utf8(_),
    {
        match decode_to_chars(&source) {
            Ok(cs) => {
                let m = MemoryReader { buf: cs, pos: 0 };
                proof {
                    assert(m.remaining() =~= decode_utf8(source@));
                }
                Ok(m)
            },
            Err(j) => Err(Error::invalid_encoding(j)),
        }
    }

    /// Yields the next character and consumes it, or `None` at end of input.
    pub fn next(&mut self) -> (r: Option<char>)
        requires
            old(self).inv(),
        ensures
            final(self).inv(),
            old(self).remaining().len() == 0 ==> r is None && final(self).remaining()
                == old(self).remaining(),
            old(self).remaining().len() > 0 ==> r == Some(old(self).remaining()[0])
                && final(self).remaining() == old(self).remaining().skip(1),
    {
        match self.peek(0) {
            None => None,
            Some(c) => match self.consume(1) {
                Ok(()) => Some(c),
                Err(_) => {
                    proof {
                        assert(false);
                    }
                    None
                },
            },
        }
    }
}

impl ReadInput for MemoryReader {
    closed spec fn inv(&self) -> bool {
        self.pos <= self.buf.len()
    }

    closed spec fn remaining(&self) -> Seq<char> {
        self.buf@.skip(self.pos as int)
    }

    closed spec fn lookahead(&self) -> nat {
        usize::MAX as nat
    }

    proof fn lookahead_at_least_one(&self) {
    }

    fn peek(&self, k: usize) -> (r: Option<char>) {
        if k < self.buf.len() - self.pos {
            Some(self.buf[self.pos + k])
        } else {
            None
        }
    }

    fn consume(&mut self, k: usize) -> (r: Result<(), Error>) {
        let n = self.buf.len();
        if k < n - self.pos {
            self.pos = self.pos + k;
        } else {
            self.pos = n;
        }
        proof {
            assert(self.remaining() =~= old(self).remaining().skip(
                min(k as int, old(self).remaining().len() as int),
            ));
        }
        Ok(())
    }

    fn has_reached_eof(&self) -> (r: bool) {
        let r = self.peek(0);
        r.is_none()
    }
}

} // verus!
