//! Bounded-window reading: a fixed-capacity window of decoded characters.

use vstd::math::min;
use vstd::prelude::*;
use vstd::utf8::decode_first_scalar;
use vstd::utf8::decode_utf8;
use vstd::utf8::is_char_boundary;
use vstd::utf8::length_of_first_scalar;
use vstd::utf8::valid_utf8;

use crate::input_reader::Error;
use crate::input_reader::ReadInput;
use crate::input_reader::Repr;
use crate::utf8::decode_char_at;
use crate::utf8::lemma_boundary_step;
use crate::utf8::lemma_decode_unfold;
use crate::utf8::validate_utf8;

verus! {

/// How many characters the bounded window holds by default: comfortably
/// more than the longest fixed keyword, `false`, needs in lookahead.
pub const DEFAULT_BUF_READER_CAPACITY: usize = 16;

/// The `BufferedReader` struct provides bounded-window input reading.
///
/// Instead of decoding the whole input up front, it keeps a byte cursor
/// into the source and a window of up to `cap` decoded characters. The
/// window is topped up from the source after every consumption, one scalar
/// encoding at a time, so at most `cap` characters are ever held decoded.
/// The guaranteed lookahead is therefore exactly the window capacity, and a
/// single `consume` of more than `cap` characters is refused with a buffer
/// error, since no sequence of in-range `peek` calls could have observed
/// that many characters.
///
/// The source bytes are checked to be valid UTF-8 once at construction, so
/// a refill can never fail: a malformed scalar encoding is reported before
/// any character is handed out, never from the middle of the stream.
pub struct BufferedReader {
    source: Vec<u8>,
    spos: usize,
    window: Vec<char>,
    cap: usize,
}

impl BufferedReader {
    /// Everything the reader maintains except window fullness: the source
    /// is valid UTF-8 and the byte cursor sits on a character boundary.
    pub closed spec fn wf(&self) -> bool {
        &&& self.cap >= 1
        &&& self.spos <= self.source.len()
        &&& valid_utf8(self.source@)
        &&& is_char_boundary(self.source@, self.spos as int)
        &&& self.window.len() <= self.cap
    }

    /// Creates a new `BufferedReader` with the default window capacity.
    ///
    /// Returns an encoding error, carrying the byte offset of the first
    /// malformed scalar, exactly when the input is not valid UTF-8.
    pub fn new(source: Vec<u8>) -> (r: Result<BufferedReader, Error>)
        ensures
            r is Ok <==> valid_utf8(source@),
            r matches Ok(b) ==> b.inv() && b.remaining() == decode_utf8(source@) && b.lookahead()
                == DEFAULT_BUF_READER_CAPACITY,
            r matches Err(e) ==> e.repr matches Repr::Utf8(_),
    {
        BufferedReader::with_capacity(DEFAULT_BUF_READER_CAPACITY, source)
    }

    /// Creates a new `BufferedReader` whose window holds up to `cap`
    /// characters.
    pub fn with_capacity(cap: usize, source: Vec<u8>) -> (r: Result<BufferedReader, Error>)
        requires
            cap >= 1,
        ensures
            r is Ok <==> valid_utf8(source@),
            r matches Ok(b) ==> b.inv() && b.remaining() == decode_utf8(source@) && b.lookahead()
                == cap,
            r matches Err(e) ==> e.repr matches Repr::Utf8(_),
    {
        match validate_utf8(&source) {
            Err(j) => Err(Error::invalid_encoding(j)),
            Ok(()) => {
                let mut b = BufferedReader { source, spos: 0, window: Vec::new(), cap };
                proof {
                    assert(b.source@.skip(0) =~= b.source@);
                    assert(b.remaining() =~= decode_utf8(b.source@));
                }
                b.fill_buf();
                Ok(b)
            },
        }
    }

    /// Tops the window up from the source until it holds `cap` characters
    /// or the source is exhausted. The characters the reader exposes do not
    /// change.
    fn fill_buf(&mut self)
        requires
            old(self).wf(),
        ensures
            final(self).inv(),
            final(self).cap == old(self).cap,
            final(self).remaining() == old(self).remaining(),
        decreases old(self).source.len(),
    {
        while self.window.len() < self.cap && self.spos < self.source.len()
            invariant
                self.wf(),
                self.cap == old(self).cap,
                self.remaining() == old(self).remaining(),
            decreases self.source.len() - self.spos,
        {
            proof {
                lemma_boundary_step(self.source@, self.spos as int);
                lemma_decode_unfold(self.source@.skip(self.spos as int));
            }
            let ghost tail = self.source@.skip(self.spos as int);
            match decode_char_at(&self.source, self.spos) {
                Some((c, l)) => {
                    proof {
                        vstd::utf8::char_u32_cast(c, decode_first_scalar(tail));
                        assert(tail.skip(length_of_first_scalar(tail)) =~= self.source@.skip(
                            self.spos + l,
                        ));
                    }
                    let ghost w0 = self.window@;
                    self.window.push(c);
                    self.spos = self.spos + l;
                    proof {
                        assert(self.remaining() =~= w0 + decode_utf8(tail));
                    }
                },
                None => {
                    proof {
                        assert(false);
                    }
                },
            }
        }
    }

    /// Yields the next character and consumes it, or `None` at end of input.
    pub fn next(&mut self) -> (r: Option<char>)
        requires
            old(self).inv(),
        ensures
            final(self).inv(),
            old(self).remaining().len() == 0 ==> r is None && final(self).remaining()
                == old(self).remaining(),
            old(self).remaining().len() > 0 ==> r == Some(old(self).remaining()[0])
                && final(self).remaining() == old(self).remaining().skip(1),
    {
        match self.peek(0) {
            None => None,
            Some(c) => match self.consume(1) {
                Ok(()) => Some(c),
                Err(_) => {
                    proof {
                        assert(false);
                    }
                    None
                },
            },
        }
    }
}

impl ReadInput for BufferedReader {
    closed spec fn inv(&self) -> bool {
        &&& self.wf()
        &&& (self.window.len() < self.cap ==> self.spos == self.source.len())
    }

    closed spec fn remaining(&self) -> Seq<char> {
        self.window@ + decode_utf8(self.source@.skip(self.spos as int))
    }

    closed spec fn lookahead(&self) -> nat {
        self.cap as nat
    }

    proof fn lookahead_at_least_one(&self) {
    }

    fn peek(&self, k: usize) -> (r: Option<char>) {
        proof {
            if self.spos == self.source.len() {
                assert(self.source@.skip(self.spos as int) =~= Seq::<u8>::empty());
                assert(self.remaining() =~= self.window@);
            }
        }
        if k < self.window.len() {
            Some(self.window[k])
        } else {
            None
        }
    }

    fn consume(&mut self, k: usize) -> (r: Result<(), Error>) {
        if k > self.cap {
            return Err(Error::overconsume_buffer(k));
        }
        proof {
            if self.spos == self.source.len() {
                assert(self.source@.skip(self.spos as int) =~= Seq::<u8>::empty());
                assert(self.remaining() =~= self.window@);
            }
        }
        let n = if k < self.window.len() {
            k
        } else {
            self.window.len()
        };
        let ghost w0 = self.window@;
        let ghost rem0 = old(self).remaining();
        let ghost kk = min(k as int, rem0.len() as int);
        proof {
            assert(n == kk);
        }
        let mut j: usize = 0;
        while j < n
            invariant
                j <= n,
                n <= w0.len(),
                n <= self.window.len() + j,
                self.window@ == w0.skip(j as int),
                self.cap == old(self).cap,
                self.source == old(self).source,
                self.spos == old(self).spos,
                self.wf(),
            decreases n - j,
        {
            let _ = self.window.remove(0);
            proof {
                let s = w0.skip(j as int);
                s.remove_ensures(0);
                assert(s.remove(0) =~= w0.skip(j + 1));
            }
            j = j + 1;
        }
        proof {
            assert(self.remaining() =~= rem0.skip(kk));
        }
        self.fill_buf();
        Ok(())
    }

    fn has_reached_eof(&self) -> (r: bool) {
        let r = self.peek(0);
        r.is_none()
    }
}

} // verus!
