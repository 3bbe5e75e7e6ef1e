//! The tokenizer: it pulls characters through the [`ReadInput`] contract
//! and emits positioned tokens, verified against the grammar model in
//! [`crate::grammar`].
//!
//! Every token's `raw` text is exactly the characters it consumed — quote
//! characters and digit separators included — so concatenating the raw
//! texts of all produced tokens reconstructs the input
//! ([`crate::grammar::lemma_round_trip`]).

use vstd::math::min;
use vstd::prelude::*;
use vstd::string::StrSliceExecFns;
use vstd::string::StringExecFns;

use crate::grammar::hex_count;
use crate::grammar::is_control;
use crate::grammar::is_digit;
use crate::grammar::is_hex_digit;
use crate::grammar::is_short_escape;
use crate::grammar::lemma_lexed_used;
use crate::grammar::lemma_run_len_bounds;
use crate::grammar::lemma_string_kind;
use crate::grammar::lex_keyword;
use crate::grammar::lex_number;
use crate::grammar::lex_number_exponent;
use crate::grammar::lex_number_fraction;
use crate::grammar::lex_number_integer;
use crate::grammar::lex_string_from;
use crate::grammar::lex_token;
use crate::grammar::run_has_digit;
use crate::grammar::run_len;
use crate::grammar::Issue;
use crate::grammar::Lexed;
use crate::input_reader;
use crate::input_reader::ReadInput;

verus! {

/// A human-facing position in the input: 1-based line and column, plus the
/// absolute count of characters consumed since the start.
#[derive(Debug, Clone, Copy, PartialEq, Eq, Structural)]
pub struct Pos {
    pub line: usize,
    pub column: usize,
    pub offset: usize,
}

/// Which literal a `Literal` token holds.
#[derive(Debug, Clone, Copy, PartialEq, Eq, Structural)]
pub enum LiteralKind {
    Null,
    Bool,
    Num,
    Str,
}

/// The closed set of token kinds; an unrecognized character is a lexical
/// error, not a token.
#[derive(Debug, Clone, Copy, PartialEq, Eq, Structural)]
pub enum TokenKind {
    Whitespace,
    Comma,
    OpenBrace,
    CloseBrace,
    OpenBracket,
    CloseBracket,
    Colon,
    Literal { kind: LiteralKind },
}

/// One token: its kind, the exact characters it consumed, and where it
/// starts and ends.
#[derive(Debug)]
pub struct Token {
    pub kind: TokenKind,
    pub raw: String,
    pub start: Pos,
    pub end: Pos,
}

/// Which kind of digit was missing from a malformed number or escape.
#[derive(Debug, Clone, Copy, PartialEq, Eq, Structural)]
pub enum DigitKind {
    Dec,
    Hex,
}

/// What a lexical error expected and did not find.
#[derive(Debug)]
pub enum ExpectedKind {
    Keyword(String),
    Digit(DigitKind),
    StrTerminator,
    EscapedChar,
}

/// The error representation: a reader failure passed through, a grammar
/// expectation that was not met, or a character no grammar rule covers.
#[derive(Debug)]
pub enum Repr {
    InputReader(input_reader::Error),
    Expected(ExpectedKind),
    Unexpected(char),
}

/// The error type for tokenizing operations.
#[derive(Debug)]
pub struct Error {
    pub repr: Repr,
}

impl Error {
    fn expected_digit() -> (e: Error)
        ensures
            e.repr matches Repr::Expected(ExpectedKind::Digit(DigitKind::Dec)),
    {
        Error { repr: Repr::Expected(ExpectedKind::Digit(DigitKind::Dec)) }
    }

    fn expected_hex_digit() -> (e: Error)
        ensures
            e.repr matches Repr::Expected(ExpectedKind::Digit(DigitKind::Hex)),
    {
        Error { repr: Repr::Expected(ExpectedKind::Digit(DigitKind::Hex)) }
    }

    fn expected_str_terminator() -> (e: Error)
        ensures
            e.repr matches Repr::Expected(ExpectedKind::StrTerminator),
    {
        Error { repr: Repr::Expected(ExpectedKind::StrTerminator) }
    }

    fn expected_escaped_char() -> (e: Error)
        ensures
            e.repr matches Repr::Expected(ExpectedKind::EscapedChar),
    {
        Error { repr: Repr::Expected(ExpectedKind::EscapedChar) }
    }

    fn unexpected(c: char) -> (e: Error)
        ensures
            e.repr matches Repr::Unexpected(u) && u == c,
    {
        Error { repr: Repr::Unexpected(c) }
    }
}

impl From<input_reader::Error> for Error {
    /// Wraps a reader failure, preserving it as the cause.
    fn from(error: input_reader::Error) -> (e: Error) {
        Error { repr: Repr::InputReader(error) }
    }
}

impl vstd::std_specs::convert::FromSpecImpl<input_reader::Error> for Error {
    open spec fn obeys_from_spec() -> bool {
        true
    }

    open spec fn from_spec(t: input_reader::Error) -> Error {
        Error { repr: Repr::InputReader(t) }
    }
}

/// Whether the error value `e` reports the grammar failure `issue`.
pub open spec fn err_matches(e: Error, issue: Issue) -> bool {
    match issue {
        Issue::ExpectedKeyword(kw) => e.repr matches Repr::Expected(ExpectedKind::Keyword(k))
            && k@ == kw,
        Issue::ExpectedDigit => e.repr matches Repr::Expected(
            ExpectedKind::Digit(DigitKind::Dec),
        ),
        Issue::ExpectedHexDigit => e.repr matches Repr::Expected(
            ExpectedKind::Digit(DigitKind::Hex),
        ),
        Issue::ExpectedStringTerminator => e.repr matches Repr::Expected(
            ExpectedKind::StrTerminator,
        ),
        Issue::ExpectedEscapedCharacter => e.repr matches Repr::Expected(
            ExpectedKind::EscapedChar,
        ),
        Issue::UnexpectedCharacter(c) => e.repr matches Repr::Unexpected(u) && u == c,
    }
}

/// Relies on `String::push` from alloc: it appends exactly the one
/// character to the end of the string.
#[verifier::external_body]
fn push_char(s: &mut String, c: char)
    ensures
        final(s)@ == old(s)@ + seq![c],
{
    s.push(c);
}

fn is_digit_char(c: char) -> (b: bool)
    ensures
        b == is_digit(c),
{
    let u = c as u32;
    0x30 <= u && u <= 0x39
}

fn is_hex_digit_char(c: char) -> (b: bool)
    ensures
        b == is_hex_digit(c),
{
    let u = c as u32;
    (0x30 <= u && u <= 0x39) || (0x61 <= u && u <= 0x66) || (0x41 <= u && u <= 0x46)
}

fn is_control_char(c: char) -> (b: bool)
    ensures
        b == is_control(c),
{
    (c as u32) < 0x20
}

fn is_short_escape_char(c: char) -> (b: bool)
    ensures
        b == is_short_escape(c),
{
    c == '"' || c == '\\' || c == '/' || c == 'b' || c == 'f' || c == 'n' || c == 'r' || c == 't'
}

/// How a position advances over the raw text of one token: a lone newline
/// starts the next line, anything else only moves the column, and the
/// offset always counts the consumed characters. No token other than a
/// newline whitespace token ever contains a newline.
pub open spec fn pos_advanced(p: Pos, raw: Seq<char>, q: Pos) -> bool {
    if raw == seq!['\n'] {
        &&& q.line == p.line + 1
        &&& q.column == 1
        &&& q.offset == p.offset + 1
    } else {
        &&& q.line == p.line
        &&& q.column == p.column + raw.len()
        &&& q.offset == p.offset + raw.len()
    }
}

/// The tokenizer: wraps an input reader and always holds the most recently
/// produced token, if any.
#[derive(Debug)]
pub struct Lexer<R> {
    input_reader: R,
    current_token: Option<Token>,
    pos: Pos,
}

impl<R: ReadInput> Lexer<R> {
    /// The characters the wrapped reader has not yet consumed.
    pub closed spec fn spec_rem(&self) -> Seq<char> {
        self.input_reader.remaining()
    }

    /// The position of the next character to be consumed.
    pub closed spec fn spec_pos(&self) -> Pos {
        self.pos
    }

    /// The most recently produced token, if any.
    pub closed spec fn spec_current(&self) -> Option<Token> {
        self.current_token
    }

    /// The tokenizer's invariant: the reader is well formed and offers at
    /// least the four characters of lookahead that keyword and escape
    /// matching need, and the position coordinates stay clear of overflow.
    pub closed spec fn inv(&self) -> bool {
        &&& self.input_reader.inv()
        &&& self.input_reader.lookahead() >= 4
        &&& 1 <= self.pos.line
        &&& 1 <= self.pos.column
        &&& self.pos.line + self.input_reader.remaining().len() <= usize::MAX
        &&& self.pos.column + self.input_reader.remaining().len() <= usize::MAX
        &&& self.pos.offset + self.input_reader.remaining().len() <= usize::MAX
    }

    fn advance_column(&mut self, by: usize) -> (p: Pos)
        requires
            old(self).pos.column + by <= usize::MAX,
            old(self).pos.offset + by <= usize::MAX,
        ensures
            final(self).input_reader == old(self).input_reader,
            final(self).current_token == old(self).current_token,
            final(self).pos.line == old(self).pos.line,
            final(self).pos.column == old(self).pos.column + by,
            final(self).pos.offset == old(self).pos.offset + by,
            p == final(self).pos,
    {
        self.pos.column = self.pos.column + by;
        self.pos.offset = self.pos.offset + by;
        self.pos
    }

    fn advance_line(&mut self) -> (p: Pos)
        requires
            old(self).pos.line + 1 <= usize::MAX,
            old(self).pos.offset + 1 <= usize::MAX,
        ensures
            final(self).input_reader == old(self).input_reader,
            final(self).current_token == old(self).current_token,
            final(self).pos.line == old(self).pos.line + 1,
            final(self).pos.column == 1,
            final(self).pos.offset == old(self).pos.offset + 1,
            p == final(self).pos,
    {
        self.pos.column = 1;
        self.pos.line = self.pos.line + 1;
        self.pos.offset = self.pos.offset + 1;
        self.pos
    }

    /// Reads one character through the reader and consumes it.
    fn advance_input_reader(&mut self) -> (r: Option<char>)
        requires
            old(self).input_reader.inv(),
            old(self).input_reader.lookahead() >= 1,
        ensures
            final(self).input_reader.inv(),
            final(self).input_reader.lookahead() == old(self).input_reader.lookahead(),
            final(self).current_token == old(self).current_token,
            final(self).pos == old(self).pos,
            old(self).input_reader.remaining().len() == 0 ==> r is None
                && final(self).input_reader.remaining() == old(self).input_reader.remaining(),
            old(self).input_reader.remaining().len() > 0 ==> r == Some(
                old(self).input_reader.remaining()[0],
            ) && final(self).input_reader.remaining() == old(self).input_reader.remaining().skip(1),
    {
        match self.input_reader.peek(0) {
            None => None,
            Some(c) => match self.input_reader.consume(1) {
                Ok(()) => Some(c),
                Err(_) => {
                    proof {
                        assert(false);
                    }
                    None
                },
            },
        }
    }

    /// Consumes the run of digits and digit separators at the cursor,
    /// returning its text, its length, and whether it held a real digit.
    fn consume_digits(&mut self) -> (r: (String, usize, bool))
        requires
            old(self).input_reader.inv(),
            old(self).input_reader.lookahead() >= 1,
            old(self).input_reader.remaining().len() <= usize::MAX,
        ensures
            final(self).input_reader.inv(),
            final(self).input_reader.lookahead() == old(self).input_reader.lookahead(),
            final(self).current_token == old(self).current_token,
            final(self).pos == old(self).pos,
            ({
                let rem0 = old(self).input_reader.remaining();
                &&& r.0@ == rem0.take(run_len(rem0))
                &&& r.1 == run_len(rem0)
                &&& r.2 == run_has_digit(rem0)
                &&& final(self).input_reader.remaining() == rem0.skip(run_len(rem0))
            }),
    {
        let ghost rem0 = self.input_reader.remaining();
        let mut digits = String::new();
        let mut count: usize = 0;
        let mut saw = false;
        proof {
            lemma_run_len_bounds(rem0);
            assert(rem0.take(0) =~= Seq::<char>::empty());
            assert(rem0.skip(0) =~= rem0);
        }
        loop
            invariant
                self.input_reader.inv(),
                self.input_reader.lookahead() == old(self).input_reader.lookahead(),
                self.input_reader.lookahead() >= 1,
                self.current_token == old(self).current_token,
                self.pos == old(self).pos,
                count <= rem0.len(),
                rem0.len() <= usize::MAX,
                digits@ == rem0.take(count as int),
                self.input_reader.remaining() == rem0.skip(count as int),
                run_len(rem0) == count + run_len(self.input_reader.remaining()),
                run_has_digit(rem0) == (saw || run_has_digit(self.input_reader.remaining())),
            ensures
                run_len(self.input_reader.remaining()) == 0,
                !run_has_digit(self.input_reader.remaining()),
            decreases rem0.len() - count,
        {
            let ghost cur = self.input_reader.remaining();
            match self.input_reader.peek(0) {
                None => {
                    break ;
                },
                Some(c) => {
                    if c == '_' || is_digit_char(c) {
                        push_char(&mut digits, c);
                        match self.input_reader.consume(1) {
                            Ok(()) => {},
                            Err(_) => {
                                proof {
                                    assert(false);
                                }
                            },
                        }
                        saw = saw || is_digit_char(c);
                        count = count + 1;
                        proof {
                            assert(cur.skip(1) =~= rem0.skip(count as int));
                            assert(rem0.take(count as int) =~= rem0.take(count - 1) + seq![c]);
                        }
                    } else {
                        break ;
                    }
                },
            }
        }
        proof {
            assert(count == run_len(rem0));
        }
        (digits, count, saw)
    }

    /// Matches the tail of a fixed keyword against the lookahead: on a
    /// mismatch nothing further is consumed and the keyword is reported.
    fn match_keyword(&mut self, kw: &str) -> (r: Result<String, Error>)
        requires
            old(self).input_reader.inv(),
            2 <= kw@.len(),
            kw@.len() - 1 <= old(self).input_reader.lookahead(),
        ensures
            final(self).input_reader.inv(),
            final(self).input_reader.lookahead() == old(self).input_reader.lookahead(),
            final(self).current_token == old(self).current_token,
            final(self).pos == old(self).pos,
            ({
                let rem0 = old(self).input_reader.remaining();
                let tail = kw@.skip(1);
                if rem0.len() >= tail.len() && rem0.take(tail.len() as int) == tail {
                    &&& r matches Ok(raw) && raw@ == kw@
                    &&& final(self).input_reader.remaining() == rem0.skip(tail.len() as int)
                } else {
                    &&& r matches Err(e) && e.repr matches Repr::Expected(ExpectedKind::Keyword(k))
                        && k@ == kw@
                    &&& final(self).input_reader.remaining() == rem0
                }
            }),
    {
        let ghost rem0 = self.input_reader.remaining();
        let n = kw.unicode_len();
        let mut k: usize = 1;
        let mut matched = true;
        proof {
            assert(rem0.take(0) =~= kw@.subrange(1, 1));
        }
        while k < n
            invariant
                self.input_reader.inv(),
                self.input_reader.lookahead() == old(self).input_reader.lookahead(),
                self.input_reader.remaining() == rem0,
                self.current_token == old(self).current_token,
                self.pos == old(self).pos,
                1 <= k <= n,
                n == kw@.len(),
                n - 1 <= self.input_reader.lookahead(),
                matched == (rem0.len() >= k - 1 && rem0.take(k - 1) == kw@.subrange(1, k as int)),
            decreases n - k,
        {
            let expected = kw.get_char(k);
            let got = self.input_reader.peek(k - 1);
            let step = match got {
                Some(c) => c == expected,
                None => false,
            };
            proof {
                let tailk = kw@.subrange(1, k + 1);
                if matched && step {
                    assert(rem0.len() >= k);
                    assert(rem0.take(k as int) =~= tailk);
                } else {
                    if rem0.len() >= k && rem0.take(k as int) == tailk {
                        assert(rem0.take(k as int)[k - 1] == tailk[k - 1]);
                        assert(rem0[k - 1] == kw@[k as int]);
                        assert(rem0.take(k - 1) =~= kw@.subrange(1, k as int));
                        assert(k - 1 < self.input_reader.lookahead());
                        assert(got == Some(rem0[k - 1]));
                        assert(false);
                    }
                }
            }
            matched = matched && step;
            k = k + 1;
        }
        proof {
            assert(kw@.skip(1) =~= kw@.subrange(1, n as int));
        }
        if matched {
            match self.input_reader.consume(n - 1) {
                Ok(()) => {},
                Err(_) => {
                    proof {
                        assert(false);
                    }
                },
            }
            proof {
                assert(rem0.skip(min(n - 1, rem0.len() as int)) =~= rem0.skip(kw@.skip(1).len() as int));
            }
            Ok(String::from_str(kw))
        } else {
            Err(Error { repr: Repr::Expected(ExpectedKind::Keyword(String::from_str(kw))) })
        }
    }

    /// Matches the optional exponent part of a number, `s` being the whole
    /// token text so far plus the rest of the input, with `count` characters
    /// already consumed into `literal`.
    fn match_number_exponent(&mut self, literal: String, count: usize, Ghost(s): Ghost<Seq<char>>) -> (r: Result<
        (String, usize),
        Error,
    >)
        requires
            old(self).input_reader.inv(),
            old(self).input_reader.lookahead() >= 1,
            1 <= count <= s.len(),
            s.len() <= usize::MAX,
            literal@ == s.take(count as int),
            old(self).input_reader.remaining() == s.skip(count as int),
        ensures
            final(self).input_reader.inv(),
            final(self).input_reader.lookahead() == old(self).input_reader.lookahead(),
            final(self).current_token == old(self).current_token,
            final(self).pos == old(self).pos,
            match lex_number_exponent(s, count as int) {
                Lexed::Token { kind, used } => r matches Ok(p) && p.0@ == s.take(used) && p.1
                    == used && final(self).input_reader.remaining() == s.skip(used),
                Lexed::Failed { issue, used } => r matches Err(e) && err_matches(e, issue)
                    && final(self).input_reader.remaining() == s.skip(used),
            },
    {
        let mut literal = literal;
        let mut count = count;
        let ghost exp_start: int = count as int;
        let ex = match self.input_reader.peek(0) {
            Some(c) => c == 'e' || c == 'E',
            None => false,
        };
        if !ex {
            return Ok((literal, count));
        }
        match self.advance_input_reader() {
            Some(c4) => {
                push_char(&mut literal, c4);
                count = count + 1;
                proof {
                    assert(c4 == s[exp_start]);
                    assert(literal@ =~= s.take(count as int));
                    assert(self.input_reader.remaining() =~= s.skip(count as int));
                }
            },
            None => {
                proof {
                    assert(false);
                }
            },
        }
        let sign = match self.input_reader.peek(0) {
            Some(c) => c == '+' || c == '-',
            None => false,
        };
        if sign {
            match self.advance_input_reader() {
                Some(c5) => {
                    push_char(&mut literal, c5);
                    count = count + 1;
                    proof {
                        assert(c5 == s[exp_start + 1]);
                        assert(literal@ =~= s.take(count as int));
                        assert(self.input_reader.remaining() =~= s.skip(count as int));
                    }
                },
                None => {
                    proof {
                        assert(false);
                    }
                },
            }
        }
        let ghost j: int = count as int;
        let (erun, erl, esaw) = self.consume_digits();
        proof {
            lemma_run_len_bounds(s.skip(j));
        }
        literal.append(erun.as_str());
        count = count + erl;
        proof {
            assert(literal@ =~= s.take(count as int));
            assert(self.input_reader.remaining() =~= s.skip(count as int));
        }
        if !esaw {
            return Err(Error::expected_digit());
        }
        Ok((literal, count))
    }

    /// Matches the optional fraction part of a number, then its exponent.
    fn match_number_fraction(&mut self, literal: String, count: usize, Ghost(s): Ghost<Seq<char>>) -> (r: Result<
        (String, usize),
        Error,
    >)
        requires
            old(self).input_reader.inv(),
            old(self).input_reader.lookahead() >= 1,
            1 <= count <= s.len(),
            s.len() <= usize::MAX,
            literal@ == s.take(count as int),
            old(self).input_reader.remaining() == s.skip(count as int),
        ensures
            final(self).input_reader.inv(),
            final(self).input_reader.lookahead() == old(self).input_reader.lookahead(),
            final(self).current_token == old(self).current_token,
            final(self).pos == old(self).pos,
            match lex_number_fraction(s, count as int) {
                Lexed::Token { kind, used } => r matches Ok(p) && p.0@ == s.take(used) && p.1
                    == used && final(self).input_reader.remaining() == s.skip(used),
                Lexed::Failed { issue, used } => r matches Err(e) && err_matches(e, issue)
                    && final(self).input_reader.remaining() == s.skip(used),
            },
    {
        let mut literal = literal;
        let mut count = count;
        let ghost int_end: int = count as int;
        let dot = match self.input_reader.peek(0) {
            Some(c) => c == '.',
            None => false,
        };
        if !dot {
            proof {
                assert(lex_number_fraction(s, int_end) == lex_number_exponent(s, int_end));
            }
            return self.match_number_exponent(literal, count, Ghost(s));
        }
        match self.advance_input_reader() {
            Some(c3) => {
                push_char(&mut literal, c3);
                count = count + 1;
                proof {
                    assert(c3 == s[int_end]);
                    assert(literal@ =~= s.take(count as int));
                    assert(self.input_reader.remaining() =~= s.skip(count as int));
                }
            },
            None => {
                proof {
                    assert(false);
                }
            },
        }
        let (frun, frl, fsaw) = self.consume_digits();
        proof {
            lemma_run_len_bounds(s.skip(int_end + 1));
        }
        literal.append(frun.as_str());
        count = count + frl;
        proof {
            assert(literal@ =~= s.take(count as int));
            assert(self.input_reader.remaining() =~= s.skip(count as int));
        }
        if !fsaw {
            return Err(Error::expected_digit());
        }
        proof {
            assert(lex_number_fraction(s, int_end) == lex_number_exponent(s, count as int));
        }
        self.match_number_exponent(literal, count, Ghost(s))
    }

    /// Matches a number literal whose first character, already consumed by
    /// the dispatcher, is `first`. Returns the raw text and its length in
    /// characters.
    fn match_number(&mut self, first: char) -> (r: Result<(String, usize), Error>)
        requires
            old(self).input_reader.inv(),
            old(self).input_reader.lookahead() >= 1,
            old(self).input_reader.remaining().len() + 1 <= usize::MAX,
            is_digit(first) || first == '-',
        ensures
            final(self).input_reader.inv(),
            final(self).input_reader.lookahead() == old(self).input_reader.lookahead(),
            final(self).current_token == old(self).current_token,
            final(self).pos == old(self).pos,
            ({
                let s = seq![first] + old(self).input_reader.remaining();
                match lex_number(s) {
                    Lexed::Token { kind, used } => r matches Ok(p) && p.0@ == s.take(used) && p.1
                        == used && final(self).input_reader.remaining() == s.skip(used),
                    Lexed::Failed { issue, used } => r matches Err(e) && err_matches(e, issue)
                        && final(self).input_reader.remaining() == s.skip(used),
                }
            }),
    {
        let ghost s = seq![first] + old(self).input_reader.remaining();
        proof {
            assert(s[0] == first);
            assert(s.skip(1) =~= old(self).input_reader.remaining());
        }
        let mut literal = String::new();
        push_char(&mut literal, first);
        let mut count: usize = 1;
        let first_digit = if first == '-' {
            match self.advance_input_reader() {
                None => {
                    proof {
                        assert(self.input_reader.remaining() =~= s.skip(1));
                    }
                    return Err(Error::expected_digit());
                },
                Some(c) => {
                    push_char(&mut literal, c);
                    count = 2;
                    proof {
                        assert(c == s[1]);
                        assert(self.input_reader.remaining() =~= s.skip(2));
                    }
                    if !is_digit_char(c) {
                        return Err(Error::expected_digit());
                    }
                    c
                },
            }
        } else {
            first
        };
        let ghost b: int = if first == '-' {
            1int
        } else {
            0int
        };
        proof {
            assert(count == b + 1);
            assert(literal@ =~= s.take(b + 1));
            assert(self.input_reader.remaining() =~= s.skip(b + 1));
            assert(is_digit(s[b]));
            assert(first_digit == s[b]);
            assert(lex_number(s) == lex_number_integer(s, b));
        }
        if first_digit == '0' {
            let ahead = self.input_reader.peek(0);
            match ahead {
                Some(c2) => {
                    proof {
                        assert(c2 == s.skip(b + 1)[0]);
                        assert(c2 == s[b + 1]);
                    }
                    if is_digit_char(c2) {
                        return Err(Error::unexpected(c2));
                    }
                },
                None => {},
            }
            proof {
                assert(lex_number_integer(s, b) == lex_number_fraction(s, count as int));
            }
        } else {
            let (run, rl, _saw) = self.consume_digits();
            proof {
                lemma_run_len_bounds(s.skip(b + 1));
            }
            literal.append(run.as_str());
            count = count + rl;
            proof {
                assert(literal@ =~= s.take(count as int));
                assert(self.input_reader.remaining() =~= s.skip(count as int));
                assert(lex_number_integer(s, b) == lex_number_fraction(s, count as int));
            }
        }
        self.match_number_fraction(literal, count, Ghost(s))
    }

    /// Consumes what follows `\u` in a string: four hex digits on success;
    /// on fewer, the valid digits plus one further character.
    fn match_unicode_escape(&mut self, raw: String, count: usize, Ghost(s): Ghost<Seq<char>>) -> (r: Result<
        (String, usize),
        Error,
    >)
        requires
            old(self).input_reader.inv(),
            old(self).input_reader.lookahead() >= 4,
            1 <= count <= s.len(),
            s.len() <= usize::MAX,
            raw@ == s.take(count as int),
            old(self).input_reader.remaining() == s.skip(count as int),
        ensures
            final(self).input_reader.inv(),
            final(self).input_reader.lookahead() == old(self).input_reader.lookahead(),
            final(self).current_token == old(self).current_token,
            final(self).pos == old(self).pos,
            ({
                let vc = hex_count(s, count as int);
                if vc == 4 {
                    r matches Ok(p) && p.0@ == s.take(count + 4) && p.1 == count + 4
                        && final(self).input_reader.remaining() == s.skip(count + 4)
                } else {
                    r matches Err(e) && e.repr matches Repr::Expected(
                        ExpectedKind::Digit(DigitKind::Hex),
                    ) && final(self).input_reader.remaining() == s.skip(
                        if count + vc + 1 <= s.len() {
                            count + vc + 1
                        } else {
                            s.len() as int
                        },
                    )
                }
            }),
    {
        let mut raw = raw;
        let mut count = count;
        let h0 = match self.input_reader.peek(0) {
            Some(h) => is_hex_digit_char(h),
            None => false,
        };
        let h1 = match self.input_reader.peek(1) {
            Some(h) => is_hex_digit_char(h),
            None => false,
        };
        let h2 = match self.input_reader.peek(2) {
            Some(h) => is_hex_digit_char(h),
            None => false,
        };
        let h3 = match self.input_reader.peek(3) {
            Some(h) => is_hex_digit_char(h),
            None => false,
        };
        let vc: usize = (if h0 {
            1usize
        } else {
            0usize
        }) + (if h1 {
            1usize
        } else {
            0usize
        }) + (if h2 {
            1usize
        } else {
            0usize
        }) + (if h3 {
            1usize
        } else {
            0usize
        });
        proof {
            assert(vc == hex_count(s, count as int));
        }
        let ghost cnt0 = count as int;
        if vc != 4 {
            let ghost rem0 = self.input_reader.remaining();
            match self.input_reader.consume(vc + 1) {
                Ok(()) => {},
                Err(_) => {
                    proof {
                        assert(false);
                    }
                },
            }
            proof {
                assert(self.input_reader.remaining() =~= s.skip(
                    if count + vc + 1 <= s.len() {
                        count + vc + 1
                    } else {
                        s.len() as int
                    },
                ));
            }
            return Err(Error::expected_hex_digit());
        }
        proof {
            assert(count + 4 <= s.len());
        }
        let mut t: usize = 0;
        while t < 4
            invariant
                self.input_reader.inv(),
                self.input_reader.lookahead() == old(self).input_reader.lookahead(),
                self.input_reader.lookahead() >= 4,
                self.current_token == old(self).current_token,
                self.pos == old(self).pos,
                t <= 4,
                count == cnt0 + t,
                cnt0 + 4 <= s.len(),
                s.len() <= usize::MAX,
                raw@ == s.take(count as int),
                self.input_reader.remaining() == s.skip(count as int),
            decreases 4 - t,
        {
            match self.advance_input_reader() {
                Some(h) => {
                    push_char(&mut raw, h);
                    count = count + 1;
                    proof {
                        assert(h == s[count - 1]);
                        assert(raw@ =~= s.take(count as int));
                        assert(self.input_reader.remaining() =~= s.skip(count as int));
                    }
                },
                None => {
                    proof {
                        assert(false);
                    }
                },
            }
            t = t + 1;
        }
        Ok((raw, count))
    }

    /// Matches a string literal whose opening quote is already consumed by
    /// the dispatcher. Returns the raw text, quotes included, and its
    /// length in characters.
    #[verifier::rlimit(50)]
    fn match_string(&mut self) -> (r: Result<(String, usize), Error>)
        requires
            old(self).input_reader.inv(),
            old(self).input_reader.lookahead() >= 4,
            old(self).input_reader.remaining().len() + 1 <= usize::MAX,
        ensures
            final(self).input_reader.inv(),
            final(self).input_reader.lookahead() == old(self).input_reader.lookahead(),
            final(self).current_token == old(self).current_token,
            final(self).pos == old(self).pos,
            ({
                let s = seq!['"'] + old(self).input_reader.remaining();
                match lex_string_from(s, 1) {
                    Lexed::Token { kind, used } => r matches Ok(p) && p.0@ == s.take(used) && p.1
                        == used && final(self).input_reader.remaining() == s.skip(used),
                    Lexed::Failed { issue, used } => r matches Err(e) && err_matches(e, issue)
                        && final(self).input_reader.remaining() == s.skip(used),
                }
            }),
    {
        let ghost s = seq!['"'] + old(self).input_reader.remaining();
        proof {
            assert(s.skip(1) =~= old(self).input_reader.remaining());
        }
        let mut raw = String::new();
        push_char(&mut raw, '"');
        let mut count: usize = 1;
        proof {
            assert(raw@ =~= s.take(1));
        }
        loop
            invariant
                self.input_reader.inv(),
                self.input_reader.lookahead() == old(self).input_reader.lookahead(),
                self.input_reader.lookahead() >= 4,
                self.current_token == old(self).current_token,
                self.pos == old(self).pos,
                s == seq!['"'] + old(self).input_reader.remaining(),
                1 <= count <= s.len(),
                s.len() <= usize::MAX,
                raw@ == s.take(count as int),
                self.input_reader.remaining() == s.skip(count as int),
                lex_string_from(s, 1) == lex_string_from(s, count as int),
            decreases s.len() - count,
        {
            let ghost i = count as int;
            match self.advance_input_reader() {
                None => {
                    proof {
                        assert(count == s.len());
                    }
                    return Err(Error::expected_str_terminator());
                },
                Some(c) => {
                    proof {
                        assert(c == s.skip(i)[0]);
                        assert(c == s[i]);
                        assert(self.input_reader.remaining() =~= s.skip(i + 1));
                    }
                    if c == '"' {
                        push_char(&mut raw, c);
                        count = count + 1;
                        proof {
                            assert(raw@ =~= s.take(count as int));
                        }
                        return Ok((raw, count));
                    }
                    if is_control_char(c) {
                        return Err(Error::unexpected(c));
                    }
                    if c == '\\' {
                        push_char(&mut raw, c);
                        count = count + 1;
                        proof {
                            assert(raw@ =~= s.take(count as int));
                        }
                        match self.advance_input_reader() {
                            None => {
                                proof {
                                    assert(count == s.len());
                                }
                                return Err(Error::expected_escaped_char());
                            },
                            Some(c2) => {
                                proof {
                                    assert(c2 == s.skip(i + 1)[0]);
                                    assert(c2 == s[i + 1]);
                                    assert(self.input_reader.remaining() =~= s.skip(i + 2));
                                }
                                if is_short_escape_char(c2) {
                                    push_char(&mut raw, c2);
                                    count = count + 1;
                                    proof {
                                        assert(raw@ =~= s.take(count as int));
                                    }
                                } else if c2 == 'u' {
                                    push_char(&mut raw, c2);
                                    count = count + 1;
                                    proof {
                                        assert(raw@ =~= s.take(count as int));
                                    }
                                    match self.match_unicode_escape(raw, count, Ghost(s)) {
                                        Ok(p) => {
                                            raw = p.0;
                                            count = p.1;
                                        },
                                        Err(e) => {
                                            return Err(e);
                                        },
                                    }
                                } else {
                                    return Err(Error::expected_escaped_char());
                                }
                            },
                        }
                    } else {
                        push_char(&mut raw, c);
                        count = count + 1;
                        proof {
                            assert(raw@ =~= s.take(count as int));
                        }
                    }
                },
            }
        }
    }
}


/// What one pull of the tokenizer does, given the unconsumed characters
/// `pre_rem` and position `pre_pos` before it: on empty input it produces
/// nothing and succeeds; otherwise exactly what the grammar model
/// prescribes — a token whose raw text is the consumed characters and
/// whose positions bracket it, or the prescribed error with the prescribed
/// amount of input consumed and the position left where the token began.
pub open spec fn consume_post(
    pre_rem: Seq<char>,
    pre_pos: Pos,
    post_rem: Seq<char>,
    post_pos: Pos,
    post_cur: Option<Token>,
    r: Result<(), Error>,
) -> bool {
    if pre_rem.len() == 0 {
        &&& r is Ok
        &&& post_cur is None
        &&& post_rem == pre_rem
        &&& post_pos == pre_pos
    } else {
        match lex_token(pre_rem) {
            Lexed::Token { kind, used } => {
                &&& r is Ok
                &&& post_rem == pre_rem.skip(used)
                &&& post_cur matches Some(t) && t.kind == kind && t.raw@ == pre_rem.take(used)
                    && t.start == pre_pos && t.end == post_pos && pos_advanced(
                    pre_pos,
                    t.raw@,
                    post_pos,
                )
            },
            Lexed::Failed { issue, used } => {
                &&& r matches Err(e) && err_matches(e, issue)
                &&& post_cur is None
                &&& post_rem == pre_rem.skip(used)
                &&& post_pos == pre_pos
            },
        }
    }
}

impl<R: ReadInput> Lexer<R> {
    /// Emits the single-character token `kind` for the already consumed
    /// character `c`.
    fn emit_single(&mut self, c: char, kind: TokenKind) -> (t: Token)
        requires
            old(self).pos.column + 1 <= usize::MAX,
            old(self).pos.offset + 1 <= usize::MAX,
            old(self).pos.line + 1 <= usize::MAX,
        ensures
            final(self).input_reader == old(self).input_reader,
            final(self).current_token == old(self).current_token,
            t.kind == kind,
            t.raw@ == seq![c],
            t.start == old(self).pos,
            t.end == final(self).pos,
            pos_advanced(old(self).pos, seq![c], final(self).pos),
    {
        let start = self.pos;
        let end = if c == '\n' {
            self.advance_line()
        } else {
            self.advance_column(1)
        };
        let mut raw = String::new();
        push_char(&mut raw, c);
        proof {
            assert(raw@ =~= seq![c]);
            assert(seq![c][0] == c);
            assert(seq!['\n'][0] == '\n');
            if c != '\n' {
                assert(seq![c] != seq!['\n']);
            }
        }
        Token { kind, raw, start, end }
    }

    /// Produces the next token from the input, or reports why lexing
    /// fails: exactly the characters the grammar model prescribes are
    /// consumed, and the produced token, if any, becomes the current one.
    /// On an error the current token is left empty and the reader keeps
    /// whatever it consumed before the failure; nothing is re-read.
    #[verifier::rlimit(100)]
    pub fn consume(&mut self) -> (r: Result<(), Error>)
        requires
            old(self).inv(),
        ensures
            final(self).inv(),
            consume_post(
                old(self).spec_rem(),
                old(self).spec_pos(),
                final(self).spec_rem(),
                final(self).spec_pos(),
                final(self).spec_current(),
                r,
            ),
    {
        self.current_token = None;
        let start = self.pos;
        let ghost s0 = self.input_reader.remaining();
        proof {
            if s0.len() > 0 {
                lemma_lexed_used(s0);
            }
        }
        match self.advance_input_reader() {
            None => Ok(()),
            Some(c) => {
                proof {
                    assert(c == s0[0]);
                    assert(self.input_reader.remaining() =~= s0.skip(1));
                }
                if c == ' ' || c == '\t' || c == '\r' || c == '\n' {
                    let t = self.emit_single(c, TokenKind::Whitespace);
                    proof {
                        assert(t.raw@ =~= s0.take(1));
                    }
                    self.current_token = Some(t);
                    Ok(())
                } else if c == ',' {
                    let t = self.emit_single(c, TokenKind::Comma);
                    proof {
                        assert(t.raw@ =~= s0.take(1));
                    }
                    self.current_token = Some(t);
                    Ok(())
                } else if c == '{' {
                    let t = self.emit_single(c, TokenKind::OpenBrace);
                    proof {
                        assert(t.raw@ =~= s0.take(1));
                    }
                    self.current_token = Some(t);
                    Ok(())
                } else if c == '}' {
                    let t = self.emit_single(c, TokenKind::CloseBrace);
                    proof {
                        assert(t.raw@ =~= s0.take(1));
                    }
                    self.current_token = Some(t);
                    Ok(())
                } else if c == '[' {
                    let t = self.emit_single(c, TokenKind::OpenBracket);
                    proof {
                        assert(t.raw@ =~= s0.take(1));
                    }
                    self.current_token = Some(t);
                    Ok(())
                } else if c == ']' {
                    let t = self.emit_single(c, TokenKind::CloseBracket);
                    proof {
                        assert(t.raw@ =~= s0.take(1));
                    }
                    self.current_token = Some(t);
                    Ok(())
                } else if c == ':' {
                    let t = self.emit_single(c, TokenKind::Colon);
                    proof {
                        assert(t.raw@ =~= s0.take(1));
                    }
                    self.current_token = Some(t);
                    Ok(())
                } else if c == 'n' {
                    proof {
                        reveal_strlit("null");
                        assert("null"@ =~= seq!['n', 'u', 'l', 'l']);
                    }
                    self.emit_keyword("null", 4, TokenKind::Literal { kind: LiteralKind::Null }, start, Ghost(s0))
                } else if c == 't' {
                    proof {
                        reveal_strlit("true");
                        assert("true"@ =~= seq!['t', 'r', 'u', 'e']);
                    }
                    self.emit_keyword("true", 4, TokenKind::Literal { kind: LiteralKind::Bool }, start, Ghost(s0))
                } else if c == 'f' {
                    proof {
                        reveal_strlit("false");
                        assert("false"@ =~= seq!['f', 'a', 'l', 's', 'e']);
                    }
                    self.emit_keyword("false", 5, TokenKind::Literal { kind: LiteralKind::Bool }, start, Ghost(s0))
                } else if c == '-' || is_digit_char(c) {
                    match self.match_number(c) {
                        Err(e) => {
                            proof {
                                assert(seq![c] + s0.skip(1) =~= s0);
                            }
                            Err(e)
                        },
                        Ok(p) => {
                            let (raw, n) = p;
                            proof {
                                assert(seq![c] + s0.skip(1) =~= s0);
                                assert(n >= 1);
                                assert(raw@[0] == c);
                                assert(seq!['\n'][0] == '\n');
                                assert(raw@ != seq!['\n']);
                            }
                            let end = self.advance_column(n);
                            self.current_token = Some(
                                Token {
                                    kind: TokenKind::Literal { kind: LiteralKind::Num },
                                    raw,
                                    start,
                                    end,
                                },
                            );
                            Ok(())
                        },
                    }
                } else if c == '"' {
                    match self.match_string() {
                        Err(e) => {
                            proof {
                                assert(seq![c] + s0.skip(1) =~= s0);
                            }
                            Err(e)
                        },
                        Ok(p) => {
                            let (raw, n) = p;
                            proof {
                                assert(seq![c] + s0.skip(1) =~= s0);
                                assert(n >= 1);
                                assert(raw@[0] == c);
                                assert(seq!['\n'][0] == '\n');
                                assert(raw@ != seq!['\n']);
                            }
                            let end = self.advance_column(n);
                            self.current_token = Some(
                                Token {
                                    kind: TokenKind::Literal { kind: LiteralKind::Str },
                                    raw,
                                    start,
                                    end,
                                },
                            );
                            proof {
                                lemma_string_kind(s0, 1);
                            }
                            Ok(())
                        },
                    }
                } else {
                    Err(Error::unexpected(c))
                }
            },
        }
    }

    /// Matches the keyword `kw`, whose first character is already
    /// consumed, and emits its literal token.
    #[verifier::rlimit(50)]
    fn emit_keyword(
        &mut self,
        kw: &str,
        klen: usize,
        kind: TokenKind,
        start: Pos,
        Ghost(s0): Ghost<Seq<char>>,
    ) -> (r: Result<(), Error>)
        requires
            old(self).input_reader.inv(),
            old(self).input_reader.lookahead() >= 4,
            kw@.len() == klen,
            2 <= klen <= 5,
            s0.len() > 0,
            s0[0] == kw@[0],
            s0.skip(1) == old(self).input_reader.remaining(),
            old(self).current_token is None,
            old(self).pos == start,
            start.column + s0.len() <= usize::MAX,
            start.offset + s0.len() <= usize::MAX,
        ensures
            final(self).input_reader.inv(),
            final(self).input_reader.lookahead() == old(self).input_reader.lookahead(),
            match lex_keyword(s0, kw@, kind) {
                Lexed::Token { kind: k2, used } => {
                    &&& r is Ok
                    &&& final(self).input_reader.remaining() == s0.skip(used)
                    &&& final(self).current_token matches Some(t) && t.kind == kind && t.raw@
                        == s0.take(used) && t.start == start && t.end == final(self).pos
                        && pos_advanced(start, t.raw@, final(self).pos)
                },
                Lexed::Failed { issue, used } => {
                    &&& r matches Err(e) && err_matches(e, issue)
                    &&& final(self).current_token is None
                    &&& final(self).input_reader.remaining() == s0.skip(used)
                    &&& final(self).pos == start
                },
            },
    {
        match self.match_keyword(kw) {
            Err(e) => {
                proof {
                    let tail = kw@.skip(1);
                    if s0.len() >= klen && s0.take(klen as int) == kw@ {
                        assert(forall|p: int| 0 <= p < klen - 1 ==> s0.skip(1)[p] == s0[p + 1]);
                        assert(s0.skip(1).take(klen - 1) =~= tail);
                        assert(false);
                    }
                    assert(s0.skip(1) =~= old(self).input_reader.remaining());
                }
                Err(e)
            },
            Ok(raw) => {
                proof {
                    let tail = kw@.skip(1);
                    let rem0 = s0.skip(1);
                    if rem0.len() >= tail.len() && rem0.take(tail.len() as int) == tail {
                        assert(s0.take(klen as int) =~= seq![kw@[0]] + rem0.take(klen - 1));
                        assert(seq![kw@[0]] + tail =~= kw@);
                        assert(s0.take(klen as int) == kw@);
                    } else {
                        if s0.len() >= klen && s0.take(klen as int) == kw@ {
                            assert(rem0.take(klen - 1) =~= tail);
                            assert(false);
                        }
                    }
                    assert(s0.skip(1).skip(klen - 1) =~= s0.skip(klen as int));
                    assert(raw@.len() == klen);
                    assert(seq!['\n'].len() == 1);
                    assert(raw@ != seq!['\n']);
                }
                let end = self.advance_column(klen);
                self.current_token = Some(Token { kind, raw, start, end });
                Ok(())
            },
        }
    }

    /// Wraps a reader and immediately produces the first token, if the
    /// input is nonempty; construction fails exactly as one pull does.
    pub fn new(input_reader: R) -> (r: Result<Lexer<R>, Error>)
        requires
            input_reader.inv(),
            input_reader.lookahead() >= 4,
            input_reader.remaining().len() < usize::MAX,
        ensures
            ({
                let rem0 = input_reader.remaining();
                let p0 = Pos { line: 1, column: 1, offset: 0 };
                match r {
                    Ok(lx) => lx.inv() && consume_post(
                        rem0,
                        p0,
                        lx.spec_rem(),
                        lx.spec_pos(),
                        lx.spec_current(),
                        Result::<(), Error>::Ok(()),
                    ),
                    Err(e) => rem0.len() > 0 && (lex_token(rem0) matches Lexed::Failed {
                        issue,
                        used,
                    } && err_matches(e, issue)),
                }
            }),
    {
        let mut lexer = Lexer {
            input_reader,
            current_token: None,
            pos: Pos { line: 1, column: 1, offset: 0 },
        };
        match lexer.consume() {
            Ok(()) => Ok(lexer),
            Err(e) => Err(e),
        }
    }

    /// Returns the current token, if any, without consuming it.
    pub fn peek(&self) -> (r: Option<&Token>)
        ensures
            match self.spec_current() {
                None => r is None,
                Some(t) => r matches Some(p) && *p == t,
            },
    {
        self.current_token.as_ref()
    }

    /// Turns the tokenizer into an iterator over its tokens.
    pub fn into_iter(self) -> (it: IntoIter<R>)
        requires
            self.inv(),
        ensures
            it.inv(),
            it.spec_lexer() == self,
            it.spec_last_err() is None,
    {
        IntoIter { lexer: self, last_err: None }
    }
}

/// Iterator over a tokenizer's tokens: yields each produced token once;
/// after a failing pull it yields that error once and then nothing
/// further.
#[derive(Debug)]
pub struct IntoIter<R> {
    lexer: Lexer<R>,
    last_err: Option<Error>,
}

impl<R: ReadInput> IntoIter<R> {
    /// The wrapped tokenizer.
    pub closed spec fn spec_lexer(&self) -> Lexer<R> {
        self.lexer
    }

    /// An error produced by the previous pull, still to be yielded.
    pub closed spec fn spec_last_err(&self) -> Option<Error> {
        self.last_err
    }

    /// The iterator's invariant: a pending error only exists while no
    /// token does.
    pub closed spec fn inv(&self) -> bool {
        &&& self.lexer.inv()
        &&& (self.last_err is Some ==> self.lexer.spec_current() is None)
    }

    /// Yields the next token; a lexical error is yielded exactly once, and
    /// afterwards the sequence has terminated.
    pub fn next(&mut self) -> (r: Option<Result<Token, Error>>)
        requires
            old(self).inv(),
        ensures
            final(self).inv(),
            old(self).spec_last_err() matches Some(e) ==> r == Some(Result::<Token, Error>::Err(e))
                && final(self).spec_last_err() is None && final(self).spec_lexer() == old(self).spec_lexer(),
            old(self).spec_last_err() is None && old(self).spec_lexer().spec_current() is None
                ==> r is None && final(self).spec_lexer() == old(self).spec_lexer() && final(self).spec_last_err() is None,
            old(self).spec_last_err() is None ==> (old(self).spec_lexer().spec_current() matches Some(
                t,
            ) ==> ({
                let lx0 = old(self).spec_lexer();
                let lx1 = final(self).spec_lexer();
                &&& r == Some(Result::<Token, Error>::Ok(t))
                &&& if lx0.spec_rem().len() == 0 {
                    &&& lx1.spec_current() is None
                    &&& final(self).spec_last_err() is None
                    &&& lx1.spec_rem() == lx0.spec_rem()
                    &&& lx1.spec_pos() == lx0.spec_pos()
                } else {
                    match lex_token(lx0.spec_rem()) {
                        Lexed::Token { kind, used } => {
                            &&& final(self).spec_last_err() is None
                            &&& lx1.spec_current() matches Some(t2) && t2.kind == kind && t2.raw@
                                == lx0.spec_rem().take(used) && t2.start == lx0.spec_pos()
                                && t2.end == lx1.spec_pos() && pos_advanced(
                                lx0.spec_pos(),
                                t2.raw@,
                                lx1.spec_pos(),
                            )
                            &&& lx1.spec_rem() == lx0.spec_rem().skip(used)
                        },
                        Lexed::Failed { issue, used } => {
                            &&& lx1.spec_current() is None
                            &&& final(self).spec_last_err() matches Some(e2) && err_matches(
                                e2,
                                issue,
                            )
                            &&& lx1.spec_rem() == lx0.spec_rem().skip(used)
                            &&& lx1.spec_pos() == lx0.spec_pos()
                        },
                    }
                }
            })),
    {
        match self.last_err.take() {
            Some(e) => {
                return Some(Err(e));
            },
            None => {},
        }
        match self.lexer.current_token.take() {
            None => None,
            Some(t) => {
                match self.lexer.consume() {
                    Ok(()) => {},
                    Err(e) => {
                        self.last_err = Some(e);
                    },
                }
                Some(Ok(t))
            },
        }
    }
}

} // verus!
