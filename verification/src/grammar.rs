//! The lexical grammar of JSON tokens, as a mathematical model.
//!
//! [`lex_token`] says, for any sequence of not-yet-consumed characters,
//! which token the tokenizer produces next — its kind and how many
//! characters it spans — or with which error it fails and how many
//! characters it consumed before failing. The executable tokenizer in
//! [`crate::lexer`] is verified against this model, and the round-trip law
//! [`lemma_round_trip`] is proved of it.

use vstd::prelude::*;

use crate::lexer::LiteralKind;
use crate::lexer::TokenKind;

verus! {

/// The whitespace characters; each lexes as one `Whitespace` token.
pub open spec fn is_whitespace(c: char) -> bool {
    c == ' ' || c == '\t' || c == '\r' || c == '\n'
}

/// The decimal digits `0` to `9`.
pub open spec fn is_digit(c: char) -> bool {
    0x30 <= (c as u32) <= 0x39
}

/// The hexadecimal digits `0-9`, `a-f` and `A-F`.
pub open spec fn is_hex_digit(c: char) -> bool {
    is_digit(c) || 0x61 <= (c as u32) <= 0x66 || 0x41 <= (c as u32) <= 0x46
}

/// The ASCII control characters, which may not appear bare inside strings.
pub open spec fn is_control(c: char) -> bool {
    (c as u32) < 0x20
}

/// The characters allowed after a backslash as a short escape.
pub open spec fn is_short_escape(c: char) -> bool {
    c == '"' || c == '\\' || c == '/' || c == 'b' || c == 'f' || c == 'n' || c == 'r' || c == 't'
}

/// A character of a digit run: a digit, or an underscore digit separator,
/// which is tolerated and kept in the token's raw text.
pub open spec fn is_run_char(c: char) -> bool {
    is_digit(c) || c == '_'
}

/// The grammar rule that failed, and for the keyword rule, which keyword
/// was expected.
pub enum Issue {
    ExpectedKeyword(Seq<char>),
    ExpectedDigit,
    ExpectedHexDigit,
    ExpectedStringTerminator,
    ExpectedEscapedCharacter,
    UnexpectedCharacter(char),
}

/// What lexing one token from a nonempty input yields: a token kind
/// spanning `used` characters, or a failure after consuming `used`
/// characters.
pub enum Lexed {
    Token { kind: TokenKind, used: int },
    Failed { issue: Issue, used: int },
}

/// The number of characters a lexing outcome consumed.
pub open spec fn used_of(l: Lexed) -> int {
    match l {
        Lexed::Token { used, .. } => used,
        Lexed::Failed { used, .. } => used,
    }
}

/// Length of the run of digits and separators at the front of `s`.
pub open spec fn run_len(s: Seq<char>) -> int
    decreases s.len(),
{
    if s.len() > 0 && is_run_char(s[0]) {
        1 + run_len(s.skip(1))
    } else {
        0
    }
}

/// Whether the run at the front of `s` contains at least one real digit.
pub open spec fn run_has_digit(s: Seq<char>) -> bool
    decreases s.len(),
{
    s.len() > 0 && is_run_char(s[0]) && (is_digit(s[0]) || run_has_digit(s.skip(1)))
}

pub proof fn lemma_run_len_bounds(s: Seq<char>)
    ensures
        0 <= run_len(s) <= s.len(),
    decreases s.len(),
{
    if s.len() > 0 && is_run_char(s[0]) {
        lemma_run_len_bounds(s.skip(1));
    }
}

/// Matching a fixed keyword: the input must continue with the whole keyword
/// text; on a mismatch only the dispatching first character has been
/// consumed.
pub open spec fn lex_keyword(s: Seq<char>, kw: Seq<char>, kind: TokenKind) -> Lexed {
    if s.len() >= kw.len() && s.take(kw.len() as int) == kw {
        Lexed::Token { kind, used: kw.len() as int }
    } else {
        Lexed::Failed { issue: Issue::ExpectedKeyword(kw), used: 1 }
    }
}

/// The exponent part: an optional `e`/`E`, an optional sign, then a digit
/// run that must contain at least one digit. `i` is where the exponent part
/// starts; without one the number ends there.
pub open spec fn lex_number_exponent(s: Seq<char>, i: int) -> Lexed {
    if i < s.len() && (s[i] == 'e' || s[i] == 'E') {
        let j = if i + 1 < s.len() && (s[i + 1] == '+' || s[i + 1] == '-') {
            i + 2
        } else {
            i + 1
        };
        let r = s.skip(j);
        if !run_has_digit(r) {
            Lexed::Failed { issue: Issue::ExpectedDigit, used: j + run_len(r) }
        } else {
            Lexed::Token {
                kind: TokenKind::Literal { kind: LiteralKind::Num },
                used: j + run_len(r),
            }
        }
    } else {
        Lexed::Token { kind: TokenKind::Literal { kind: LiteralKind::Num }, used: i }
    }
}

/// The fraction part: an optional `.` followed by a digit run that must
/// contain at least one digit; the run is consumed before the check, so a
/// failure still consumed it.
pub open spec fn lex_number_fraction(s: Seq<char>, i: int) -> Lexed {
    if i < s.len() && s[i] == '.' {
        let r = s.skip(i + 1);
        if !run_has_digit(r) {
            Lexed::Failed { issue: Issue::ExpectedDigit, used: i + 1 + run_len(r) }
        } else {
            lex_number_exponent(s, i + 1 + run_len(r))
        }
    } else {
        lex_number_exponent(s, i)
    }
}

/// The integer part, starting at the first digit `s[b]`: a `0` takes no
/// further digits — a digit right after it is refused as a leading zero —
/// while `1` to `9` take the whole digit run.
pub open spec fn lex_number_integer(s: Seq<char>, b: int) -> Lexed
    recommends
        0 <= b < s.len(),
        is_digit(s[b]),
{
    if s[b] == '0' {
        if b + 1 < s.len() && is_digit(s[b + 1]) {
            Lexed::Failed { issue: Issue::UnexpectedCharacter(s[b + 1]), used: b + 1 }
        } else {
            lex_number_fraction(s, b + 1)
        }
    } else {
        lex_number_fraction(s, b + 1 + run_len(s.skip(b + 1)))
    }
}

/// A number token: optional minus sign, which must be followed directly by
/// a digit, then integer part, optional fraction and optional exponent.
pub open spec fn lex_number(s: Seq<char>) -> Lexed
    recommends
        s.len() > 0,
        is_digit(s[0]) || s[0] == '-',
{
    if s[0] == '-' {
        if s.len() == 1 {
            Lexed::Failed { issue: Issue::ExpectedDigit, used: 1 }
        } else if !is_digit(s[1]) {
            Lexed::Failed { issue: Issue::ExpectedDigit, used: 2 }
        } else {
            lex_number_integer(s, 1)
        }
    } else {
        lex_number_integer(s, 0)
    }
}

/// How many of the up-to-four characters starting at `s[i]` are hex digits:
/// what examining four lookahead slots after `\u` observes.
pub open spec fn hex_count(s: Seq<char>, i: int) -> int {
    (if i < s.len() && is_hex_digit(s[i]) {
        1int
    } else {
        0int
    }) + (if i + 1 < s.len() && is_hex_digit(s[i + 1]) {
        1int
    } else {
        0int
    }) + (if i + 2 < s.len() && is_hex_digit(s[i + 2]) {
        1int
    } else {
        0int
    }) + (if i + 3 < s.len() && is_hex_digit(s[i + 3]) {
        1int
    } else {
        0int
    })
}

/// A string token, scanned from index `i` (the opening quote sits at index
/// zero and is already consumed). A bare quote ends the token; a control
/// character is refused; a backslash starts an escape: one of the short
/// escapes, or `u` followed by exactly four hex digits — on fewer, the
/// valid digits plus one further character are consumed before failing.
/// Running out of input inside the string is a missing terminator.
pub open spec fn lex_string_from(s: Seq<char>, i: int) -> Lexed
    recommends
        1 <= i <= s.len(),
    decreases s.len() - i,
{
    if i >= s.len() {
        Lexed::Failed { issue: Issue::ExpectedStringTerminator, used: s.len() as int }
    } else if s[i] == '"' {
        Lexed::Token { kind: TokenKind::Literal { kind: LiteralKind::Str }, used: i + 1 }
    } else if is_control(s[i]) {
        Lexed::Failed { issue: Issue::UnexpectedCharacter(s[i]), used: i + 1 }
    } else if s[i] == '\\' {
        if i + 1 >= s.len() {
            Lexed::Failed { issue: Issue::ExpectedEscapedCharacter, used: i + 1 }
        } else if is_short_escape(s[i + 1]) {
            lex_string_from(s, i + 2)
        } else if s[i + 1] == 'u' {
            let vc = hex_count(s, i + 2);
            if vc == 4 {
                lex_string_from(s, i + 6)
            } else {
                Lexed::Failed {
                    issue: Issue::ExpectedHexDigit,
                    used: if i + 2 + vc + 1 <= s.len() {
                        i + 2 + vc + 1
                    } else {
                        s.len() as int
                    },
                }
            }
        } else {
            Lexed::Failed { issue: Issue::ExpectedEscapedCharacter, used: i + 2 }
        }
    } else {
        lex_string_from(s, i + 1)
    }
}

/// Lexing one token from a nonempty input: a single dispatch on the first
/// character, which is always consumed.
pub open spec fn lex_token(s: Seq<char>) -> Lexed
    recommends
        s.len() > 0,
{
    let c = s[0];
    if is_whitespace(c) {
        Lexed::Token { kind: TokenKind::Whitespace, used: 1 }
    } else if c == ',' {
        Lexed::Token { kind: TokenKind::Comma, used: 1 }
    } else if c == '{' {
        Lexed::Token { kind: TokenKind::OpenBrace, used: 1 }
    } else if c == '}' {
        Lexed::Token { kind: TokenKind::CloseBrace, used: 1 }
    } else if c == '[' {
        Lexed::Token { kind: TokenKind::OpenBracket, used: 1 }
    } else if c == ']' {
        Lexed::Token { kind: TokenKind::CloseBracket, used: 1 }
    } else if c == ':' {
        Lexed::Token { kind: TokenKind::Colon, used: 1 }
    } else if c == 'n' {
        lex_keyword(s, seq!['n', 'u', 'l', 'l'], TokenKind::Literal { kind: LiteralKind::Null })
    } else if c == 't' {
        lex_keyword(s, seq!['t', 'r', 'u', 'e'], TokenKind::Literal { kind: LiteralKind::Bool })
    } else if c == 'f' {
        lex_keyword(
            s,
            seq!['f', 'a', 'l', 's', 'e'],
            TokenKind::Literal { kind: LiteralKind::Bool },
        )
    } else if c == '-' || is_digit(c) {
        lex_number(s)
    } else if c == '"' {
        lex_string_from(s, 1)
    } else {
        Lexed::Failed { issue: Issue::UnexpectedCharacter(c), used: 1 }
    }
}

pub proof fn lemma_string_used(s: Seq<char>, i: int)
    requires
        1 <= i <= s.len(),
    ensures
        1 <= used_of(lex_string_from(s, i)) <= s.len(),
    decreases s.len() - i,
{
    if i >= s.len() {
    } else if s[i] == '"' {
    } else if is_control(s[i]) {
    } else if s[i] == '\\' {
        if i + 1 >= s.len() {
        } else if is_short_escape(s[i + 1]) {
            lemma_string_used(s, i + 2);
        } else if s[i + 1] == 'u' {
            if hex_count(s, i + 2) == 4 {
                lemma_string_used(s, i + 6);
            }
        }
    } else {
        lemma_string_used(s, i + 1);
    }
}

/// A string scan that succeeds always yields a string literal token.
pub proof fn lemma_string_kind(s: Seq<char>, i: int)
    requires
        1 <= i <= s.len(),
    ensures
        lex_string_from(s, i) matches Lexed::Token { kind, .. } ==> kind == (TokenKind::Literal {
            kind: LiteralKind::Str,
        }),
    decreases s.len() - i,
{
    if i >= s.len() {
    } else if s[i] == '"' {
    } else if is_control(s[i]) {
    } else if s[i] == '\\' {
        if i + 1 >= s.len() {
        } else if is_short_escape(s[i + 1]) {
            lemma_string_kind(s, i + 2);
        } else if s[i + 1] == 'u' {
            if hex_count(s, i + 2) == 4 {
                lemma_string_kind(s, i + 6);
            }
        }
    } else {
        lemma_string_kind(s, i + 1);
    }
}

pub proof fn lemma_number_exponent_used(s: Seq<char>, i: int)
    requires
        1 <= i <= s.len(),
    ensures
        1 <= used_of(lex_number_exponent(s, i)) <= s.len(),
{
    if i < s.len() && (s[i] == 'e' || s[i] == 'E') {
        let j = if i + 1 < s.len() && (s[i + 1] == '+' || s[i + 1] == '-') {
            i + 2
        } else {
            i + 1
        };
        lemma_run_len_bounds(s.skip(j));
    }
}

pub proof fn lemma_number_fraction_used(s: Seq<char>, i: int)
    requires
        1 <= i <= s.len(),
    ensures
        1 <= used_of(lex_number_fraction(s, i)) <= s.len(),
{
    if i < s.len() && s[i] == '.' {
        lemma_run_len_bounds(s.skip(i + 1));
        if run_has_digit(s.skip(i + 1)) {
            lemma_number_exponent_used(s, i + 1 + run_len(s.skip(i + 1)));
        }
    } else {
        lemma_number_exponent_used(s, i);
    }
}

pub proof fn lemma_number_used(s: Seq<char>)
    requires
        s.len() > 0,
        is_digit(s[0]) || s[0] == '-',
    ensures
        1 <= used_of(lex_number(s)) <= s.len(),
{
    let b: int = if s[0] == '-' {
        1
    } else {
        0
    };
    if s[0] == '-' && (s.len() == 1 || !is_digit(s[1])) {
    } else {
        if s[b] == '0' {
            if !(b + 1 < s.len() && is_digit(s[b + 1])) {
                lemma_number_fraction_used(s, b + 1);
            }
        } else {
            lemma_run_len_bounds(s.skip(b + 1));
            lemma_number_fraction_used(s, b + 1 + run_len(s.skip(b + 1)));
        }
    }
}

/// Lexing a nonempty input always consumes between one character and the
/// whole input, whether it succeeds or fails.
pub proof fn lemma_lexed_used(s: Seq<char>)
    requires
        s.len() > 0,
    ensures
        1 <= used_of(lex_token(s)) <= s.len(),
{
    let c = s[0];
    if is_whitespace(c) || c == ',' || c == '{' || c == '}' || c == '[' || c == ']' || c == ':' {
    } else if c == 'n' || c == 't' || c == 'f' {
    } else if c == '-' || is_digit(c) {
        lemma_number_used(s);
    } else if c == '"' {
        lemma_string_used(s, 1);
    } else {
    }
}

/// Whether the whole input lexes into tokens without any error.
pub open spec fn lexes_clean(s: Seq<char>) -> bool
    decreases s.len(),
{
    if s.len() == 0 {
        true
    } else {
        match lex_token(s) {
            Lexed::Token { used, .. } => if 1 <= used <= s.len() {
                lexes_clean(s.skip(used))
            } else {
                false
            },
            Lexed::Failed { .. } => false,
        }
    }
}

/// The raw texts of the tokens the whole input lexes into, in order,
/// provided it lexes without error.
pub open spec fn token_raws(s: Seq<char>) -> Seq<Seq<char>>
    decreases s.len(),
{
    if s.len() == 0 {
        Seq::empty()
    } else {
        match lex_token(s) {
            Lexed::Token { used, .. } => if 1 <= used <= s.len() {
                seq![s.take(used)] + token_raws(s.skip(used))
            } else {
                Seq::empty()
            },
            Lexed::Failed { .. } => Seq::empty(),
        }
    }
}

/// Round trip: for any input that lexes without error, concatenating every
/// produced token's raw text, in order, reconstructs the input exactly.
pub proof fn lemma_round_trip(s: Seq<char>)
    requires
        lexes_clean(s),
    ensures
        token_raws(s).flatten() == s,
    decreases s.len(),
{
    if s.len() == 0 {
        assert(token_raws(s).flatten() =~= s);
    } else {
        match lex_token(s) {
            Lexed::Token { used, .. } => {
                lemma_lexed_used(s);
                lemma_round_trip(s.skip(used));
                let raws = token_raws(s);
                assert(raws == seq![s.take(used)] + token_raws(s.skip(used)));
                assert(raws.first() == s.take(used));
                assert(raws.drop_first() =~= token_raws(s.skip(used)));
                assert(raws.flatten() == s.take(used) + token_raws(s.skip(used)).flatten());
                assert(s.take(used) + s.skip(used) =~= s);
            },
            Lexed::Failed { .. } => {
            },
        }
    }
}

} // verus!
