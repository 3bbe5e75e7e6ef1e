use json::input_reader::BufferedReader;
use json::input_reader::MemoryReader;
use json::lexer::DigitKind;
use json::lexer::Error;
use json::lexer::ExpectedKind;
use json::lexer::Lexer;
use json::lexer::LiteralKind;
use json::lexer::Repr;
use json::lexer::Token;
use json::lexer::TokenKind;

fn lex_all(input: &[u8]) -> (Vec<Token>, Option<Error>) {
    let reader = MemoryReader::new(input.to_vec()).unwrap();
    let mut tokens = Vec::new();
    let mut error = None;
    match Lexer::new(reader) {
        Err(e) => {
            error = Some(e);
        },
        Ok(lexer) => {
            let mut it = lexer.into_iter();
            while let Some(item) = it.next() {
                match item {
                    Ok(t) => tokens.push(t),
                    Err(e) => {
                        error = Some(e);
                    },
                }
            }
        },
    }
    (tokens, error)
}

fn single_number(input: &[u8]) -> Token {
    let (mut tokens, error) = lex_all(input);
    assert!(error.is_none());
    assert_eq!(tokens.len(), 1);
    let t = tokens.remove(0);
    assert_eq!(t.kind, TokenKind::Literal { kind: LiteralKind::Num });
    t
}

#[test]
fn test_number_zero() {
    let t = single_number(b"0");
    assert_eq!(t.raw, "0");
}

#[test]
fn test_number_minus_zero() {
    let t = single_number(b"-0");
    assert_eq!(t.raw, "-0");
}

#[test]
fn test_number_leading_zero_fails() {
    let (tokens, error) = lex_all(b"01");
    assert!(tokens.is_empty());
    assert!(matches!(error.unwrap().repr, Repr::Unexpected('1')));
}

#[test]
fn test_number_bare_fraction_dot_fails() {
    let (tokens, error) = lex_all(b"1.");
    assert!(tokens.is_empty());
    assert!(matches!(
        error.unwrap().repr,
        Repr::Expected(ExpectedKind::Digit(DigitKind::Dec))
    ));
}

#[test]
fn test_number_bare_exponent_fails() {
    let (tokens, error) = lex_all(b"1e");
    assert!(tokens.is_empty());
    assert!(matches!(
        error.unwrap().repr,
        Repr::Expected(ExpectedKind::Digit(DigitKind::Dec))
    ));
}

#[test]
fn test_number_exponent_forms() {
    assert_eq!(single_number(b"1e+10").raw, "1e+10");
    assert_eq!(single_number(b"1E-3").raw, "1E-3");
    assert_eq!(single_number(b"-2.5").raw, "-2.5");
}

#[test]
fn test_number_missing_digit_after_minus() {
    let (tokens, error) = lex_all(b"-x");
    assert!(tokens.is_empty());
    assert!(matches!(
        error.unwrap().repr,
        Repr::Expected(ExpectedKind::Digit(DigitKind::Dec))
    ));
}

#[test]
fn test_string_newline_escape() {
    let (tokens, error) = lex_all(b"\"\\n\"");
    assert!(error.is_none());
    assert_eq!(tokens.len(), 1);
    assert_eq!(tokens[0].kind, TokenKind::Literal { kind: LiteralKind::Str });
    assert_eq!(tokens[0].raw, "\"\\n\"");
}

#[test]
fn test_string_unknown_escape_fails() {
    let (tokens, error) = lex_all(b"\"\\x\"");
    assert!(tokens.is_empty());
    assert!(matches!(
        error.unwrap().repr,
        Repr::Expected(ExpectedKind::EscapedChar)
    ));
}

#[test]
fn test_string_short_unicode_escape_fails() {
    let (tokens, error) = lex_all(b"\"\\u12\"");
    assert!(tokens.is_empty());
    assert!(matches!(
        error.unwrap().repr,
        Repr::Expected(ExpectedKind::Digit(DigitKind::Hex))
    ));
}

#[test]
fn test_string_full_unicode_escape() {
    let (tokens, error) = lex_all(b"\"\\u12aB\"");
    assert!(error.is_none());
    assert_eq!(tokens.len(), 1);
    assert_eq!(tokens[0].raw, "\"\\u12aB\"");
}

#[test]
fn test_string_unterminated_fails() {
    let (tokens, error) = lex_all(b"\"abc");
    assert!(tokens.is_empty());
    assert!(matches!(
        error.unwrap().repr,
        Repr::Expected(ExpectedKind::StrTerminator)
    ));
}

#[test]
fn test_string_control_character_fails() {
    let (tokens, error) = lex_all(b"\"a\x01b\"");
    assert!(tokens.is_empty());
    assert!(matches!(error.unwrap().repr, Repr::Unexpected('\x01')));
}

#[test]
fn test_structural_tokens_stop_after_error() {
    let reader = MemoryReader::new(b"{}?{{?}}".to_vec()).unwrap();
    let lexer = Lexer::new(reader).unwrap();
    let mut it = lexer.into_iter();

    let first = it.next().unwrap().unwrap();
    assert_eq!(first.kind, TokenKind::OpenBrace);
    assert_eq!(first.raw, "{");
    let second = it.next().unwrap().unwrap();
    assert_eq!(second.kind, TokenKind::CloseBrace);
    assert_eq!(second.raw, "}");

    match it.next().unwrap() {
        Ok(t) => panic!("token after the error: {:?}", t),
        Err(e) => assert!(matches!(e.repr, Repr::Unexpected('?'))),
    }
    // The error is yielded exactly once; the sequence then terminates.
    assert!(it.next().is_none());
    assert!(it.next().is_none());
}

#[test]
fn test_truncated_keyword_fails() {
    let (tokens, error) = lex_all(b"nul");
    assert!(tokens.is_empty());
    match error.unwrap().repr {
        Repr::Expected(ExpectedKind::Keyword(kw)) => assert_eq!(kw, "null"),
        other => panic!("wrong error: {:?}", other),
    }
}

#[test]
fn test_keyword_needs_no_delimiter() {
    let (tokens, error) = lex_all(b"nullable");
    assert_eq!(tokens.len(), 1);
    assert_eq!(tokens[0].kind, TokenKind::Literal { kind: LiteralKind::Null });
    assert_eq!(tokens[0].raw, "null");
    assert!(matches!(error.unwrap().repr, Repr::Unexpected('a')));
}

#[test]
fn test_keywords_true_false() {
    let (tokens, error) = lex_all(b"true false");
    assert!(error.is_none());
    assert_eq!(tokens.len(), 3);
    assert_eq!(tokens[0].kind, TokenKind::Literal { kind: LiteralKind::Bool });
    assert_eq!(tokens[0].raw, "true");
    assert_eq!(tokens[1].kind, TokenKind::Whitespace);
    assert_eq!(tokens[2].kind, TokenKind::Literal { kind: LiteralKind::Bool });
    assert_eq!(tokens[2].raw, "false");
}

#[test]
fn test_round_trip_reconstructs_input() {
    let input = "{\"k\": [1_0, -2.5e+1, true, null],\t\"s\": \"a\\u00e9b\"}\r\n";
    let (tokens, error) = lex_all(input.as_bytes());
    assert!(error.is_none());
    let mut rebuilt = String::new();
    for t in &tokens {
        rebuilt.push_str(&t.raw);
    }
    assert_eq!(rebuilt, input);
}

#[test]
fn test_positions_track_lines_and_columns() {
    let (tokens, error) = lex_all(b"{\n42}");
    assert!(error.is_none());
    assert_eq!(tokens.len(), 4);

    assert_eq!(
        (tokens[0].start.line, tokens[0].start.column, tokens[0].start.offset),
        (1, 1, 0)
    );
    assert_eq!((tokens[0].end.line, tokens[0].end.column, tokens[0].end.offset), (1, 2, 1));

    // The newline token moves to the next line.
    assert_eq!((tokens[1].end.line, tokens[1].end.column, tokens[1].end.offset), (2, 1, 2));

    // The number spans two columns on the new line.
    assert_eq!(
        (tokens[2].start.line, tokens[2].start.column, tokens[2].start.offset),
        (2, 1, 2)
    );
    assert_eq!((tokens[2].end.line, tokens[2].end.column, tokens[2].end.offset), (2, 3, 4));
}

#[test]
fn test_multibyte_string_content() {
    let input = "\"caf\u{e9} \u{65e5}\u{672c}\"";
    let (tokens, error) = lex_all(input.as_bytes());
    assert!(error.is_none());
    assert_eq!(tokens.len(), 1);
    assert_eq!(tokens[0].raw, input);
    // Columns count characters, not bytes.
    assert_eq!(tokens[0].end.column, 1 + input.chars().count());
}

#[test]
fn test_lexing_over_buffered_reader_matches() {
    let input = b"{\"a\": [null, -1.5e2], \"b\": \"\\u0041\"}";
    let (mem_tokens, mem_err) = lex_all(input);
    assert!(mem_err.is_none());

    let reader = BufferedReader::new(input.to_vec()).unwrap();
    let lexer = Lexer::new(reader).unwrap();
    let mut it = lexer.into_iter();
    let mut buf_tokens = Vec::new();
    while let Some(item) = it.next() {
        buf_tokens.push(item.unwrap());
    }
    assert_eq!(buf_tokens.len(), mem_tokens.len());
    let mut i = 0;
    while i < buf_tokens.len() {
        assert_eq!(buf_tokens[i].kind, mem_tokens[i].kind);
        assert_eq!(buf_tokens[i].raw, mem_tokens[i].raw);
        assert_eq!(buf_tokens[i].start, mem_tokens[i].start);
        assert_eq!(buf_tokens[i].end, mem_tokens[i].end);
        i += 1;
    }
}

#[test]
fn test_empty_input_has_no_tokens() {
    let (tokens, error) = lex_all(b"");
    assert!(tokens.is_empty());
    assert!(error.is_none());
}

#[test]
fn test_peek_returns_current_token() {
    let reader = MemoryReader::new(b":".to_vec()).unwrap();
    let lexer = Lexer::new(reader).unwrap();
    let t = lexer.peek().unwrap();
    assert_eq!(t.kind, TokenKind::Colon);
    assert_eq!(t.raw, ":");
}

#[test]
fn test_consume_replaces_current_token() {
    let reader = MemoryReader::new(b",:".to_vec()).unwrap();
    let mut lexer = Lexer::new(reader).unwrap();
    assert_eq!(lexer.peek().unwrap().kind, TokenKind::Comma);
    lexer.consume().unwrap();
    assert_eq!(lexer.peek().unwrap().kind, TokenKind::Colon);
    lexer.consume().unwrap();
    assert!(lexer.peek().is_none());
}

#[test]
fn test_underscore_separators_are_kept_in_raw() {
    let t = single_number(b"1_000_000");
    assert_eq!(t.raw, "1_000_000");
}
