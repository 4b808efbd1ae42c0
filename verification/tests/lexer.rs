use minilang::lexer::{char_is_whitespace, lex, lex_classified, LexErrorKind, Literal, Span, TokenKind};

fn lexemes(src: &str) -> Vec<String> {
    lex(src).tokens.into_iter().map(|t| t.lexeme).collect()
}

#[test]
fn scans_operators_and_delimiters_and_skips_comments() {
    let out = lex("fn f() -> i32 { a <= 1 } // trailing\n&& != x");
    assert!(out.errors.is_empty());
    assert_eq!(
        lexemes("fn f() -> i32 { a <= 1 } // trailing\n&& != x"),
        ["fn", "f", "(", ")", "->", "i32", "{", "a", "<=", "1", "}", "&&", "!=", "x"]
    );
}

#[test]
fn bad_input_is_reported_and_scanning_continues() {
    let out = lex("let x = 1 @ 2;");
    assert_eq!(out.errors.len(), 1);
    assert_eq!(out.errors[0].kind, LexErrorKind::UnexpectedChar('@'));
    assert_eq!(out.tokens.len(), 7); // let x = 1 @ 2 ;
}

#[test]
fn token_kinds_and_literal_values() {
    let out = lex("let mut x = 42; true false while y");
    let kinds: Vec<TokenKind> = out.tokens.into_iter().map(|t| t.kind).collect();
    assert_eq!(
        kinds,
        vec![
            TokenKind::Keyword,
            TokenKind::Keyword,
            TokenKind::Identifier,
            TokenKind::Operator,
            TokenKind::Literal(Literal::Int(42)),
            TokenKind::Delimiter,
            TokenKind::Literal(Literal::Bool(true)),
            TokenKind::Literal(Literal::Bool(false)),
            TokenKind::Keyword,
            TokenKind::Identifier,
        ]
    );
}

#[test]
fn spans_count_bytes_lines_and_columns() {
    let out = lex("é x\n  yy");
    assert_eq!(out.tokens.len(), 3);
    assert_eq!(out.tokens[0].span, Span { start: 0, end: 2, line: 1, column: 1 });
    assert_eq!(out.tokens[1].span, Span { start: 3, end: 4, line: 1, column: 3 });
    assert_eq!(out.tokens[2].span, Span { start: 7, end: 9, line: 2, column: 3 });
    assert_eq!(out.tokens[2].lexeme, "yy");
}

#[test]
fn string_literals_unescape_and_report_bad_escapes() {
    let out = lex(r#""a\nb" "c\qd""#);
    assert_eq!(out.tokens.len(), 2);
    assert_eq!(out.tokens[0].kind, TokenKind::Literal(Literal::Str("a\nb".to_string())));
    assert_eq!(out.tokens[1].kind, TokenKind::Literal(Literal::Str("cqd".to_string())));
    assert_eq!(out.errors.len(), 1);
    assert_eq!(out.errors[0].kind, LexErrorKind::InvalidEscape('q'));
    // The escape error's span runs from the opening quote to just after the escape.
    assert_eq!(out.errors[0].span, Span { start: 7, end: 11, line: 1, column: 8 });
}

#[test]
fn unterminated_string_supersedes_escape_errors() {
    let out = lex(r#"x "ab\q"#);
    assert_eq!(out.tokens.len(), 2);
    assert_eq!(out.tokens[1].kind, TokenKind::Invalid);
    assert_eq!(out.errors.len(), 1);
    assert_eq!(out.errors[0].kind, LexErrorKind::UnterminatedString);
}

#[test]
fn char_literal_cases() {
    assert_eq!(lex("'a'").tokens[0].kind, TokenKind::Literal(Literal::Char('a')));
    assert_eq!(lex(r"'\n'").tokens[0].kind, TokenKind::Literal(Literal::Char('\n')));
    assert_eq!(lex("''").errors[0].kind, LexErrorKind::EmptyCharLiteral);
    assert_eq!(lex("'ab'").errors[0].kind, LexErrorKind::OverlongCharLiteral);
    assert_eq!(lex("'ab' x").tokens.len(), 2);
    assert_eq!(lex("'a").errors[0].kind, LexErrorKind::UnterminatedChar);
    assert_eq!(lex("'").errors[0].kind, LexErrorKind::UnterminatedChar);
    assert_eq!(lex(r"'\q'").errors[0].kind, LexErrorKind::InvalidEscape('q'));
}

#[test]
fn numbers_floats_and_overflow() {
    assert_eq!(lex("3.25").tokens[0].kind, TokenKind::Literal(Literal::Float("3.25".to_string())));
    // A dot not followed by a digit is not part of the number.
    assert_eq!(lexemes("3.x"), ["3", ".", "x"]);
    assert_eq!(lexemes("1.2.3"), ["1.2", ".", "3"]);
    assert_eq!(
        lex("9223372036854775807").tokens[0].kind,
        TokenKind::Literal(Literal::Int(i64::MAX))
    );
    let out = lex("9223372036854775808");
    assert_eq!(out.tokens[0].kind, TokenKind::Invalid);
    assert_eq!(out.errors[0].kind, LexErrorKind::IntegerOverflow);
}

#[test]
fn identifiers_may_hold_unicode_letters_and_underscores() {
    assert_eq!(lexemes("_a1 über"), ["_a1", "über"]);
}

#[test]
fn lexemes_are_the_source_bytes_their_spans_cover() {
    let src = "let é = \"ß\\q\"; // ünïcode\n  x @ 'ab' 99999999999999999999 -> ü";
    let out = lex(src);
    let mut last_end = 0;
    for t in &out.tokens {
        assert!(t.span.start < t.span.end);
        assert!(last_end <= t.span.start);
        assert_eq!(&src[t.span.start..t.span.end], t.lexeme);
        last_end = t.span.end;
    }
}

#[test]
fn every_invalid_token_has_an_error_with_its_span() {
    let out = lex("x @ 'ab' \"open 99999999999999999999");
    let invalid: Vec<Span> = out
        .tokens
        .iter()
        .filter(|t| t.kind == TokenKind::Invalid)
        .map(|t| t.span)
        .collect();
    assert_eq!(invalid.len(), 3);
    for span in invalid {
        assert!(out.errors.iter().any(|e| e.span == span));
    }
}

#[test]
fn white_space_list_agrees_with_std() {
    for v in 0..=0x10FFFFu32 {
        if let Some(c) = char::from_u32(v) {
            assert_eq!(char_is_whitespace(c), c.is_whitespace(), "U+{:04X}", v);
        }
    }
}

#[test]
fn classification_comes_from_the_flags() {
    let src = "ab é_1";
    let n = src.chars().count();
    // With the std classification, `é_1` is one identifier.
    let std_alpha: Vec<bool> = src.chars().map(|c| c.is_alphabetic()).collect();
    let std_alnum: Vec<bool> = src.chars().map(|c| c.is_alphanumeric()).collect();
    let out = lex_classified(src, std_alpha, std_alnum);
    let lexemes: Vec<String> = out.tokens.iter().map(|t| t.lexeme.clone()).collect();
    assert_eq!(lexemes, ["ab", "é_1"]);
    assert_eq!(out.tokens, lex(src).tokens);
    // Told that nothing is alphabetic, `a`, `b` and `é` start no lexeme.
    let out = lex_classified(src, vec![false; n], vec![false; n]);
    let kinds: Vec<TokenKind> = out.tokens.iter().map(|t| t.kind.clone()).collect();
    assert_eq!(
        kinds,
        [
            TokenKind::Invalid,
            TokenKind::Invalid,
            TokenKind::Invalid,
            TokenKind::Identifier,
            TokenKind::Literal(Literal::Int(1))
        ]
    );
    // `1` is not alphanumeric either, so the identifier is `_` alone.
    assert_eq!(out.tokens[3].lexeme, "_");
    assert_eq!(out.errors.len(), 3);
    assert_eq!(out.errors[2].kind, LexErrorKind::UnexpectedChar('é'));
}
