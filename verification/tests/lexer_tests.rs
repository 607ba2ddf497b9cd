use juan::lexer::Lexer;
use juan::tokens::TokenKind;

/// The tokens of `src` up to and including the end-of-input token, as kinds
/// with their start and length; stops after `limit` tokens.
fn tokens(src: &str, limit: usize) -> Vec<(TokenKind, (usize, usize))> {
    let mut lexer = Lexer::new(src);
    let mut out = Vec::new();
    while out.len() < limit {
        let t = lexer.next_token();
        out.push((t.kind, t.span.unpack()));
        if t.kind == TokenKind::Eof {
            break;
        }
    }
    out
}

#[test]
fn lexes_a_module_path() {
    assert_eq!(
        tokens("module math.add", 10),
        vec![
            (TokenKind::Module, (0, 6)),
            (TokenKind::Identifier, (7, 4)),
            (TokenKind::Dot, (11, 1)),
            (TokenKind::Identifier, (12, 3)),
            (TokenKind::Eof, (15, 0)),
        ]
    );
}

#[test]
fn lexes_keywords() {
    let kinds: Vec<TokenKind> = tokens("fn import module", 10).into_iter().map(|t| t.0).collect();
    assert_eq!(kinds, vec![TokenKind::Fn, TokenKind::Import, TokenKind::Module, TokenKind::Eof]);
}

#[test]
fn keyword_prefixes_are_identifiers() {
    let kinds: Vec<TokenKind> = tokens("modules fnx imports", 10).into_iter().map(|t| t.0).collect();
    assert_eq!(
        kinds,
        vec![TokenKind::Identifier, TokenKind::Identifier, TokenKind::Identifier, TokenKind::Eof]
    );
}

#[test]
fn lexes_punctuation() {
    assert_eq!(
        tokens("(){}+-", 10),
        vec![
            (TokenKind::LParen, (0, 1)),
            (TokenKind::RParen, (1, 1)),
            (TokenKind::LBrace, (2, 1)),
            (TokenKind::RBrace, (3, 1)),
            (TokenKind::Plus, (4, 1)),
            (TokenKind::Minus, (5, 1)),
            (TokenKind::Eof, (6, 0)),
        ]
    );
}

#[test]
fn lexes_integers_and_floats() {
    assert_eq!(
        tokens("42 3.14 7.", 10),
        vec![
            (TokenKind::Int, (0, 2)),
            (TokenKind::Float, (3, 4)),
            (TokenKind::Int, (8, 1)),
            (TokenKind::Dot, (9, 1)),
            (TokenKind::Eof, (10, 0)),
        ]
    );
}

#[test]
fn a_second_dot_ends_a_float() {
    assert_eq!(
        tokens("1.2.3", 10),
        vec![
            (TokenKind::Float, (0, 3)),
            (TokenKind::Dot, (3, 1)),
            (TokenKind::Int, (4, 1)),
            (TokenKind::Eof, (5, 0)),
        ]
    );
}

#[test]
fn lexes_strings() {
    assert_eq!(
        tokens("\"hi\" x", 10),
        vec![
            (TokenKind::Str, (0, 4)),
            (TokenKind::Identifier, (5, 1)),
            (TokenKind::Eof, (6, 0)),
        ]
    );
}

#[test]
fn strings_hold_any_text() {
    assert_eq!(
        tokens("\"é +\"", 10),
        vec![(TokenKind::Str, (0, 6)), (TokenKind::Eof, (6, 0))]
    );
}

#[test]
fn an_unclosed_string_runs_to_the_end() {
    assert_eq!(
        tokens("\"abc", 10),
        vec![(TokenKind::UnterminatedStr, (0, 4)), (TokenKind::Eof, (4, 0))]
    );
}

#[test]
fn identifiers_take_letters_digits_and_underscores() {
    assert_eq!(
        tokens("_a1 b_2", 10),
        vec![
            (TokenKind::Identifier, (0, 3)),
            (TokenKind::Identifier, (4, 3)),
            (TokenKind::Eof, (7, 0)),
        ]
    );
}

#[test]
fn whitespace_is_skipped_and_line_feeds_are_tokens() {
    assert_eq!(
        tokens(" a\n\t\r\x0Cb \n", 10),
        vec![
            (TokenKind::Identifier, (1, 1)),
            (TokenKind::Newline, (2, 1)),
            (TokenKind::Identifier, (6, 1)),
            (TokenKind::Newline, (8, 1)),
            (TokenKind::Eof, (9, 0)),
        ]
    );
}

#[test]
fn a_carriage_return_before_a_line_feed_is_skipped() {
    assert_eq!(
        tokens("1\r\n2", 10),
        vec![
            (TokenKind::Int, (0, 1)),
            (TokenKind::Newline, (2, 1)),
            (TokenKind::Int, (3, 1)),
            (TokenKind::Eof, (4, 0)),
        ]
    );
}

#[test]
fn lexes_multiplicative_operators() {
    assert_eq!(
        tokens("2*3/4 % 5", 10),
        vec![
            (TokenKind::Int, (0, 1)),
            (TokenKind::Star, (1, 1)),
            (TokenKind::Int, (2, 1)),
            (TokenKind::Slash, (3, 1)),
            (TokenKind::Int, (4, 1)),
            (TokenKind::Percent, (6, 1)),
            (TokenKind::Int, (8, 1)),
            (TokenKind::Eof, (9, 0)),
        ]
    );
}

#[test]
fn end_of_input_repeats_without_moving() {
    let mut lexer = Lexer::new("  x  ");
    assert_eq!(lexer.next_token().kind, TokenKind::Identifier);
    for _ in 0..3 {
        let t = lexer.next_token();
        assert_eq!(t.kind, TokenKind::Eof);
        assert_eq!(t.span.unpack(), (5, 0));
    }
}

#[test]
fn empty_input_is_end_of_input() {
    assert_eq!(tokens("", 10), vec![(TokenKind::Eof, (0, 0))]);
}

#[test]
fn a_byte_that_starts_no_token_is_an_unknown_token() {
    assert_eq!(
        tokens("@,a", 10),
        vec![
            (TokenKind::Unknown, (0, 1)),
            (TokenKind::Unknown, (1, 1)),
            (TokenKind::Identifier, (2, 1)),
            (TokenKind::Eof, (3, 0)),
        ]
    );
}

#[test]
fn an_unknown_token_covers_a_whole_character() {
    assert_eq!(
        tokens("é€x", 10),
        vec![
            (TokenKind::Unknown, (0, 2)),
            (TokenKind::Unknown, (2, 3)),
            (TokenKind::Identifier, (5, 1)),
            (TokenKind::Eof, (6, 0)),
        ]
    );
}

#[test]
fn an_escaped_quote_does_not_end_a_string() {
    assert_eq!(
        tokens("\"a\\\"b\"", 10),
        vec![(TokenKind::Str, (0, 6)), (TokenKind::Eof, (6, 0))]
    );
}

#[test]
fn an_escaped_backslash_does_not_escape_the_quote() {
    assert_eq!(
        tokens("\"a\\\\\" x", 10),
        vec![
            (TokenKind::Str, (0, 5)),
            (TokenKind::Identifier, (6, 1)),
            (TokenKind::Eof, (7, 0)),
        ]
    );
}

#[test]
fn a_string_ending_in_a_backslash_is_unterminated() {
    assert_eq!(
        tokens("\"ab\\\"", 10),
        vec![(TokenKind::UnterminatedStr, (0, 5)), (TokenKind::Eof, (5, 0))]
    );
    assert_eq!(
        tokens("\"ab\\", 10),
        vec![(TokenKind::UnterminatedStr, (0, 4)), (TokenKind::Eof, (4, 0))]
    );
}

#[test]
fn lexer_exposes_its_source() {
    let lexer = Lexer::new("ab");
    assert_eq!(lexer.src, b"ab");
    assert_eq!(lexer.bytes(), b"ab");
}

#[test]
fn next_fits_tells_whether_a_token_fits_in_a_span() {
    let mut src = String::from("  \"");
    src.push_str(&"a".repeat(4093));
    src.push('"');
    let lexer = Lexer::new(&src);
    assert!(lexer.next_fits());

    src.insert(3, 'a');
    let lexer = Lexer::new(&src);
    assert!(!lexer.next_fits());

    assert!(Lexer::new("").next_fits());
}

#[test]
fn an_identifier_does_not_start_with_a_digit() {
    assert_eq!(
        tokens("1abc _9", 10),
        vec![
            (TokenKind::Int, (0, 1)),
            (TokenKind::Identifier, (1, 3)),
            (TokenKind::Identifier, (5, 2)),
            (TokenKind::Eof, (7, 0)),
        ]
    );
}

#[test]
fn the_token_stream_covers_every_byte_but_whitespace() {
    let src = "module a.b\n(1 + 22) * -3 \"x\\\"y\" @é fn 4.5 % _q\r\n";
    let toks = tokens(src, 100);
    let (last_kind, last_span) = *toks.last().unwrap();
    assert_eq!(last_kind, TokenKind::Eof);
    assert_eq!(last_span, (src.len(), 0));
    let mut covered = vec![false; src.len()];
    let mut prev_end = 0;
    for &(_, (start, len)) in &toks[..toks.len() - 1] {
        assert!(len > 0);
        assert!(start >= prev_end);
        for i in start..start + len {
            covered[i] = true;
        }
        prev_end = start + len;
    }
    for (i, b) in src.bytes().enumerate() {
        if !covered[i] {
            assert!(b == b' ' || b == b'\t' || b == b'\r' || b == 0x0C);
        }
    }
}
