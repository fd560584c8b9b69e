use haversine_json::bytes::{digit, number_byte, number_start, sign, whitespace};
use haversine_json::lexer::{punctuation, scan_number, scan_string};
use haversine_json::substr::slice_str;
use haversine_json::{tokenize, LexError, Token, TokenKind};

fn tok(kind: TokenKind, text: &str, offset: usize) -> Token<'_> {
    Token { kind, text, offset }
}

#[test]
fn empty_text_has_no_tokens() {
    assert_eq!(tokenize(""), Ok(vec![]));
    assert_eq!(tokenize(" \t\r\n "), Ok(vec![]));
}

#[test]
fn structural_bytes_are_tokens() {
    let tokens = tokenize("{}[]:,").unwrap();
    assert_eq!(
        tokens,
        vec![
            tok(TokenKind::BeginObject, "{", 0),
            tok(TokenKind::EndObject, "}", 1),
            tok(TokenKind::BeginArray, "[", 2),
            tok(TokenKind::EndArray, "]", 3),
            tok(TokenKind::Colon, ":", 4),
            tok(TokenKind::Comma, ",", 5),
        ]
    );
}

#[test]
fn small_document_tokens() {
    let tokens = tokenize("{\"pairs\": [ -1.5e3,\n20 ]}").unwrap();
    assert_eq!(
        tokens,
        vec![
            tok(TokenKind::BeginObject, "{", 0),
            tok(TokenKind::Str, "pairs", 2),
            tok(TokenKind::Colon, ":", 8),
            tok(TokenKind::BeginArray, "[", 10),
            tok(TokenKind::Num, "-1.5e3", 12),
            tok(TokenKind::Comma, ",", 18),
            tok(TokenKind::Num, "20", 20),
            tok(TokenKind::EndArray, "]", 23),
            tok(TokenKind::EndObject, "}", 24),
        ]
    );
}

#[test]
fn string_token_excludes_quotes() {
    assert_eq!(tokenize("\"\""), Ok(vec![tok(TokenKind::Str, "", 1)]));
    assert_eq!(tokenize(" \"a b\" "), Ok(vec![tok(TokenKind::Str, "a b", 2)]));
}

#[test]
fn backslash_does_not_escape_a_quote() {
    assert_eq!(tokenize("\"a\\\""), Ok(vec![tok(TokenKind::Str, "a\\", 1)]));
    assert_eq!(
        tokenize("\"a\\\"b\""),
        Err(LexError::UnexpectedByte { offset: 4, byte: b'b' })
    );
}

#[test]
fn string_may_hold_any_characters_but_a_quote() {
    let text = "\"{[\u{4e2d}\u{6587}]}, 1e5 \u{1f600}\":";
    let tokens = tokenize(text).unwrap();
    assert_eq!(tokens.len(), 2);
    assert_eq!(tokens[0], tok(TokenKind::Str, "{[\u{4e2d}\u{6587}]}, 1e5 \u{1f600}", 1));
    assert_eq!(tokens[1].kind, TokenKind::Colon);
    assert_eq!(tokens[1].offset, text.len() - 1);
}

#[test]
fn character_outside_ascii_between_tokens_is_reported() {
    assert_eq!(
        tokenize("[1, \u{e9}]"),
        Err(LexError::UnexpectedByte { offset: 4, byte: 0xc3 })
    );
}

#[test]
fn number_scan_takes_any_run_of_number_bytes() {
    assert_eq!(tokenize("1.2.3"), Ok(vec![tok(TokenKind::Num, "1.2.3", 0)]));
    assert_eq!(tokenize("--1"), Ok(vec![tok(TokenKind::Num, "--1", 0)]));
    assert_eq!(tokenize("1e"), Ok(vec![tok(TokenKind::Num, "1e", 0)]));
    assert_eq!(tokenize("-"), Ok(vec![tok(TokenKind::Num, "-", 0)]));
    assert_eq!(tokenize("1-2+3"), Ok(vec![tok(TokenKind::Num, "1-2+3", 0)]));
    assert_eq!(
        tokenize("12 34"),
        Ok(vec![tok(TokenKind::Num, "12", 0), tok(TokenKind::Num, "34", 3)])
    );
    assert_eq!(
        tokenize("7,"),
        Ok(vec![tok(TokenKind::Num, "7", 0), tok(TokenKind::Comma, ",", 1)])
    );
}

#[test]
fn number_ends_at_a_letter_that_is_no_exponent_mark() {
    assert_eq!(tokenize("1x"), Err(LexError::UnexpectedByte { offset: 1, byte: b'x' }));
}

#[test]
fn only_four_bytes_are_blank() {
    assert!(tokenize(" \t\n\r").unwrap().is_empty());
    assert_eq!(tokenize("\u{c}"), Err(LexError::UnexpectedByte { offset: 0, byte: 0x0c }));
    assert_eq!(tokenize("\u{b}"), Err(LexError::UnexpectedByte { offset: 0, byte: 0x0b }));
    assert_eq!(tokenize("\u{0}"), Err(LexError::UnexpectedByte { offset: 0, byte: 0 }));
}

#[test]
fn unterminated_string_names_its_opening_quote() {
    assert_eq!(tokenize("\""), Err(LexError::UnterminatedString { start: 0 }));
    assert_eq!(tokenize("[1, \"abc"), Err(LexError::UnterminatedString { start: 4 }));
    assert_eq!(tokenize("\"a\" \"b"), Err(LexError::UnterminatedString { start: 4 }));
}

#[test]
fn first_fault_wins() {
    assert_eq!(tokenize("# \"open"), Err(LexError::UnexpectedByte { offset: 0, byte: b'#' }));
    assert_eq!(tokenize("\"open #"), Err(LexError::UnterminatedString { start: 0 }));
}

#[test]
fn tokens_are_pieces_of_the_text_in_order() {
    let text = " {\"a\u{e9}\": [1, -2.5e+3, {\"b\":[]}],\t\"c\" : 0}\r\n";
    let tokens = tokenize(text).unwrap();
    assert_eq!(tokens.len(), 20);
    let mut behind = 0;
    for token in tokens.iter() {
        let end = token.offset + token.text.len();
        assert_eq!(&text[token.offset..end], token.text);
        let (start, stop) = if token.kind == TokenKind::Str {
            assert_eq!(text.as_bytes()[token.offset - 1], b'"');
            assert_eq!(text.as_bytes()[end], b'"');
            (token.offset - 1, end + 1)
        } else {
            (token.offset, end)
        };
        assert!(behind <= start);
        for b in text.as_bytes()[behind..start].iter() {
            assert!(whitespace(*b));
        }
        behind = stop;
    }
    for b in text.as_bytes()[behind..].iter() {
        assert!(whitespace(*b));
    }
}

#[test]
fn unknown_byte_survives_only_inside_a_string() {
    let text = "[\"a#b\", 1]";
    let at = text.find('#').unwrap();
    let tokens = tokenize(text).unwrap();
    let holder: Vec<&Token> = tokens
        .iter()
        .filter(|t| t.offset <= at && at < t.offset + t.text.len())
        .collect();
    assert_eq!(holder.len(), 1);
    assert_eq!(holder[0].kind, TokenKind::Str);
    assert_eq!(tokenize("[\"ab\", # 1]"), Err(LexError::UnexpectedByte { offset: 7, byte: b'#' }));
}

#[test]
fn scan_string_finds_the_next_quote() {
    assert_eq!(scan_string("x\"abc\"y", 1), Ok(tok(TokenKind::Str, "abc", 2)));
    assert_eq!(scan_string("\"\"", 0), Ok(tok(TokenKind::Str, "", 1)));
    assert_eq!(scan_string("ab\"cd", 2), Err(LexError::UnterminatedString { start: 2 }));
    assert_eq!(scan_string("\"", 0), Err(LexError::UnterminatedString { start: 0 }));
}

#[test]
fn scan_number_takes_the_run() {
    assert_eq!(scan_number("[-12.5e+7]", 1), tok(TokenKind::Num, "-12.5e+7", 1));
    assert_eq!(scan_number("7", 0), tok(TokenKind::Num, "7", 0));
    assert_eq!(scan_number("1 2", 0), tok(TokenKind::Num, "1", 0));
    assert_eq!(scan_number("1 2", 2), tok(TokenKind::Num, "2", 2));
}

#[test]
fn punctuation_kinds() {
    assert_eq!(punctuation(b'{'), Some(TokenKind::BeginObject));
    assert_eq!(punctuation(b'}'), Some(TokenKind::EndObject));
    assert_eq!(punctuation(b'['), Some(TokenKind::BeginArray));
    assert_eq!(punctuation(b']'), Some(TokenKind::EndArray));
    assert_eq!(punctuation(b':'), Some(TokenKind::Colon));
    assert_eq!(punctuation(b','), Some(TokenKind::Comma));
    assert_eq!(punctuation(b'"'), None);
    assert_eq!(punctuation(b'('), None);
    assert_eq!(punctuation(b'1'), None);
}

#[test]
fn byte_classes() {
    for b in 0u8..=255 {
        assert_eq!(whitespace(b), matches!(b, b' ' | b'\t' | b'\n' | b'\r'));
        assert_eq!(digit(b), b.is_ascii_digit());
        assert_eq!(sign(b), b == b'+' || b == b'-');
        assert_eq!(number_start(b), b.is_ascii_digit() || b == b'-');
        assert_eq!(
            number_byte(b),
            b.is_ascii_digit() || matches!(b, b'+' | b'-' | b'.' | b'e' | b'E')
        );
    }
}

#[test]
fn slice_str_borrows_the_piece() {
    let text = "a\u{e9}b\u{4e2d}c";
    assert_eq!(slice_str(text, 0, 1), "a");
    assert_eq!(slice_str(text, 1, 3), "\u{e9}");
    assert_eq!(slice_str(text, 3, 7), "b\u{4e2d}");
    assert_eq!(slice_str(text, 7, 8), "c");
    assert_eq!(slice_str(text, 8, 8), "");
    assert_eq!(slice_str(text, 0, 8), text);
    let piece = slice_str(text, 3, 4);
    assert_eq!(piece.as_ptr(), text[3..].as_ptr());
}
