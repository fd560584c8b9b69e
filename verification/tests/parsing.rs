use haversine_json::{
    parse, parse_text, tokenize, JsonError, LexError, ParseError, ParseErrorKind, Token,
    TokenKind, Value,
};

fn number(value: &Value) -> f64 {
    match value {
        Value::Num(literal) => literal.parse::<f64>().unwrap(),
        other => panic!("not a number: {:?}", other),
    }
}

#[test]
fn empty_object_parses() {
    let value = parse_text("{}").unwrap();
    assert_eq!(value, Value::Object(vec![]));
}

#[test]
fn empty_array_parses() {
    let value = parse_text("[]").unwrap();
    assert_eq!(value, Value::Array(vec![]));
}

#[test]
fn empty_containers_nest() {
    let value = parse_text("[{}, [], [[]]]").unwrap();
    let items = value.as_array().unwrap();
    assert_eq!(items.len(), 3);
    assert_eq!(items[0], Value::Object(vec![]));
    assert_eq!(items[1], Value::Array(vec![]));
    assert_eq!(items[2], Value::Array(vec![Value::Array(vec![])]));
}

#[test]
fn duplicate_key_keeps_last_value() {
    let value = parse_text("{\"a\":1,\"a\":2}").unwrap();
    let members = value.as_object().unwrap();
    assert_eq!(members.len(), 1);
    assert_eq!(members[0].key, "a");
    assert_eq!(number(value.get("a").unwrap()), 2.0);
}

#[test]
fn duplicate_key_between_others() {
    let value = parse_text("{\"a\":1,\"b\":5,\"a\":2,\"c\":7}").unwrap();
    assert_eq!(value.as_object().unwrap().len(), 3);
    assert_eq!(number(value.get("a").unwrap()), 2.0);
    assert_eq!(number(value.get("b").unwrap()), 5.0);
    assert_eq!(number(value.get("c").unwrap()), 7.0);
    assert!(value.get("d").is_none());
}

#[test]
fn trailing_comma_in_object_is_rejected() {
    let r = parse_text("{\"a\":1,}");
    assert_eq!(
        r,
        Err(JsonError::Parse(ParseError { kind: ParseErrorKind::ExpectedName, at: 5 }))
    );
}

#[test]
fn trailing_comma_in_array_is_rejected() {
    let r = parse_text("[1,]");
    assert_eq!(
        r,
        Err(JsonError::Parse(ParseError { kind: ParseErrorKind::ExpectedValue, at: 3 }))
    );
}

#[test]
fn unterminated_string_is_reported() {
    let r = parse_text("{\"a\": \"oops");
    assert_eq!(r, Err(JsonError::Lex(LexError::UnterminatedString { start: 6 })));
    assert_eq!(tokenize("{\"a\": \"oops"), Err(LexError::UnterminatedString { start: 6 }));
}

#[test]
fn unknown_byte_is_reported_with_offset() {
    let r = parse_text("{\"a\": 1, \"b\": x}");
    assert_eq!(r, Err(JsonError::Lex(LexError::UnexpectedByte { offset: 14, byte: b'x' })));
    assert_eq!(tokenize("[1, 2] #"), Err(LexError::UnexpectedByte { offset: 7, byte: b'#' }));
    assert_eq!(tokenize("true"), Err(LexError::UnexpectedByte { offset: 0, byte: b't' }));
}

#[test]
fn number_byte_that_starts_no_number_is_reported() {
    assert_eq!(tokenize("+1"), Err(LexError::UnexpectedByte { offset: 0, byte: b'+' }));
    assert_eq!(tokenize("[.5]"), Err(LexError::UnexpectedByte { offset: 1, byte: b'.' }));
    assert_eq!(tokenize(" e"), Err(LexError::UnexpectedByte { offset: 1, byte: b'e' }));
}

#[test]
fn unknown_bytes_inside_a_string_are_text() {
    let tokens = tokenize("\"x#y \u{e9}\"").unwrap();
    assert_eq!(tokens, vec![Token { kind: TokenKind::Str, text: "x#y \u{e9}", offset: 1 }]);
}

#[test]
fn string_as_value_is_a_bad_token() {
    let r = parse_text("{\"a\": \"b\"}");
    assert_eq!(
        r,
        Err(JsonError::Parse(ParseError { kind: ParseErrorKind::ExpectedValue, at: 3 }))
    );
    let r = parse_text("\"a\"");
    assert_eq!(
        r,
        Err(JsonError::Parse(ParseError { kind: ParseErrorKind::ExpectedValue, at: 0 }))
    );
}

#[test]
fn pairs_document_has_the_expected_shape() {
    let text = "{\"pairs\": [\n  {\"x0\": -12.5, \"y0\": 100.25, \"x1\": 3e1, \"y1\": 0},\n  {\"x0\": 1, \"y0\": 2, \"x1\": 3, \"y1\": 4}\n]}\n";
    let value = parse_text(text).unwrap();
    let members = value.as_object().unwrap();
    assert_eq!(members.len(), 1);
    assert_eq!(members[0].key, "pairs");
    let pairs = value.get("pairs").unwrap().as_array().unwrap();
    assert_eq!(pairs.len(), 2);
    for pair in pairs.iter() {
        assert_eq!(pair.as_object().unwrap().len(), 4);
    }
    assert_eq!(number(pairs[0].get("x0").unwrap()), -12.5);
    assert_eq!(number(pairs[0].get("y0").unwrap()), 100.25);
    assert_eq!(number(pairs[0].get("x1").unwrap()), 30.0);
    assert_eq!(number(pairs[0].get("y1").unwrap()), 0.0);
    assert_eq!(number(pairs[1].get("x0").unwrap()), 1.0);
    assert_eq!(number(pairs[1].get("y0").unwrap()), 2.0);
    assert_eq!(number(pairs[1].get("x1").unwrap()), 3.0);
    assert_eq!(number(pairs[1].get("y1").unwrap()), 4.0);
}

#[test]
fn parse_reads_hand_made_tokens() {
    let tokens = [
        Token { kind: TokenKind::BeginArray, text: "[", offset: 0 },
        Token { kind: TokenKind::Num, text: "1.5", offset: 1 },
        Token { kind: TokenKind::EndArray, text: "]", offset: 4 },
    ];
    let value = parse(&tokens).unwrap();
    assert_eq!(value, Value::Array(vec![Value::Num("1.5")]));
}

fn parse_error(text: &str) -> ParseError {
    match parse_text(text) {
        Err(JsonError::Parse(e)) => e,
        other => panic!("{:?} gave {:?}", text, other),
    }
}

#[test]
fn tokens_that_end_too_early() {
    for (text, at) in [
        ("", 0),
        ("[", 1),
        ("{", 1),
        ("[1", 2),
        ("[1,", 3),
        ("{\"a\"", 2),
        ("{\"a\":", 3),
        ("{\"a\":1", 4),
        ("{\"a\":1,", 5),
        ("[[", 2),
        ("{\"pairs\": [{\"x0\": 1", 8),
    ] {
        assert_eq!(
            parse_error(text),
            ParseError { kind: ParseErrorKind::UnexpectedEnd, at },
            "on {:?}",
            text
        );
    }
}

#[test]
fn token_that_begins_no_value() {
    for (text, at) in [("]", 0), ("}", 0), (":", 0), (",", 0), ("[,1]", 1), ("{\"a\":}", 3), ("[1,,2]", 3)] {
        assert_eq!(
            parse_error(text),
            ParseError { kind: ParseErrorKind::ExpectedValue, at },
            "on {:?}",
            text
        );
    }
}

#[test]
fn member_name_that_is_no_string() {
    for (text, at) in [("{1:2}", 1), ("{,}", 1), ("{\"a\":1,2:3}", 5), ("{[]}", 1), ("{{}}", 1), ("{:1}", 1)] {
        assert_eq!(
            parse_error(text),
            ParseError { kind: ParseErrorKind::ExpectedName, at },
            "on {:?}",
            text
        );
    }
}

#[test]
fn member_without_colon() {
    for (text, at) in [("{\"a\" 1}", 2), ("{\"a\",\"b\"}", 2), ("{\"a\"}", 2), ("{\"a\" \"b\"}", 2)] {
        assert_eq!(
            parse_error(text),
            ParseError { kind: ParseErrorKind::ExpectedColon, at },
            "on {:?}",
            text
        );
    }
}

#[test]
fn object_without_comma_or_end() {
    for (text, at) in [("{\"a\":1 \"b\":2}", 4), ("{\"a\":1]", 4), ("{\"a\":1:", 4), ("{\"a\":[] 1}", 5)] {
        assert_eq!(
            parse_error(text),
            ParseError { kind: ParseErrorKind::ExpectedCommaOrEndObject, at },
            "on {:?}",
            text
        );
    }
}

#[test]
fn array_without_comma_or_end() {
    for (text, at) in [("[1 2]", 2), ("[1}", 2), ("[1:2]", 2), ("[[] []]", 3), ("[1 \"a\"]", 2)] {
        assert_eq!(
            parse_error(text),
            ParseError { kind: ParseErrorKind::ExpectedCommaOrEndArray, at },
            "on {:?}",
            text
        );
    }
}

#[test]
fn number_that_is_no_literal() {
    for (text, at) in [("1.2.3", 0), ("[1, -]", 3), ("{\"a\": 1e}", 3)] {
        assert_eq!(
            parse_error(text),
            ParseError { kind: ParseErrorKind::InvalidNumber, at },
            "on {:?}",
            text
        );
    }
}

#[test]
fn tokens_behind_the_value_are_not_read() {
    assert_eq!(parse_text("1 2"), Ok(Value::Num("1")));
    assert_eq!(parse_text("{}}"), Ok(Value::Object(vec![])));
    assert_eq!(parse_text("[] \"x\" :"), Ok(Value::Array(vec![])));
}

#[test]
fn array_keeps_the_order_of_its_elements() {
    let value = parse_text("[3, 1, 2, [5, 4], 1]").unwrap();
    assert_eq!(
        value,
        Value::Array(vec![
            Value::Num("3"),
            Value::Num("1"),
            Value::Num("2"),
            Value::Array(vec![Value::Num("5"), Value::Num("4")]),
            Value::Num("1"),
        ])
    );
}

#[test]
fn nested_document() {
    let value = parse_text("{\"a\": {\"b\": [1, {\"c\": 2}]}, \"d\": []}").unwrap();
    let inner = value.get("a").unwrap().get("b").unwrap().as_array().unwrap();
    assert_eq!(inner[0], Value::Num("1"));
    assert_eq!(inner[1].get("c"), Some(&Value::Num("2")));
    assert_eq!(value.get("d"), Some(&Value::Array(vec![])));
    assert_eq!(value.get("b"), None);
    assert_eq!(value.get("a").unwrap().get("a"), None);
}

#[test]
fn names_are_compared_byte_for_byte() {
    let value = parse_text("{\"a\": 1, \"A\": 2, \"a \": 3, \"\": 4, \"\u{e9}\": 5}").unwrap();
    assert_eq!(value.as_object().unwrap().len(), 5);
    assert_eq!(value.get("a"), Some(&Value::Num("1")));
    assert_eq!(value.get("A"), Some(&Value::Num("2")));
    assert_eq!(value.get("a "), Some(&Value::Num("3")));
    assert_eq!(value.get(""), Some(&Value::Num("4")));
    assert_eq!(value.get("\u{e9}"), Some(&Value::Num("5")));
    assert_eq!(value.get("e"), None);
}

#[test]
fn deep_nesting() {
    let depth = 200;
    let text = format!("{}{}", "[".repeat(depth), "]".repeat(depth));
    let mut value = &parse_text(&text).unwrap();
    let mut seen = 1;
    while let Some(inner) = value.as_array().unwrap().first() {
        value = inner;
        seen += 1;
    }
    assert_eq!(seen, depth);
}
