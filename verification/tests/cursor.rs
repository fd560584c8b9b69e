use haversine_json::parser::{parse_array, parse_number, parse_object};
use haversine_json::value::{find_member, insert_member, same_text};
use haversine_json::{
    parse_value, tokenize, Cursor, Member, ParseError, ParseErrorKind, Token, TokenKind, Value,
};

#[test]
fn cursor_reads_forward_and_stops_at_the_end() {
    let tokens = tokenize("[1]").unwrap();
    let mut cursor = Cursor::new(&tokens);
    assert_eq!(cursor.position(), 0);
    assert_eq!(cursor.peek(), Some(&tokens[0]));
    assert_eq!(cursor.peek(), Some(&tokens[0]));
    assert_eq!(cursor.position(), 0);
    assert_eq!(cursor.next(), Some(&tokens[0]));
    assert_eq!(cursor.position(), 1);
    assert_eq!(cursor.next(), Some(&tokens[1]));
    assert_eq!(cursor.peek(), Some(&tokens[2]));
    assert_eq!(cursor.next(), Some(&tokens[2]));
    assert_eq!(cursor.position(), 3);
    assert_eq!(cursor.peek(), None);
    assert_eq!(cursor.next(), None);
    assert_eq!(cursor.next(), None);
    assert_eq!(cursor.position(), 3);
}

#[test]
fn cursor_over_no_tokens() {
    let tokens: Vec<Token> = vec![];
    let mut cursor = Cursor::new(&tokens);
    assert_eq!(cursor.peek(), None);
    assert_eq!(cursor.next(), None);
    assert_eq!(cursor.position(), 0);
}

#[test]
fn parse_value_leaves_the_cursor_behind_the_value() {
    let tokens = tokenize("[1, 2] {\"a\": 3} 4").unwrap();
    let mut cursor = Cursor::new(&tokens);
    assert_eq!(parse_value(&mut cursor), Ok(Value::Array(vec![Value::Num("1"), Value::Num("2")])));
    assert_eq!(cursor.position(), 5);
    assert_eq!(
        parse_value(&mut cursor),
        Ok(Value::Object(vec![Member { key: "a", value: Value::Num("3") }]))
    );
    assert_eq!(cursor.position(), 10);
    assert_eq!(parse_value(&mut cursor), Ok(Value::Num("4")));
    assert_eq!(cursor.position(), 11);
    assert_eq!(
        parse_value(&mut cursor),
        Err(ParseError { kind: ParseErrorKind::UnexpectedEnd, at: 11 })
    );
    assert_eq!(cursor.position(), 11);
}

#[test]
fn failed_parse_leaves_the_cursor_at_the_fault() {
    for (text, kind, at) in [
        ("[1, 2 3]", ParseErrorKind::ExpectedCommaOrEndArray, 4),
        ("{\"a\": 1, }", ParseErrorKind::ExpectedName, 5),
        ("{\"a\" 1}", ParseErrorKind::ExpectedColon, 2),
        ("[1, 1e]", ParseErrorKind::InvalidNumber, 3),
        ("[[1], [2, :]]", ParseErrorKind::ExpectedValue, 8),
        ("[[1], [2", ParseErrorKind::UnexpectedEnd, 7),
    ] {
        let tokens = tokenize(text).unwrap();
        let mut cursor = Cursor::new(&tokens);
        assert_eq!(parse_value(&mut cursor), Err(ParseError { kind, at }), "on {:?}", text);
        assert_eq!(cursor.position(), at, "on {:?}", text);
    }
}

#[test]
fn productions_check_their_first_token() {
    let tokens = tokenize("1 [ {").unwrap();
    let mut cursor = Cursor::new(&tokens);
    assert_eq!(
        parse_array(&mut cursor),
        Err(ParseError { kind: ParseErrorKind::ExpectedValue, at: 0 })
    );
    assert_eq!(
        parse_object(&mut cursor),
        Err(ParseError { kind: ParseErrorKind::ExpectedValue, at: 0 })
    );
    assert_eq!(cursor.position(), 0);
    assert_eq!(parse_number(&mut cursor), Ok(Value::Num("1")));
    assert_eq!(
        parse_number(&mut cursor),
        Err(ParseError { kind: ParseErrorKind::ExpectedValue, at: 1 })
    );
    assert_eq!(
        parse_object(&mut cursor),
        Err(ParseError { kind: ParseErrorKind::ExpectedValue, at: 1 })
    );
    assert_eq!(
        parse_array(&mut cursor),
        Err(ParseError { kind: ParseErrorKind::UnexpectedEnd, at: 3 })
    );
    assert_eq!(cursor.position(), 3);
    let none: Vec<Token> = vec![];
    let mut cursor = Cursor::new(&none);
    for r in [parse_array(&mut cursor), parse_object(&mut cursor), parse_number(&mut cursor)] {
        assert_eq!(r, Err(ParseError { kind: ParseErrorKind::UnexpectedEnd, at: 0 }));
    }
}

#[test]
fn parse_number_takes_words_for_infinity_and_nan_in_hand_made_tokens() {
    let tokens = [
        Token { kind: TokenKind::Num, text: "-Infinity", offset: 0 },
        Token { kind: TokenKind::Num, text: "NaN", offset: 10 },
        Token { kind: TokenKind::Num, text: "nano", offset: 14 },
    ];
    let mut cursor = Cursor::new(&tokens);
    assert_eq!(parse_number(&mut cursor), Ok(Value::Num("-Infinity")));
    assert_eq!(parse_number(&mut cursor), Ok(Value::Num("NaN")));
    assert_eq!(
        parse_number(&mut cursor),
        Err(ParseError { kind: ParseErrorKind::InvalidNumber, at: 2 })
    );
}

#[test]
fn insert_member_overwrites_or_appends() {
    let mut members: Vec<Member> = vec![];
    insert_member(&mut members, "a", Value::Num("1"));
    insert_member(&mut members, "b", Value::Num("2"));
    insert_member(&mut members, "a", Value::Num("3"));
    insert_member(&mut members, "c", Value::Array(vec![]));
    insert_member(&mut members, "b", Value::Num("4"));
    assert_eq!(
        members,
        vec![
            Member { key: "a", value: Value::Num("3") },
            Member { key: "b", value: Value::Num("4") },
            Member { key: "c", value: Value::Array(vec![]) },
        ]
    );
}

#[test]
fn find_member_finds_the_last_bearer_of_a_name() {
    let members = vec![
        Member { key: "a", value: Value::Num("1") },
        Member { key: "b", value: Value::Num("2") },
        Member { key: "a", value: Value::Num("3") },
    ];
    assert_eq!(find_member(&members, "a"), Some(2));
    assert_eq!(find_member(&members, "b"), Some(1));
    assert_eq!(find_member(&members, "c"), None);
    assert_eq!(find_member(&vec![], "a"), None);
    assert_eq!(Value::Object(members).get("a"), Some(&Value::Num("3")));
}

#[test]
fn same_text_compares_bytes() {
    assert!(same_text("", ""));
    assert!(same_text("abc", "abc"));
    assert!(same_text("\u{e9}", "\u{e9}"));
    assert!(!same_text("abc", "abd"));
    assert!(!same_text("abc", "ab"));
    assert!(!same_text("", "a"));
    assert!(!same_text("e\u{301}", "\u{e9}"));
}

#[test]
fn accessors_tell_the_variants_apart() {
    let number = Value::Num("1");
    let array = Value::Array(vec![Value::Num("2")]);
    let object = Value::Object(vec![Member { key: "k", value: Value::Num("3") }]);
    assert_eq!(number.as_number(), Some("1"));
    assert_eq!(number.as_array(), None);
    assert_eq!(number.as_object(), None);
    assert_eq!(number.get("k"), None);
    assert_eq!(array.as_number(), None);
    assert_eq!(array.as_array().unwrap().len(), 1);
    assert_eq!(array.as_object(), None);
    assert_eq!(array.get("k"), None);
    assert_eq!(object.as_number(), None);
    assert_eq!(object.as_array(), None);
    assert_eq!(object.as_object().unwrap().len(), 1);
    assert_eq!(object.get("k"), Some(&Value::Num("3")));
}
