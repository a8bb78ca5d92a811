use interpreter::{Error, Keyword, NumberLiteral, Scanner, Token, Type};

fn scan(code: &str) -> Vec<Token> {
    Scanner::new(code).scan_tokens()
}

fn kinds(code: &str) -> Vec<Type> {
    scan(code).into_iter().map(|t| t.kind).collect()
}

#[test]
fn empty_input_gives_no_tokens() {
    assert!(scan("").is_empty());
    assert!(scan(" \t\r\n ").is_empty());
}

#[test]
fn punctuation_only_gives_one_token_per_byte() {
    assert_eq!(
        kinds(";;*(."),
        vec![Type::Semicolon, Type::Semicolon, Type::Star, Type::LeftParen, Type::Dot]
    );
}

#[test]
fn comment_between_tokens_is_dropped() {
    assert_eq!(
        kinds("+ - * / = // comment != >"),
        vec![Type::Plus, Type::Minus, Type::Star, Type::Slash, Type::Equal]
    );
    assert_eq!(kinds("( // x ) y\n)"), vec![Type::LeftParen, Type::RightParen]);
}

#[test]
fn comment_at_end_without_newline() {
    assert_eq!(kinds("//"), vec![]);
    assert_eq!(kinds("< //<"), vec![Type::Less]);
}

#[test]
fn scans_short_string() {
    assert_eq!(kinds("\"abc\""), vec![Type::StringLiteral("abc".to_string())]);
    assert_eq!(kinds("\"\""), vec![Type::StringLiteral(String::new())]);
}

#[test]
fn string_keeps_newline_and_round_trips() {
    let code = "\"a\nb\"";
    let tokens = kinds(code);
    assert_eq!(tokens, vec![Type::StringLiteral("a\nb".to_string())]);
    match &tokens[0] {
        Type::StringLiteral(text) => assert_eq!(format!("\"{}\"", text), code),
        _ => panic!("not a string literal"),
    }
}

#[test]
fn string_keeps_non_ascii_text() {
    assert_eq!(
        kinds("\"héllo → ü\" +"),
        vec![Type::StringLiteral("héllo → ü".to_string()), Type::Plus]
    );
}

#[test]
fn string_hides_comment_and_operators() {
    assert_eq!(
        kinds("\"// != \" ="),
        vec![Type::StringLiteral("// != ".to_string()), Type::Equal]
    );
}

#[test]
fn lone_unterminated_string() {
    assert_eq!(kinds("\"unterminated"), vec![Type::Error(Error::UnterminatedString)]);
    assert_eq!(kinds("\""), vec![Type::Error(Error::UnterminatedString)]);
}

#[test]
fn scans_float_literal_value() {
    let tokens = scan("12.3");
    assert_eq!(
        tokens,
        vec![Token { kind: Type::NumberLiteral(NumberLiteral::Float("12.3".to_string())) }]
    );
}

#[test]
fn trailing_dot_is_a_float() {
    let tokens = kinds("12. +");
    assert_eq!(
        tokens,
        vec![Type::NumberLiteral(NumberLiteral::Float("12.".to_string())), Type::Plus]
    );
    match &tokens[0] {
        Type::NumberLiteral(NumberLiteral::Float(text)) => {
            assert_eq!(text.parse::<f64>().unwrap(), 12.0)
        }
        _ => panic!("not a float"),
    }
}

#[test]
fn minus_is_never_part_of_a_number() {
    assert_eq!(
        kinds("-7"),
        vec![Type::Minus, Type::NumberLiteral(NumberLiteral::Integer(7))]
    );
}

#[test]
fn leading_zeros_are_read_in_decimal() {
    assert_eq!(kinds("007"), vec![Type::NumberLiteral(NumberLiteral::Integer(7))]);
}

#[test]
fn largest_integer_fits() {
    assert_eq!(
        kinds("2147483647"),
        vec![Type::NumberLiteral(NumberLiteral::Integer(i32::MAX))]
    );
}

#[test]
fn integer_past_i32_is_an_error() {
    assert_eq!(
        kinds("2147483648 1"),
        vec![
            Type::Error(Error::IntegerOutOfRange),
            Type::NumberLiteral(NumberLiteral::Integer(1))
        ]
    );
    assert_eq!(kinds("99999999999999999999"), vec![Type::Error(Error::IntegerOutOfRange)]);
}

#[test]
fn unexpected_byte_is_reported_and_scanning_goes_on() {
    assert_eq!(
        kinds("+ @ -"),
        vec![Type::Plus, Type::Error(Error::UnexpectedByte(b'@')), Type::Minus]
    );
}

#[test]
fn non_ascii_outside_strings_is_reported_byte_by_byte() {
    assert_eq!(
        kinds("é"),
        vec![
            Type::Error(Error::UnexpectedByte(0xc3)),
            Type::Error(Error::UnexpectedByte(0xa9))
        ]
    );
}

#[test]
fn each_keyword_alone() {
    let words = [
        ("and", Keyword::And),
        ("class", Keyword::Class),
        ("else", Keyword::Else),
        ("false", Keyword::False),
        ("for", Keyword::For),
        ("fun", Keyword::Fun),
        ("if", Keyword::If),
        ("nil", Keyword::Nil),
        ("or", Keyword::Or),
        ("print", Keyword::Print),
        ("return", Keyword::Return),
        ("super", Keyword::Super),
        ("this", Keyword::This),
        ("true", Keyword::True),
        ("var", Keyword::Var),
        ("while", Keyword::While),
    ];
    for (word, keyword) in words {
        assert_eq!(kinds(word), vec![Type::Keyword(keyword)], "{}", word);
    }
}

#[test]
fn other_words_are_identifiers() {
    assert_eq!(kinds("foo"), vec![Type::Identifier("foo".to_string())]);
    assert_eq!(kinds("And"), vec![Type::Identifier("And".to_string())]);
    assert_eq!(kinds("classy"), vec![Type::Identifier("classy".to_string())]);
    assert_eq!(kinds("fo"), vec![Type::Identifier("fo".to_string())]);
}

#[test]
fn words_stop_at_digits() {
    assert_eq!(
        kinds("abc123"),
        vec![
            Type::Identifier("abc".to_string()),
            Type::NumberLiteral(NumberLiteral::Integer(123))
        ]
    );
}

#[test]
fn scanning_twice_gives_the_same_tokens() {
    let code = "var x = \"s\" + 12.5 // c\nprint x != 3;";
    let first = scan(code);
    let second = scan(code);
    assert_eq!(first, second);
    assert_eq!(first.len(), 11);
}

#[test]
fn scanner_at_end_scans_nothing_more() {
    let mut scanner = Scanner::new("+ -");
    assert_eq!(scanner.scan_tokens().len(), 2);
    assert!(scanner.is_at_end());
    assert!(scanner.scan_tokens().is_empty());
}

#[test]
fn compound_tokens() {
    let compound = |kind: Type| Token { kind }.is_compound();
    assert!(!compound(Type::Plus));
    assert!(!compound(Type::Equal));
    assert!(!compound(Type::StringLiteral("a".to_string())));
    assert!(compound(Type::EqualEqual));
    assert!(compound(Type::Slash));
    assert!(compound(Type::Keyword(Keyword::If)));
    assert!(compound(Type::NumberLiteral(NumberLiteral::Integer(1))));
}

#[test]
fn cursor_helpers() {
    let mut scanner = Scanner::new("ab\"cd\"");
    assert_eq!(scanner.current_byte(), b'a');
    assert_eq!(scanner.next_byte(), Some(b'b'));
    scanner.advance();
    assert_eq!(scanner.next_byte(), Some(b'"'));
    scanner.seek(b'"');
    assert_eq!(scanner.current_byte(), b'"');
    scanner.skip_current_line();
    assert!(scanner.is_at_end());
    assert_eq!(scanner.next_byte(), None);
}
