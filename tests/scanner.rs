use interpreter::{Error, Keyword, NumberLiteral, Scanner, Token, Type};

fn float_value(token: &Token) -> f64 {
    match &token.kind {
        Type::NumberLiteral(NumberLiteral::Float(text)) => text.parse::<f64>().unwrap(),
        other => panic!("not a float: {:?}", other),
    }
}

#[test]
fn scans_simple_unnambiguous_tokens() {
    let code = "(){},.-+;*";

    let tokens = Scanner::new(code).scan_tokens();

    assert_eq!(
        tokens,
        &[
            Token { kind: Type::LeftParen },
            Token { kind: Type::RightParen },
            Token { kind: Type::LeftBrace },
            Token { kind: Type::RightBrace },
            Token { kind: Type::Comma },
            Token { kind: Type::Dot },
            Token { kind: Type::Minus },
            Token { kind: Type::Plus },
            Token { kind: Type::Semicolon },
            Token { kind: Type::Star },
        ],
        r#"Did not scan "(){{}},.-+;*""#
    )
}

#[test]
fn scans_ambiguous_tokens() {
    let code = "!= ! == = > >= < <=";

    let tokens = Scanner::new(code).scan_tokens();

    assert_eq!(
        tokens,
        &[
            Token { kind: Type::BangEqual },
            Token { kind: Type::Bang },
            Token { kind: Type::EqualEqual },
            Token { kind: Type::Equal },
            Token { kind: Type::Greater },
            Token { kind: Type::GreaterEqual },
            Token { kind: Type::Less },
            Token { kind: Type::LessEqual },
        ],
        r#"Did not scan "!= ! == = > >= < <=""#
    )
}

#[test]
fn test_different_spacing() {
    let code = "
            (+ -\t*
            =         )
            }\n{
        ";

    let tokens = Scanner::new(code).scan_tokens();

    assert_eq!(
        tokens,
        &[
            Token { kind: Type::LeftParen },
            Token { kind: Type::Plus },
            Token { kind: Type::Minus },
            Token { kind: Type::Star },
            Token { kind: Type::Equal },
            Token { kind: Type::RightParen },
            Token { kind: Type::RightBrace },
            Token { kind: Type::LeftBrace },
        ],
    )
}

#[test]
fn does_not_scan_comment_glued_to_code() {
    let code = "=//=";

    let tokens = Scanner::new(code).scan_tokens();

    assert_eq!(tokens, &[Token { kind: Type::Equal }]);
}

#[test]
fn scans_line_ending_with_comment() {
    let code = "+ - * / =   // This is a comment! != > etc";

    let tokens = Scanner::new(code).scan_tokens();

    assert_eq!(
        tokens,
        &[
            Token { kind: Type::Plus },
            Token { kind: Type::Minus },
            Token { kind: Type::Star },
            Token { kind: Type::Slash },
            Token { kind: Type::Equal },
        ],
    )
}

#[test]
fn scans_line_after_comment() {
    let code = r#"
            + -
            // This is a comment!
            - +
            "#;

    let tokens = Scanner::new(code).scan_tokens();

    assert_eq!(
        tokens,
        &[
            Token { kind: Type::Plus },
            Token { kind: Type::Minus },
            Token { kind: Type::Minus },
            Token { kind: Type::Plus },
        ],
    )
}

#[test]
fn scans_lone_strings() {
    let code = r#""This is a string!""#;

    let tokens = Scanner::new(code).scan_tokens();

    assert_eq!(
        tokens,
        &[Token { kind: Type::StringLiteral("This is a string!".to_string()) }],
    )
}

#[test]
fn scans_strings() {
    let code = r#"+ - "This is a string!" - +"#;

    let tokens = Scanner::new(code).scan_tokens();

    assert_eq!(
        tokens,
        &[
            Token { kind: Type::Plus },
            Token { kind: Type::Minus },
            Token { kind: Type::StringLiteral("This is a string!".to_string()) },
            Token { kind: Type::Minus },
            Token { kind: Type::Plus },
        ],
    )
}

#[test]
fn scans_multiline_strings() {
    let code = r#"
                + - "This is a string!
                And it is still going!"
                - +"#;

    let tokens = Scanner::new(code).scan_tokens();

    assert_eq!(
        tokens,
        &[
            Token { kind: Type::Plus },
            Token { kind: Type::Minus },
            Token {
                kind: Type::StringLiteral(
                    "This is a string!\n                And it is still going!".to_string()
                )
            },
            Token { kind: Type::Minus },
            Token { kind: Type::Plus },
        ],
    )
}

#[test]
fn detects_unterminated_strings() {
    let code = r#"+ - "This is a string! And it's missing the closing quote..."#;

    let tokens = Scanner::new(code).scan_tokens();

    assert_eq!(
        tokens,
        &[
            Token { kind: Type::Plus },
            Token { kind: Type::Minus },
            Token { kind: Type::Error(Error::UnterminatedString) },
        ],
    )
}

#[test]
fn scans_lone_integers() {
    let code = "123";

    let tokens = Scanner::new(code).scan_tokens();

    assert_eq!(
        tokens,
        &[Token { kind: Type::NumberLiteral(NumberLiteral::Integer(123)) }],
    )
}

#[test]
fn scans_integers() {
    let code = "0 + 123 - 1";

    let tokens = Scanner::new(code).scan_tokens();

    assert_eq!(
        tokens,
        &[
            Token { kind: Type::NumberLiteral(NumberLiteral::Integer(0)) },
            Token { kind: Type::Plus },
            Token { kind: Type::NumberLiteral(NumberLiteral::Integer(123)) },
            Token { kind: Type::Minus },
            Token { kind: Type::NumberLiteral(NumberLiteral::Integer(1)) },
        ],
    )
}

#[test]
fn scans_lone_floats() {
    let code = "12.3";

    let tokens = Scanner::new(code).scan_tokens();

    assert_eq!(
        tokens,
        &[Token { kind: Type::NumberLiteral(NumberLiteral::Float("12.3".to_string())) }],
    );
    assert_eq!(float_value(&tokens[0]), 12.3);
}

#[test]
fn scans_floats() {
    let code = "0 + 12.3 / 5";

    let tokens = Scanner::new(code).scan_tokens();

    assert_eq!(
        tokens,
        &[
            Token { kind: Type::NumberLiteral(NumberLiteral::Integer(0)) },
            Token { kind: Type::Plus },
            Token { kind: Type::NumberLiteral(NumberLiteral::Float("12.3".to_string())) },
            Token { kind: Type::Slash },
            Token { kind: Type::NumberLiteral(NumberLiteral::Integer(5)) },
        ],
    );
    assert_eq!(float_value(&tokens[2]), 12.3);
}

#[test]
fn scans_keywords() {
    let code = r#"
                and
                class
                else
                false
                for
                fun
                if
                nil
                or
                print
                return
                super
                this
                true
                var
                while
            "#;

    let tokens = Scanner::new(code).scan_tokens();

    assert_eq!(
        tokens,
        &[
            Token { kind: Type::Keyword(Keyword::And) },
            Token { kind: Type::Keyword(Keyword::Class) },
            Token { kind: Type::Keyword(Keyword::Else) },
            Token { kind: Type::Keyword(Keyword::False) },
            Token { kind: Type::Keyword(Keyword::For) },
            Token { kind: Type::Keyword(Keyword::Fun) },
            Token { kind: Type::Keyword(Keyword::If) },
            Token { kind: Type::Keyword(Keyword::Nil) },
            Token { kind: Type::Keyword(Keyword::Or) },
            Token { kind: Type::Keyword(Keyword::Print) },
            Token { kind: Type::Keyword(Keyword::Return) },
            Token { kind: Type::Keyword(Keyword::Super) },
            Token { kind: Type::Keyword(Keyword::This) },
            Token { kind: Type::Keyword(Keyword::True) },
            Token { kind: Type::Keyword(Keyword::Var) },
            Token { kind: Type::Keyword(Keyword::While) },
        ],
    )
}

#[test]
fn scans_keywords_between_newlines() {
    let code = "fun\nvar";

    let tokens = Scanner::new(code).scan_tokens();

    assert_eq!(
        tokens,
        &[
            Token { kind: Type::Keyword(Keyword::Fun) },
            Token { kind: Type::Keyword(Keyword::Var) },
        ],
    )
}
