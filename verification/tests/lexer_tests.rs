use minisql::lexer::{lex, LexError, Token};

#[test]
fn lex_select_star() {
    let sql = "SELECT * FROM fish";
    let tokens = lex(sql).unwrap();
    assert_eq!(
        tokens,
        vec![
            Token::Select,
            Token::Asterisk,
            Token::From,
            Token::Identifier(String::from("fish"))
        ]
    );
}

#[test]
fn lex_projection() {
    let sql = "SELECT Name FROM fish";
    let tokens = lex(sql).unwrap();
    assert_eq!(
        tokens,
        vec![
            Token::Select,
            Token::Identifier(String::from("Name")),
            Token::From,
            Token::Identifier(String::from("fish"))
        ]
    );
}

#[test]
fn lex_projections() {
    let sql = r##"SELECT Name, "Unique Entry ID", "#" FROM fish"##;
    let tokens = lex(sql).unwrap();
    assert_eq!(
        tokens,
        vec![
            Token::Select,
            Token::Identifier(String::from("Name")),
            Token::Comma,
            Token::Identifier(String::from("Unique Entry ID")),
            Token::Comma,
            Token::Identifier(String::from("#")),
            Token::From,
            Token::Identifier(String::from("fish"))
        ]
    );
}

#[test]
fn lex_values() {
    let sql = "SELECT 1, 'one'";
    let tokens = lex(sql).unwrap();
    assert_eq!(
        tokens,
        vec![
            Token::Select,
            Token::NumericLiteral(1),
            Token::Comma,
            Token::StringLiteral(String::from("one"))
        ]
    )
}

#[test]
fn lex_is_pure() {
    let sql = "SELECT * FROM fish";
    assert_eq!(lex(sql), lex(sql));
    let bad = "SELECT ;";
    assert_eq!(lex(bad), lex(bad));
}

#[test]
fn lex_quoted_identifier_preserves_spaces() {
    let tokens = lex(r#"SELECT "Unique Entry ID" FROM fish"#).unwrap();
    assert_eq!(tokens[1], Token::Identifier(String::from("Unique Entry ID")));
}

#[test]
fn lex_unterminated_quote_consumes_to_end() {
    let tokens = lex("SELECT \"abc").unwrap();
    assert_eq!(
        tokens,
        vec![Token::Select, Token::Identifier(String::from("abc"))]
    );
}

#[test]
fn lex_keywords_case_insensitive() {
    let tokens = lex("select * from fish").unwrap();
    assert_eq!(
        tokens,
        vec![
            Token::Select,
            Token::Asterisk,
            Token::From,
            Token::Identifier(String::from("fish"))
        ]
    );
}

#[test]
fn lex_identifier_with_digits() {
    let tokens = lex("SELECT a1b2 FROM t9").unwrap();
    assert_eq!(
        tokens,
        vec![
            Token::Select,
            Token::Identifier(String::from("a1b2")),
            Token::From,
            Token::Identifier(String::from("t9"))
        ]
    );
}

#[test]
fn lex_numeric_boundary() {
    let tokens = lex("SELECT 9223372036854775807").unwrap();
    assert_eq!(
        tokens,
        vec![Token::Select, Token::NumericLiteral(9223372036854775807)]
    );
}

#[test]
fn lex_numeric_overflow_fails() {
    let r = lex("SELECT 9223372036854775808");
    assert_eq!(r, Err(LexError::NumericOverflow { position: 7 }));
}

#[test]
fn lex_unexpected_character_fails() {
    let r = lex("SELECT ;");
    assert_eq!(
        r,
        Err(LexError::UnexpectedChar {
            position: 7,
            character: ';'
        })
    );
}

#[test]
fn lex_unterminated_string_literal_consumes_to_end() {
    let tokens = lex("SELECT 'abc").unwrap();
    assert_eq!(
        tokens,
        vec![Token::Select, Token::StringLiteral(String::from("abc"))]
    );
}
