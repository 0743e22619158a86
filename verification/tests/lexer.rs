use a_tree::decimal::Decimal;
use a_tree::error::ParserError;
use a_tree::lexer::{tokenize, Token};

fn lex_tokens(input: &str) -> Result<Vec<Token>, ParserError> {
    tokenize(input).map(|tokens| tokens.into_iter().map(|(_, token, _)| token).collect())
}

#[test]
fn can_lex_less_than() {
    let actual = lex_tokens("<").unwrap();
    assert_eq!(vec![Token::LessThan], actual);
}

#[test]
fn can_lex_less_than_equal() {
    let actual = lex_tokens("<=").unwrap();
    assert_eq!(vec![Token::LessThanEqual], actual);
}

#[test]
fn can_lex_greater_than() {
    let actual = lex_tokens(">").unwrap();
    assert_eq!(vec![Token::GreaterThan], actual);
}

#[test]
fn can_lex_greater_than_equal() {
    let actual = lex_tokens(">=").unwrap();
    assert_eq!(vec![Token::GreaterThanEqual], actual);
}

#[test]
fn can_lex_not() {
    let actual = lex_tokens("not").unwrap();
    let other = lex_tokens("!").unwrap();
    assert_eq!(vec![Token::Not], actual);
    assert_eq!(vec![Token::Not], other);
}

#[test]
fn can_lex_equal() {
    let actual = lex_tokens("=").unwrap();
    assert_eq!(vec![Token::Equal], actual);
}

#[test]
fn can_lex_not_equal() {
    let actual = lex_tokens("<>").unwrap();
    assert_eq!(vec![Token::NotEqual], actual);
}

#[test]
fn can_lex_not_in() {
    let actual = lex_tokens("not in").unwrap();
    assert_eq!(vec![Token::NotIn], actual);
}

#[test]
fn can_lex_in() {
    let actual = lex_tokens("in").unwrap();
    assert_eq!(vec![Token::In], actual);
}

#[test]
fn can_lex_one_of() {
    let actual = lex_tokens("one of").unwrap();
    assert_eq!(vec![Token::OneOf], actual);
}

#[test]
fn can_lex_none_of() {
    let actual = lex_tokens("none of").unwrap();
    assert_eq!(vec![Token::NoneOf], actual);
}

#[test]
fn can_lex_all_of() {
    let actual = lex_tokens("all of").unwrap();
    assert_eq!(vec![Token::AllOf], actual);
}

#[test]
fn can_lex_is_null() {
    let actual = lex_tokens("is null").unwrap();
    assert_eq!(vec![Token::IsNull], actual);
}

#[test]
fn can_lex_is_not_null() {
    let actual = lex_tokens("is not null").unwrap();
    assert_eq!(vec![Token::IsNotNull], actual);
}

#[test]
fn can_lex_is_empty() {
    let actual = lex_tokens("is empty").unwrap();
    assert_eq!(vec![Token::IsEmpty], actual);
}

#[test]
fn can_lex_is_not_empty() {
    let actual = lex_tokens("is not empty").unwrap();
    assert_eq!(vec![Token::IsNotEmpty], actual);
}

#[test]
fn can_lex_and() {
    let actual = lex_tokens("and").unwrap();
    let other = lex_tokens("&&").unwrap();
    assert_eq!(vec![Token::And], actual);
    assert_eq!(vec![Token::And], other);
}

#[test]
fn can_lex_or() {
    let actual = lex_tokens("or").unwrap();
    let other = lex_tokens("||").unwrap();
    assert_eq!(vec![Token::Or], actual);
    assert_eq!(vec![Token::Or], other);
}

#[test]
fn can_lex_parenthesis() {
    let actual = lex_tokens("(").unwrap();
    let other = lex_tokens(")").unwrap();
    assert_eq!(vec![Token::LeftParenthesis], actual);
    assert_eq!(vec![Token::RightParenthesis], other);
}

#[test]
fn can_lex_square_brackets() {
    let actual = lex_tokens("[").unwrap();
    let other = lex_tokens("]").unwrap();
    assert_eq!(vec![Token::LeftSquareBracket], actual);
    assert_eq!(vec![Token::RightSquareBracket], other);
}

#[test]
fn can_lex_comma() {
    let actual = lex_tokens(",").unwrap();
    assert_eq!(vec![Token::Comma], actual);
}

#[test]
fn can_lex_integer() {
    let actual = lex_tokens("123").unwrap();
    assert_eq!(vec![Token::IntegerLiteral(123)], actual);
}

#[test]
fn can_lex_negative_integer() {
    let actual = lex_tokens("-123").unwrap();
    assert_eq!(vec![Token::IntegerLiteral(-123)], actual);
}

#[test]
fn can_lex_float() {
    let actual = lex_tokens("123.123").unwrap();
    let other = lex_tokens("123.").unwrap();
    assert_eq!(vec![Token::FloatLiteral(Decimal::new(123123, 3))], actual);
    assert_eq!(vec![Token::FloatLiteral(Decimal::new(123, 0))], other);
}

#[test]
fn can_lex_boolean() {
    let actual = lex_tokens("true").unwrap();
    let other = lex_tokens("false").unwrap();
    assert_eq!(vec![Token::BooleanLiteral(true)], actual);
    assert_eq!(vec![Token::BooleanLiteral(false)], other);
}

#[test]
fn can_lex_identifier() {
    let actual = lex_tokens("deal_ids").unwrap();
    assert_eq!(vec![Token::Identifier("deal_ids".to_string())], actual);
}

#[test]
fn can_lex_empty_string() {
    let actual = lex_tokens("\"\"").unwrap();
    assert_eq!(vec![Token::StringLiteral("".to_string())], actual);
    let actual = lex_tokens("''").unwrap();
    assert_eq!(vec![Token::StringLiteral("".to_string())], actual);
}

#[test]
fn can_lex_string() {
    let actual = lex_tokens("\"deal_1\"").unwrap();
    assert_eq!(vec![Token::StringLiteral("deal_1".to_string())], actual);
    let actual = lex_tokens("'deal_1'").unwrap();
    assert_eq!(vec![Token::StringLiteral("deal_1".to_string())], actual);
}

#[test]
fn can_lex_string_with_escaped_quotes() {
    let actual = lex_tokens(r##""deal\"_1""##).unwrap();
    assert_eq!(vec![Token::StringLiteral("deal\\\"_1".to_string())], actual);
    let actual = lex_tokens("'deal\\'_1'").unwrap();
    assert_eq!(vec![Token::StringLiteral("deal\\'_1".to_string())], actual);
}

#[test]
fn can_lex_string_with_escaped_chars() {
    let actual = lex_tokens("\"deal_1\n\\dsad\\a\"").unwrap();
    assert_eq!(vec![Token::StringLiteral("deal_1\n\\dsad\\a".to_string())], actual);
    let actual = lex_tokens("'deal_1\n\\dsad\\a'").unwrap();
    assert_eq!(vec![Token::StringLiteral("deal_1\n\\dsad\\a".to_string())], actual);
}

#[test]
fn can_lex_multiple_expressions() {
    let actual = lex_tokens(
        r#"(not private) or (exchange = 1 and deal_ids one of ("deal_1", "deal_2", "deal_3"))"#,
    );

    assert_eq!(
        Ok(vec![
            Token::LeftParenthesis,
            Token::Not,
            Token::Identifier("private".to_string()),
            Token::RightParenthesis,
            Token::Or,
            Token::LeftParenthesis,
            Token::Identifier("exchange".to_string()),
            Token::Equal,
            Token::IntegerLiteral(1),
            Token::And,
            Token::Identifier("deal_ids".to_string()),
            Token::OneOf,
            Token::LeftParenthesis,
            Token::StringLiteral("deal_1".to_string()),
            Token::Comma,
            Token::StringLiteral("deal_2".to_string()),
            Token::Comma,
            Token::StringLiteral("deal_3".to_string()),
            Token::RightParenthesis,
            Token::RightParenthesis,
        ]),
        actual
    );
}

#[test]
fn can_lex_complex_expression() {
    let actual = lex_tokens(
        r##"((not private) or (exchange = 1 and deal_ids one of ("deal_1", "deal_2", "deal_3"))) and (continent <> "EU" and country not in ("US", "CA"))"##,
    );

    assert_eq!(
        Ok(vec![
            Token::LeftParenthesis,
            Token::LeftParenthesis,
            Token::Not,
            Token::Identifier("private".to_string()),
            Token::RightParenthesis,
            Token::Or,
            Token::LeftParenthesis,
            Token::Identifier("exchange".to_string()),
            Token::Equal,
            Token::IntegerLiteral(1),
            Token::And,
            Token::Identifier("deal_ids".to_string()),
            Token::OneOf,
            Token::LeftParenthesis,
            Token::StringLiteral("deal_1".to_string()),
            Token::Comma,
            Token::StringLiteral("deal_2".to_string()),
            Token::Comma,
            Token::StringLiteral("deal_3".to_string()),
            Token::RightParenthesis,
            Token::RightParenthesis,
            Token::RightParenthesis,
            Token::And,
            Token::LeftParenthesis,
            Token::Identifier("continent".to_string()),
            Token::NotEqual,
            Token::StringLiteral("EU".to_string()),
            Token::And,
            Token::Identifier("country".to_string()),
            Token::NotIn,
            Token::LeftParenthesis,
            Token::StringLiteral("US".to_string()),
            Token::Comma,
            Token::StringLiteral("CA".to_string()),
            Token::RightParenthesis,
            Token::RightParenthesis,
        ]),
        actual
    );
}

#[test]
fn a_lexer_hands_out_one_token_after_the_other() {
    let mut lexer = a_tree::lexer::Lexer::new("deal_ids one of ['a']");

    assert_eq!(
        Some(Ok((0, Token::Identifier("deal_ids".to_string()), 8))),
        lexer.next()
    );
    assert_eq!(Some(Ok((9, Token::OneOf, 15))), lexer.next());
    assert_eq!(Some(Ok((16, Token::LeftSquareBracket, 17))), lexer.next());
    assert_eq!(
        Some(Ok((17, Token::StringLiteral("a".to_string()), 20))),
        lexer.next()
    );
    assert_eq!(Some(Ok((20, Token::RightSquareBracket, 21))), lexer.next());
    assert_eq!(None, lexer.next());
    assert_eq!(None, lexer.next());
}

#[test]
fn quotes_of_either_kind_are_taken_off_both_ends_of_a_text() {
    let actual = lex_tokens(r#""'deal'" 'it''s'"#).unwrap();

    assert_eq!(
        vec![
            Token::StringLiteral("deal".to_string()),
            Token::StringLiteral("it".to_string()),
            Token::StringLiteral("s".to_string()),
        ],
        actual
    );
}
