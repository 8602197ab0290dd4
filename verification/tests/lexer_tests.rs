use odetoj::{parse, LexError, Token};

fn var(name: &str) -> Token {
    Token::Variable(name.to_string())
}

#[test]
fn test_parser() {
    assert_eq!(parse(""), Ok(vec![]));
    assert_eq!(parse("a"), Ok(vec![Token::Variable("a".to_string())]));
    assert_eq!(parse("abc"), Ok(vec![Token::Variable("abc".to_string())]));
    assert_eq!(parse("1"), Ok(vec![Token::Number(1)]));
    assert_eq!(parse("123"), Ok(vec![Token::Number(123)]));
    assert_eq!(parse("1+2"), Ok(vec![Token::Number(1), Token::Verb('+'), Token::Number(2)]));
    assert!(parse("1.2").is_err());
}

#[test]
fn error_carries_the_offending_character() {
    assert_eq!(parse("1.2"), Err(LexError::Unexpected('.')));
    assert_eq!(parse("ab C"), Err(LexError::Unexpected(' ')));
    assert_eq!(parse("abC"), Err(LexError::Unexpected('C')));
    assert_eq!(parse("-1"), Err(LexError::Unexpected('-')));
    assert_eq!(parse("x\u{e9}"), Err(LexError::Unexpected('\u{e9}')));
}

#[test]
fn whitespace_is_not_skipped() {
    assert_eq!(parse(" "), Err(LexError::Unexpected(' ')));
    assert_eq!(parse("1 + 2"), Err(LexError::Unexpected(' ')));
    assert_eq!(parse("1+2\n"), Err(LexError::Unexpected('\n')));
    assert_eq!(parse("\t1"), Err(LexError::Unexpected('\t')));
}

#[test]
fn equals_sign_starts_no_token() {
    assert_eq!(parse("x=1+2"), Err(LexError::Unexpected('=')));
}

#[test]
fn first_error_wins() {
    assert_eq!(parse("1?2!"), Err(LexError::Unexpected('?')));
    assert_eq!(parse("99999999999999999999?"), Err(LexError::Overflow));
    assert_eq!(parse("?99999999999999999999"), Err(LexError::Unexpected('?')));
}

#[test]
fn runs_are_maximal() {
    assert_eq!(parse("1a"), Ok(vec![Token::Number(1), var("a")]));
    assert_eq!(parse("ab12cd"), Ok(vec![var("ab"), Token::Number(12), var("cd")]));
    assert_eq!(parse("abcdefghijklmnopqrstuvwxyz"), Ok(vec![var("abcdefghijklmnopqrstuvwxyz")]));
    assert_eq!(parse("0123456789"), Ok(vec![Token::Number(123456789)]));
}

#[test]
fn verbs_are_single_characters() {
    assert_eq!(parse("+"), Ok(vec![Token::Verb('+')]));
    assert_eq!(parse("^"), Ok(vec![Token::Verb('^')]));
    assert_eq!(
        parse("^^++"),
        Ok(vec![Token::Verb('^'), Token::Verb('^'), Token::Verb('+'), Token::Verb('+')])
    );
    assert_eq!(parse("^10"), Ok(vec![Token::Verb('^'), Token::Number(10)]));
    assert_eq!(parse("d+c"), Ok(vec![var("d"), Token::Verb('+'), var("c")]));
}

#[test]
fn neighbours_of_the_character_classes_are_rejected() {
    assert_eq!(parse("/"), Err(LexError::Unexpected('/')));
    assert_eq!(parse(":"), Err(LexError::Unexpected(':')));
    assert_eq!(parse("`"), Err(LexError::Unexpected('`')));
    assert_eq!(parse("{"), Err(LexError::Unexpected('{')));
    assert_eq!(parse("0"), Ok(vec![Token::Number(0)]));
    assert_eq!(parse("9"), Ok(vec![Token::Number(9)]));
    assert_eq!(parse("a"), Ok(vec![var("a")]));
    assert_eq!(parse("z"), Ok(vec![var("z")]));
}

#[test]
fn largest_number_is_accepted() {
    assert_eq!(parse("9223372036854775807"), Ok(vec![Token::Number(i64::MAX)]));
    assert_eq!(parse("0009223372036854775807"), Ok(vec![Token::Number(i64::MAX)]));
}

#[test]
fn number_beyond_64_bits_is_an_error() {
    assert_eq!(parse("9223372036854775808"), Err(LexError::Overflow));
    assert_eq!(parse("10000000000000000000"), Err(LexError::Overflow));
    assert_eq!(parse("92233720368547758070"), Err(LexError::Overflow));
    assert_eq!(parse("1+99999999999999999999999999999999999999999"), Err(LexError::Overflow));
    assert_eq!(parse("18446744073709551617"), Err(LexError::Overflow));
}

#[test]
fn leading_zeros_do_not_overflow() {
    assert_eq!(parse("00000000000000000000000000000000000001"), Ok(vec![Token::Number(1)]));
    assert_eq!(parse("000"), Ok(vec![Token::Number(0)]));
}
