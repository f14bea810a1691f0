use calculator::token::{Decimal, Operator, Token};
use calculator::tokenize::{expr, hexa, integer, number, tokenize, LexError};

fn scan(text: &str) -> Result<Vec<Token>, LexError> {
    tokenize(text.to_string())
}

fn point(text: &str) -> Token {
    Token::Float(Decimal::parse(text).unwrap())
}

fn invalid(raw: &str) -> Result<Vec<Token>, LexError> {
    Err(LexError::InvalidNumeral(raw.to_string()))
}

#[test]
fn integer_reads_decimal_digits() {
    assert_eq!(integer("0"), Some(0));
    assert_eq!(integer("42"), Some(42));
    assert_eq!(integer("007"), Some(7));
    assert_eq!(integer("9223372036854775807"), Some(i64::MAX));
    assert_eq!(integer("00000000000000000000009223372036854775807"), Some(i64::MAX));
}

#[test]
fn integer_refuses_what_is_no_decimal_integer() {
    assert_eq!(integer(""), None);
    assert_eq!(integer("9223372036854775808"), None);
    assert_eq!(integer("99999999999999999999"), None);
    assert_eq!(integer("12a"), None);
    assert_eq!(integer("-1"), None);
    assert_eq!(integer("+1"), None);
    assert_eq!(integer("1.0"), None);
    assert_eq!(integer("0x10"), None);
    assert_eq!(integer("99999999999999999999x"), None);
}

#[test]
fn hexa_reads_both_prefixes_and_both_cases() {
    assert_eq!(hexa("0x1A"), Some(26));
    assert_eq!(hexa("0X1a"), Some(26));
    assert_eq!(hexa("0x0"), Some(0));
    assert_eq!(hexa("0xff"), Some(255));
    assert_eq!(hexa("0xABCDEF"), Some(0xABCDEF));
    assert_eq!(hexa("0xabcdef"), Some(0xABCDEF));
    assert_eq!(hexa("0x0123456789"), Some(0x0123456789));
    assert_eq!(hexa("0x7fffffffffffffff"), Some(i64::MAX));
    assert_eq!(hexa("0x0007FFFFFFFFFFFFFFF"), Some(i64::MAX));
}

#[test]
fn hexa_refuses_what_is_no_hexadecimal_integer() {
    assert_eq!(hexa(""), None);
    assert_eq!(hexa("0"), None);
    assert_eq!(hexa("0x"), None);
    assert_eq!(hexa("0X"), None);
    assert_eq!(hexa("x1A"), None);
    assert_eq!(hexa("1x1A"), None);
    assert_eq!(hexa("0x1G"), None);
    assert_eq!(hexa("0x1.8"), None);
    assert_eq!(hexa("26"), None);
    assert_eq!(hexa("0x8000000000000000"), None);
    assert_eq!(hexa("0xffffffffffffffffff"), None);
}

#[test]
fn number_picks_the_rule_by_the_shape_of_the_numeral() {
    assert_eq!(number("0x1A"), Some(Token::Integer(26)));
    assert_eq!(number("3.25"), Some(point("3.25")));
    assert_eq!(number("17"), Some(Token::Integer(17)));
    assert_eq!(number("0"), Some(Token::Integer(0)));
    assert_eq!(number(".5"), Some(point(".5")));
}

#[test]
fn number_refuses_ill_formed_numerals() {
    for raw in ["", "abc", "1.2.3", ".", "0x", "0xZZ", "0x1.8", "12a", "1e5", "1.5e3", "9223372036854775808", "0x8000000000000000", "π"] {
        assert_eq!(number(raw), None);
    }
}

#[test]
fn tokenize_reads_every_kind_of_token() {
    assert_eq!(
        scan("( 12 + 0x1f ) * 2.5 / 4 ^ 2 - 1"),
        Ok(vec![
            Token::LeftParenthesis,
            Token::Integer(12),
            Token::Operator(Operator::Plus),
            Token::Integer(31),
            Token::RightParenthesis,
            Token::Operator(Operator::Mul),
            point("2.5"),
            Token::Operator(Operator::Div),
            Token::Integer(4),
            Token::Operator(Operator::Exp),
            Token::Integer(2),
            Token::Operator(Operator::Minus),
            Token::Integer(1),
        ])
    );
}

#[test]
fn tokenize_needs_no_white_space() {
    assert_eq!(
        scan("(3+4)*2"),
        Ok(vec![
            Token::LeftParenthesis,
            Token::Integer(3),
            Token::Operator(Operator::Plus),
            Token::Integer(4),
            Token::RightParenthesis,
            Token::Operator(Operator::Mul),
            Token::Integer(2),
        ])
    );
}

#[test]
fn tokenize_drops_space_tab_and_line_ends() {
    assert_eq!(
        scan(" \t1\r\n+\n\t 2 \r\n"),
        Ok(vec![Token::Integer(1), Token::Operator(Operator::Plus), Token::Integer(2)])
    );
    assert_eq!(scan(""), Ok(vec![]));
    assert_eq!(scan(" \t\r\n"), Ok(vec![]));
}

#[test]
fn tokenize_splits_numerals_at_white_space() {
    assert_eq!(scan("1 2"), Ok(vec![Token::Integer(1), Token::Integer(2)]));
    assert_eq!(scan("0x 1A"), invalid("0x"));
}

#[test]
fn tokenize_reads_every_minus_as_the_operator() {
    assert_eq!(scan("-5"), Ok(vec![Token::Operator(Operator::Minus), Token::Integer(5)]));
    assert_eq!(
        scan("3--5"),
        Ok(vec![
            Token::Integer(3),
            Token::Operator(Operator::Minus),
            Token::Operator(Operator::Minus),
            Token::Integer(5),
        ])
    );
    assert_eq!(
        scan("-2.5"),
        Ok(vec![Token::Operator(Operator::Minus), point("2.5")])
    );
}

#[test]
fn tokenize_takes_the_longest_numeral() {
    assert_eq!(scan("123456"), Ok(vec![Token::Integer(123456)]));
    assert_eq!(scan("12.5.7"), invalid("12.5.7"));
    assert_eq!(scan("3.5"), Ok(vec![point("3.5")]));
    assert_eq!(scan("0x1A"), Ok(vec![Token::Integer(26)]));
}

#[test]
fn tokenize_keeps_decimal_literals_as_written() {
    let tokens = scan("0.10 + 5. + .5").unwrap();
    assert_eq!(
        tokens,
        vec![
            point("0.10"),
            Token::Operator(Operator::Plus),
            point("5."),
            Token::Operator(Operator::Plus),
            point(".5"),
        ]
    );
    match &tokens[0] {
        Token::Float(literal) => {
            assert_eq!(literal.digits(), "0.10");
            assert!(!literal.is_negative());
        }
        other => panic!("{:?}", other),
    }
}

#[test]
fn tokenize_reports_the_ill_formed_numeral_as_written() {
    assert_eq!(scan("1 + abc"), invalid("abc"));
    assert_eq!(scan("2 * 1.2.3 - 4"), invalid("1.2.3"));
    assert_eq!(scan("(0x)"), invalid("0x"));
    assert_eq!(scan("9223372036854775808"), invalid("9223372036854775808"));
    assert_eq!(scan("0x8000000000000000"), invalid("0x8000000000000000"));
    assert_eq!(scan("1e5"), invalid("1e5"));
    assert_eq!(scan("2 × 3"), invalid("×"));
    assert_eq!(scan("1\u{a0}+ 2"), invalid("1\u{a0}"));
}

#[test]
fn tokenize_reports_the_first_ill_formed_numeral() {
    assert_eq!(scan("1 + x + y"), invalid("x"));
    assert_eq!(scan("a.b c.d"), invalid("a.b"));
}

#[test]
fn tokenize_reads_the_largest_integers() {
    assert_eq!(scan("9223372036854775807"), Ok(vec![Token::Integer(i64::MAX)]));
    assert_eq!(scan("0x7FFFFFFFFFFFFFFF"), Ok(vec![Token::Integer(i64::MAX)]));
}

#[test]
fn tokenize_is_repeatable() {
    for text in ["3 + 4 * 2", "(0x1A - 2.5) ^ 2", "1 + oops", "", "- - ( )"] {
        assert_eq!(scan(text), scan(text));
    }
}

#[test]
fn expr_scans_borrowed_text_like_tokenize() {
    for text in ["3 + 4 * 2", "(0x1A - 2.5) ^ 2", "1 + oops", ""] {
        assert_eq!(expr(text), scan(text));
    }
}

#[test]
fn lex_error_message_names_the_numeral() {
    let error = scan("1 + 2x").unwrap_err();
    assert_eq!(error.message(), "Invalid numeral: 2x");
}

#[test]
fn tokenize_gives_no_literal_with_a_sign() {
    let tokens = scan("-1 - -2.5 * (-0x10) ^ -3").unwrap();
    for token in &tokens {
        match token {
            Token::Integer(n) => assert!(*n >= 0),
            Token::Float(literal) => assert!(!literal.is_negative()),
            _ => {}
        }
    }
    assert_eq!(tokens.iter().filter(|t| **t == Token::Operator(Operator::Minus)).count(), 5);
}

#[test]
fn tokenize_succeeds_where_every_numeral_is_well_formed() {
    assert!(scan("0x10 2.5 7 ) ( ^ ^ - -").is_ok());
    assert!(scan("0x10 2.5 7 ) ( ^ ^ - - 7.").is_ok());
    assert!(scan("0x10 2.5 7 ) ( ^ ^ - - 7.7.").is_err());
}
