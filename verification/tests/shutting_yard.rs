use calculator::shutting_yard::{shutting_yard, StructuralError};
use calculator::token::{Decimal, Operator, Token};

const PLUS: Token = Token::Operator(Operator::Plus);
const MINUS: Token = Token::Operator(Operator::Minus);
const TIMES: Token = Token::Operator(Operator::Mul);
const OVER: Token = Token::Operator(Operator::Div);
const POWER: Token = Token::Operator(Operator::Exp);
const OPEN: Token = Token::LeftParenthesis;
const CLOSE: Token = Token::RightParenthesis;

fn num(n: i64) -> Token {
    Token::Integer(n)
}

const MISMATCHED: Result<Vec<Token>, StructuralError> = Err(StructuralError::MismatchedParenthesis);

#[test]
fn shutting_yard_puts_the_tighter_operator_first() {
    assert_eq!(
        shutting_yard(vec![num(3), PLUS, num(4), TIMES, num(2)]),
        Ok(vec![num(3), num(4), num(2), TIMES, PLUS])
    );
    assert_eq!(
        shutting_yard(vec![num(3), TIMES, num(4), PLUS, num(2)]),
        Ok(vec![num(3), num(4), TIMES, num(2), PLUS])
    );
    assert_eq!(
        shutting_yard(vec![num(2), TIMES, num(3), POWER, num(2)]),
        Ok(vec![num(2), num(3), num(2), POWER, TIMES])
    );
    assert_eq!(
        shutting_yard(vec![num(2), POWER, num(3), TIMES, num(2)]),
        Ok(vec![num(2), num(3), POWER, num(2), TIMES])
    );
}

#[test]
fn shutting_yard_groups_by_parentheses() {
    assert_eq!(
        shutting_yard(vec![OPEN, num(3), PLUS, num(4), CLOSE, TIMES, num(2)]),
        Ok(vec![num(3), num(4), PLUS, num(2), TIMES])
    );
    assert_eq!(
        shutting_yard(vec![num(2), TIMES, OPEN, num(3), PLUS, num(4), CLOSE]),
        Ok(vec![num(2), num(3), num(4), PLUS, TIMES])
    );
    assert_eq!(
        shutting_yard(vec![OPEN, OPEN, num(1), CLOSE, CLOSE]),
        Ok(vec![num(1)])
    );
}

#[test]
fn shutting_yard_groups_equal_ranks_to_the_left() {
    assert_eq!(
        shutting_yard(vec![num(8), OVER, num(4), OVER, num(2)]),
        Ok(vec![num(8), num(4), OVER, num(2), OVER])
    );
    assert_eq!(
        shutting_yard(vec![num(8), MINUS, num(4), PLUS, num(2)]),
        Ok(vec![num(8), num(4), MINUS, num(2), PLUS])
    );
    assert_eq!(
        shutting_yard(vec![num(8), OVER, num(4), TIMES, num(2)]),
        Ok(vec![num(8), num(4), OVER, num(2), TIMES])
    );
}

#[test]
fn shutting_yard_groups_powers_to_the_left_too() {
    assert_eq!(
        shutting_yard(vec![num(2), POWER, num(3), POWER, num(2)]),
        Ok(vec![num(2), num(3), POWER, num(2), POWER])
    );
}

#[test]
fn shutting_yard_keeps_operators_behind_an_open_group() {
    assert_eq!(
        shutting_yard(vec![num(1), TIMES, OPEN, num(2), PLUS, num(3), TIMES, num(4), CLOSE, MINUS, num(5)]),
        Ok(vec![num(1), num(2), num(3), num(4), TIMES, PLUS, TIMES, num(5), MINUS])
    );
}

#[test]
fn shutting_yard_moves_literals_of_both_kinds() {
    let half = Token::Float(Decimal::parse("0.5").unwrap());
    assert_eq!(
        shutting_yard(vec![half.clone(), PLUS, num(1)]),
        Ok(vec![half, num(1), PLUS])
    );
}

#[test]
fn shutting_yard_of_nothing_is_nothing() {
    assert_eq!(shutting_yard(vec![]), Ok(vec![]));
    assert_eq!(shutting_yard(vec![OPEN, CLOSE]), Ok(vec![]));
}

#[test]
fn shutting_yard_refuses_a_group_left_open() {
    assert_eq!(shutting_yard(vec![OPEN, num(3), PLUS, num(4)]), MISMATCHED);
    assert_eq!(shutting_yard(vec![OPEN]), MISMATCHED);
    assert_eq!(shutting_yard(vec![OPEN, OPEN, num(1), CLOSE]), MISMATCHED);
    assert_eq!(shutting_yard(vec![num(1), PLUS, OPEN, num(2), TIMES]), MISMATCHED);
}

#[test]
fn shutting_yard_refuses_a_group_closed_but_not_open() {
    assert_eq!(shutting_yard(vec![num(3), PLUS, num(4), CLOSE]), MISMATCHED);
    assert_eq!(shutting_yard(vec![CLOSE]), MISMATCHED);
    assert_eq!(shutting_yard(vec![CLOSE, OPEN]), MISMATCHED);
    assert_eq!(shutting_yard(vec![OPEN, num(1), CLOSE, CLOSE, OPEN]), MISMATCHED);
}

#[test]
fn shutting_yard_leaves_no_parenthesis_behind() {
    let output = shutting_yard(vec![
        OPEN,
        OPEN,
        num(1),
        PLUS,
        num(2),
        CLOSE,
        TIMES,
        OPEN,
        num(3),
        MINUS,
        num(4),
        CLOSE,
        CLOSE,
        POWER,
        num(2),
    ])
    .unwrap();
    assert_eq!(
        output,
        vec![num(1), num(2), PLUS, num(3), num(4), MINUS, TIMES, num(2), POWER]
    );
    assert!(output.iter().all(|t| *t != OPEN && *t != CLOSE));
}

#[test]
fn shutting_yard_takes_sequences_that_are_no_expressions() {
    assert_eq!(shutting_yard(vec![PLUS]), Ok(vec![PLUS]));
    assert_eq!(shutting_yard(vec![num(1), num(2)]), Ok(vec![num(1), num(2)]));
    assert_eq!(shutting_yard(vec![PLUS, TIMES]), Ok(vec![TIMES, PLUS]));
    assert_eq!(shutting_yard(vec![TIMES, PLUS]), Ok(vec![TIMES, PLUS]));
}

#[test]
fn structural_error_message() {
    assert_eq!(StructuralError::MismatchedParenthesis.message(), "Mismatched parenthesis");
}

#[test]
fn shutting_yard_keeps_the_operands_in_order() {
    let input = vec![
        OPEN,
        num(1),
        PLUS,
        num(2),
        CLOSE,
        TIMES,
        num(3),
        POWER,
        OPEN,
        num(4),
        MINUS,
        num(5),
        OVER,
        num(6),
        CLOSE,
    ];
    let output = shutting_yard(input.clone()).unwrap();
    let operands = |tokens: &Vec<Token>| -> Vec<Token> {
        tokens.iter().filter(|t| t.is_literal()).cloned().collect()
    };
    assert_eq!(operands(&output), operands(&input));
    assert_eq!(output.len(), input.len() - 4);
    assert_eq!(
        output,
        vec![
            num(1),
            num(2),
            PLUS,
            num(3),
            num(4),
            num(5),
            num(6),
            OVER,
            MINUS,
            POWER,
            TIMES,
        ]
    );
}
