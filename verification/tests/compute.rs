use calculator::compute::compute;
use calculator::evaluate::{evaluate, ComputationError};
use calculator::token::{Decimal, Operator, Token};

fn integer(n: i64) -> f64 {
    n as f64
}

fn decimal(d: &Decimal) -> f64 {
    let magnitude: f64 = d.digits().parse().unwrap();
    if d.is_negative() {
        -magnitude
    } else {
        magnitude
    }
}

fn apply(op: Operator, a: f64, b: f64) -> f64 {
    match op {
        Operator::Plus => a + b,
        Operator::Minus => a - b,
        Operator::Mul => a * b,
        Operator::Div => a / b,
        Operator::Exp => a.powf(b),
    }
}

fn value(expression: &str) -> Result<f64, String> {
    compute(expression.to_string(), integer, decimal, apply)
}

fn failure(message: &str) -> Result<f64, String> {
    Err(message.to_string())
}

fn postfix(tokens: Vec<Token>) -> Result<f64, ComputationError> {
    evaluate(tokens, integer, decimal, apply)
}

fn written(text: &str) -> Token {
    Token::Float(Decimal::parse(text).unwrap())
}

const PLUS: Token = Token::Operator(Operator::Plus);
const MINUS: Token = Token::Operator(Operator::Minus);
const TIMES: Token = Token::Operator(Operator::Mul);
const OVER: Token = Token::Operator(Operator::Div);
const POWER: Token = Token::Operator(Operator::Exp);

const MISMATCHED: &str = "Mismatched parenthesis";
const UNDERFLOW: &str = "Error in computation: stack underflow";
const MALFORMED: &str = "Error in computation: malformed expression";
const DANGLING: &str = "Error folding the expression: dangling minus";

#[test]
fn multiplication_binds_tighter_than_addition() {
    assert_eq!(value("3 + 4 * 2"), Ok(11.0));
}

#[test]
fn parentheses_group() {
    assert_eq!(value("(3 + 4) * 2"), Ok(14.0));
}

#[test]
fn exponentiation_binds_tighter_than_multiplication() {
    assert_eq!(value("2 * 3 ^ 2"), Ok(18.0));
}

#[test]
fn equal_precedence_groups_to_the_left() {
    assert_eq!(value("8 / 4 / 2"), Ok(1.0));
    assert_eq!(value("8 - 4 + 2"), Ok(6.0));
    assert_eq!(value("8 - 4 - 2"), Ok(2.0));
    assert_eq!(value("2 ^ 3 ^ 2"), Ok(64.0));
}

#[test]
fn leading_minus_negates_the_literal() {
    assert_eq!(value("-5 + 3"), Ok(-2.0));
    assert_eq!(value("-2.5 * 2"), Ok(-5.0));
}

#[test]
fn hexadecimal_literal() {
    assert_eq!(value("0x1A + 1"), Ok(27.0));
    assert_eq!(value("0XfF"), Ok(255.0));
}

#[test]
fn mismatched_parenthesis_is_rejected() {
    assert_eq!(value("(3 + 4"), failure(MISMATCHED));
    assert_eq!(value("3 + 4)"), failure(MISMATCHED));
}

#[test]
fn operator_without_operands_is_rejected() {
    assert_eq!(postfix(vec![PLUS]), Err(ComputationError::StackUnderflow));
}

#[test]
fn computing_twice_gives_the_same() {
    for text in ["3 + 4 * 2", "(1.5 - 0x10) ^ 2 / 7", "-5 + 3", "(3 + 4", "1 +", "2 x 3", "-"] {
        assert_eq!(value(text), value(text));
    }
}

#[test]
fn decimal_literals_have_their_nearest_value() {
    assert_eq!(value("0.1"), Ok(0.1));
    assert_eq!(value("1.5 + 2.25"), Ok(3.75));
    assert_eq!(value("5. + .5"), Ok(5.5));
    assert_eq!(value("0.30000000000000004"), Ok(0.1 + 0.2));
    assert_eq!(value("3.141592653589793238462643383279"), Ok(std::f64::consts::PI));
    assert_eq!(value("-0.1"), Ok(-0.1));
}

#[test]
fn integers_widen_before_they_combine() {
    assert_eq!(value("10 / 4"), Ok(2.5));
    assert_eq!(value("9223372036854775807 + 1"), Ok(9223372036854775808.0));
    assert_eq!(value("7"), Ok(7.0));
}

#[test]
fn minus_between_literals_subtracts() {
    assert_eq!(value("5 - 3"), Ok(2.0));
    assert_eq!(value("5 - -3"), Ok(8.0));
    assert_eq!(value("2 * -3 - 4"), Ok(-10.0));
    assert_eq!(value("(-5)"), Ok(-5.0));
}

#[test]
fn division_follows_the_machine_arithmetic() {
    assert_eq!(value("1 / 0"), Ok(f64::INFINITY));
    assert_eq!(value("-1 / 0"), Ok(f64::NEG_INFINITY));
    assert!(value("0 / 0").unwrap().is_nan());
}

#[test]
fn white_space_separates_and_is_dropped() {
    assert_eq!(value("\t3+\n4 *\r\n2 "), Ok(11.0));
    assert_eq!(value("3+4*2"), Ok(11.0));
}

#[test]
fn sign_before_a_group_is_dropped() {
    assert_eq!(value("-(3 + 4)"), Ok(7.0));
    assert_eq!(value("2 * -(3 + 4)"), Ok(14.0));
    assert_eq!(value("- -5"), failure(UNDERFLOW));
    assert_eq!(value("5 - - -3"), failure(UNDERFLOW));
}

#[test]
fn minus_behind_a_group_is_a_sign() {
    assert_eq!(value("(1 + 2) - 3"), failure(MALFORMED));
    assert_eq!(value("(1 + 2) + -3"), Ok(0.0));
}

#[test]
fn each_stage_reports_its_failure() {
    assert_eq!(value("1 + 2x"), failure("Invalid numeral: 2x"));
    assert_eq!(value("1 + 1.2.3"), failure("Invalid numeral: 1.2.3"));
    assert_eq!(value("3 -"), failure(UNDERFLOW));
    assert_eq!(value("3 + -"), failure(DANGLING));
    assert_eq!(value("-"), failure(DANGLING));
    assert_eq!(value("- +"), failure(UNDERFLOW));
    assert_eq!(value(")"), failure(MISMATCHED));
    assert_eq!(value("+"), failure(UNDERFLOW));
    assert_eq!(value("1 +"), failure(UNDERFLOW));
    assert_eq!(value("1 2"), failure(MALFORMED));
    assert_eq!(value(""), failure(MALFORMED));
    assert_eq!(value("()"), failure(MALFORMED));
}

#[test]
fn the_first_stage_that_fails_reports() {
    assert_eq!(value("(1 + x"), failure("Invalid numeral: x"));
    assert_eq!(value("(1 + -"), failure(DANGLING));
    assert_eq!(value("(1 +"), failure(MISMATCHED));
}

#[test]
fn evaluate_takes_the_earlier_value_as_the_left_operand() {
    assert_eq!(postfix(vec![Token::Integer(8), Token::Integer(4), MINUS]), Ok(4.0));
    assert_eq!(postfix(vec![Token::Integer(8), Token::Integer(4), OVER]), Ok(2.0));
    assert_eq!(postfix(vec![Token::Integer(2), Token::Integer(3), POWER]), Ok(8.0));
    assert_eq!(postfix(vec![Token::Integer(2), Token::Integer(3), PLUS]), Ok(5.0));
    assert_eq!(postfix(vec![Token::Integer(2), Token::Integer(3), TIMES]), Ok(6.0));
}

#[test]
fn evaluate_runs_a_postfix_sequence() {
    assert_eq!(
        postfix(vec![Token::Integer(3), Token::Integer(4), Token::Integer(2), TIMES, PLUS]),
        Ok(11.0)
    );
    assert_eq!(
        postfix(vec![written("1.5"), Token::Integer(2), TIMES, Token::Integer(1), MINUS]),
        Ok(2.0)
    );
    assert_eq!(postfix(vec![Token::Integer(-7)]), Ok(-7.0));
    assert_eq!(postfix(vec![Token::Float(Decimal::parse("2.5").unwrap().negated())]), Ok(-2.5));
}

#[test]
fn evaluate_fails_where_an_operator_lacks_operands() {
    assert_eq!(postfix(vec![Token::Integer(1), PLUS]), Err(ComputationError::StackUnderflow));
    assert_eq!(
        postfix(vec![Token::Integer(1), Token::Integer(2), PLUS, TIMES, Token::Integer(3)]),
        Err(ComputationError::StackUnderflow)
    );
    assert_eq!(postfix(vec![MINUS, Token::Integer(1), Token::Integer(2)]), Err(ComputationError::StackUnderflow));
}

#[test]
fn evaluate_fails_where_not_one_value_is_left() {
    assert_eq!(postfix(vec![]), Err(ComputationError::MalformedExpression));
    assert_eq!(
        postfix(vec![Token::Integer(1), Token::Integer(2)]),
        Err(ComputationError::MalformedExpression)
    );
    assert_eq!(
        postfix(vec![Token::Integer(1), Token::Integer(2), PLUS, Token::Integer(3)]),
        Err(ComputationError::MalformedExpression)
    );
}

#[test]
fn evaluate_works_on_the_values_of_the_caller() {
    let outcome = evaluate(
        vec![Token::Integer(1), written("2.5"), MINUS, Token::Integer(3), POWER],
        |n| n.to_string(),
        |d: &Decimal| d.digits().to_string(),
        |op, a, b| format!("({} {:?} {})", a, op, b),
    );
    assert_eq!(outcome, Ok("((1 Minus 2.5) Exp 3)".to_string()));
}

#[test]
fn operator_evaluate_combines_the_two_topmost_values() {
    let mut stack = vec![1.0, 8.0, 2.0];
    assert_eq!(Operator::Div.evaluate(&mut stack, &apply), Some(4.0));
    assert_eq!(stack, vec![1.0]);
}

#[test]
fn operator_evaluate_leaves_a_short_stack_alone() {
    let mut stack = vec![8.0];
    assert_eq!(Operator::Div.evaluate(&mut stack, &apply), None);
    assert_eq!(stack, vec![8.0]);
    let mut empty: Vec<f64> = vec![];
    assert_eq!(Operator::Plus.evaluate(&mut empty, &apply), None);
    assert!(empty.is_empty());
}

#[test]
fn computation_error_messages_differ() {
    assert_eq!(ComputationError::StackUnderflow.message(), UNDERFLOW);
    assert_eq!(ComputationError::MalformedExpression.message(), MALFORMED);
}

#[test]
fn long_expressions_are_computed() {
    let terms = 20_000;
    let text = vec!["1"; terms].join(" + ");
    assert_eq!(value(&text), Ok(terms as f64));
    let nested = format!("{}1{}", "(".repeat(terms), ")".repeat(terms));
    assert_eq!(value(&nested), Ok(1.0));
    let products = vec!["0.5"; 100].join(" * ");
    assert_eq!(value(&products), Ok(f64::from_bits(0x39b0_0000_0000_0000)));
}
