use crate::evaluate::{
    evaluate, evaluates_to, lemma_evaluates_from_unique, postfix_fault, single_valued,
    ComputationError,
};
use crate::expression::{
    lemma_evaluates_to_expression, lemma_folded_expression, lemma_postfix_has_no_fault,
    lemma_reordered_expression, values_to, Expression,
};
use crate::fold::{fold, folded, lemma_folded_unsigned, FoldError};
use crate::shutting_yard::{reordered, shutting_yard, StructuralError};
use crate::token::{Decimal, Operator, TokenView};
use crate::tokenize::{lemma_lex_unsigned, lex, tokenize, LexErrorView};
use vstd::prelude::*;

verus! {

/// Why an expression has no value: the error of the first stage that
/// refuses it.
pub enum Failure {
    /// The text is no sequence of tokens.
    Lexical(LexErrorView),
    /// A minus sign cannot be resolved.
    Folding(FoldError),
    /// The parentheses do not match.
    Structure(StructuralError),
    /// The postfix sequence has no value.
    Computation(ComputationError),
}

impl Failure {
    /// The words that describe the failure.
    pub open spec fn text(self) -> Seq<char> {
        match self {
            Failure::Lexical(e) => e.text(),
            Failure::Folding(e) => e.text(),
            Failure::Structure(e) => e.text(),
            Failure::Computation(e) => e.text(),
        }
    }
}

/// The postfix program that an expression stands for: its tokens, with
/// the minus signs resolved, in postfix order, where that sequence has a
/// value. Else the error of the first stage that refuses it.
pub open spec fn program(text: Seq<char>) -> Result<Seq<TokenView>, Failure> {
    match lex(text) {
        Err(e) => Err(Failure::Lexical(e)),
        Ok(tokens) => match folded(tokens) {
            Err(e) => Err(Failure::Folding(e)),
            Ok(infix) => match reordered(infix) {
                Err(e) => Err(Failure::Structure(e)),
                Ok(postfix) => match postfix_fault(postfix) {
                    Some(e) => Err(Failure::Computation(e)),
                    None => Ok(postfix),
                },
            },
        },
    }
}

/// Whether `outcome` is what computing the expression `text` can give
/// under the caller's arithmetic: a value that the program of the
/// expression can come out as, or the words of its failure.
pub open spec fn computes<V, I: Fn(i64) -> V, D: Fn(&Decimal) -> V, F: Fn(Operator, V, V) -> V>(
    integer: I,
    decimal: D,
    apply: F,
    text: Seq<char>,
    outcome: Result<V, String>,
) -> bool {
    match outcome {
        Ok(value) => program(text) is Ok && evaluates_to(
            integer,
            decimal,
            apply,
            program(text)->Ok_0,
            value,
        ),
        Err(message) => program(text) is Err && message@ == program(text)->Err_0.text(),
    }
}

/// Computes the value of an arithmetic expression: scans it, resolves
/// its minus signs, brings it into postfix order and evaluates that, and
/// stops at the first stage that fails. The numbers themselves are the
/// caller's: `integer` and `decimal` give each literal its value, and
/// `apply` combines two values by an operator.
pub fn compute<V, I: Fn(i64) -> V, D: Fn(&Decimal) -> V, F: Fn(Operator, V, V) -> V>(
    input: String,
    integer: I,
    decimal: D,
    apply: F,
) -> (outcome: Result<V, String>)
    requires
        forall|n: i64| call_requires(integer, (n,)),
        forall|d: Decimal| call_requires(decimal, (&d,)),
        forall|op: Operator, a: V, b: V| call_requires(apply, (op, a, b)),
    ensures
        computes(integer, decimal, apply, input@, outcome),
{
    let tokens = match tokenize(input) {
        Ok(tokens) => tokens,
        Err(e) => {
            return Err(e.message());
        },
    };
    let tokens = match fold(tokens) {
        Ok(tokens) => tokens,
        Err(e) => {
            return Err(e.message());
        },
    };
    let tokens = match shutting_yard(tokens) {
        Ok(tokens) => tokens,
        Err(e) => {
            return Err(e.message());
        },
    };
    match evaluate(tokens, integer, decimal, apply) {
        Ok(value) => Ok(value),
        Err(e) => Err(e.message()),
    }
}

/// In an expression every literal can be negated, since the scan gives
/// none with a sign. So the only failure of the folding is a sign with
/// nothing behind it.
pub proof fn lemma_program_folding(text: Seq<char>)
    ensures
        program(text) matches Err(Failure::Folding(e)) ==> e == FoldError::DanglingMinus,
{
    if let Ok(tokens) = lex(text) {
        lemma_lex_unsigned(text);
        lemma_folded_unsigned(tokens);
    }
}

/// Computing is repeatable: no state is kept between two computations
/// of one expression. Both succeed or both fail, and where they fail it
/// is with the same words. Where they succeed, the values are the same
/// under an arithmetic that gives one value for one argument; the
/// numbers are the caller's, and nothing else could make them differ.
pub proof fn lemma_compute_repeatable<
    V,
    I: Fn(i64) -> V,
    D: Fn(&Decimal) -> V,
    F: Fn(Operator, V, V) -> V,
>(
    integer: I,
    decimal: D,
    apply: F,
    text: Seq<char>,
    first: Result<V, String>,
    second: Result<V, String>,
)
    requires
        computes(integer, decimal, apply, text, first),
        computes(integer, decimal, apply, text, second),
    ensures
        match (first, second) {
            (Ok(a), Ok(b)) => single_valued(integer, decimal, apply) ==> a == b,
            (Err(m), Err(n)) => m@ == n@,
            _ => false,
        },
{
    if let Ok(a) = first {
        if let Ok(b) = second {
            if single_valued(integer, decimal, apply) {
                lemma_evaluates_from_unique(
                    integer,
                    decimal,
                    apply,
                    program(text)->Ok_0,
                    0,
                    Seq::empty(),
                    a,
                    b,
                );
            }
        }
    }
}

/// Computing is right: where the tokens of a text are a conventional
/// expression as a scan gives it, and the signs of the expression can be
/// told from its subtractions, computing succeeds, and gives a value of
/// that expression. So an operator of higher rank is applied first,
/// operators of equal rank from the left, and a group on its own.
pub proof fn lemma_compute_expression<
    V,
    I: Fn(i64) -> V,
    D: Fn(&Decimal) -> V,
    F: Fn(Operator, V, V) -> V,
>(integer: I, decimal: D, apply: F, text: Seq<char>, e: Expression, outcome: Result<V, String>)
    requires
        lex(text) == Ok::<Seq<TokenView>, LexErrorView>(e.scanned()),
        e.conventional(),
        e.resolvable(),
        computes(integer, decimal, apply, text, outcome),
    ensures
        outcome is Ok,
        values_to(integer, decimal, apply, e, outcome->Ok_0),
{
    lemma_folded_expression(e);
    lemma_reordered_expression(e);
    lemma_postfix_has_no_fault(e);
    if let Ok(value) = outcome {
        lemma_evaluates_to_expression(integer, decimal, apply, e, value);
    }
}

} // verus!
