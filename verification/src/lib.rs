//! A calculator for arithmetic expressions written as text: integers in
//! base 10 and base 16, literals with a decimal point, the operators
//! `+ - * / ^`, parentheses and the minus sign.
//!
//! An expression passes four stages. `tokenize` scans the text into
//! tokens, `fold` resolves the minus signs, `shutting_yard` brings
//! the tokens into postfix order and `evaluate` computes the value of
//! that sequence on a stack. `compute` runs the four in a row.
//!
//! The stages work on tokens and leave the numbers to the caller, who
//! says what value a literal has and how two values combine. A literal
//! with a decimal point is therefore kept as it was written.
//!
//! What the stages compute is stated twice: by a function of each stage
//! that says, token by token, what it gives, and in `expression` by the
//! tree that a sequence of tokens stands for, whose value the stages are
//! proved to compute.

pub mod compute;
pub mod evaluate;
pub mod expression;
pub mod fold;
pub mod shutting_yard;
pub mod token;
pub mod tokenize;
