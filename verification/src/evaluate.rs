use crate::token::{no_parenthesis, Decimal, Operator, Token, TokenView};
use vstd::prelude::*;

verus! {

/// Why a postfix sequence has no value.
#[derive(Debug, Clone, Copy, PartialEq, Eq, Structural)]
pub enum ComputationError {
    /// An operator comes with fewer than two operands before it.
    StackUnderflow,
    /// The sequence leaves no value behind, or more than one.
    MalformedExpression,
}

impl ComputationError {
    /// The words that describe the error.
    pub open spec fn text(self) -> Seq<char> {
        match self {
            ComputationError::StackUnderflow => "Error in computation: stack underflow"@,
            ComputationError::MalformedExpression =>
                "Error in computation: malformed expression"@,
        }
    }

    /// Describes the error in words.
    pub fn message(&self) -> (message: String)
        ensures
            message@ == self.text(),
    {
        match self {
            ComputationError::StackUnderflow => {
                "Error in computation: stack underflow".to_owned()
            },
            ComputationError::MalformedExpression => {
                "Error in computation: malformed expression".to_owned()
            },
        }
    }
}

/// What is wrong with the postfix sequence `tokens` from position `from`
/// on, when the tokens before `from` have left `depth` values behind.
/// An operator takes two values and leaves one; any other token leaves
/// one value more. At the end one value must be left. A postfix sequence
/// holds no parenthesis, so that the other tokens are its literals.
pub open spec fn fault_from(tokens: Seq<TokenView>, from: int, depth: nat) -> Option<
    ComputationError,
>
    decreases tokens.len() - from,
{
    if from < 0 || from >= tokens.len() {
        if depth == 1 {
            None
        } else {
            Some(ComputationError::MalformedExpression)
        }
    } else if tokens[from] is Operator {
        if depth < 2 {
            Some(ComputationError::StackUnderflow)
        } else {
            fault_from(tokens, from + 1, (depth - 1) as nat)
        }
    } else {
        fault_from(tokens, from + 1, depth + 1)
    }
}

/// What is wrong with a postfix sequence, if anything is.
pub open spec fn postfix_fault(tokens: Seq<TokenView>) -> Option<ComputationError> {
    fault_from(tokens, 0, 0)
}

/// Whether the postfix sequence `tokens`, from position `from` on and
/// with `stack` as the values that the tokens before `from` left behind,
/// can come out as `result`. The values are the caller's: `integer` and
/// `decimal` give each literal its value, and `apply` combines by an
/// operator the two values before it, the earlier one as its left
/// operand.
pub open spec fn evaluates_from<
    V,
    I: Fn(i64) -> V,
    D: Fn(&Decimal) -> V,
    F: Fn(Operator, V, V) -> V,
>(
    integer: I,
    decimal: D,
    apply: F,
    tokens: Seq<TokenView>,
    from: int,
    stack: Seq<V>,
    result: V,
) -> bool
    decreases tokens.len() - from,
{
    if from < 0 || from >= tokens.len() {
        stack.len() == 1 && stack[0] == result
    } else {
        match tokens[from] {
            TokenView::Integer(n) => exists|v: V| #[trigger]
                call_ensures(integer, (n,), v) && evaluates_from(
                    integer,
                    decimal,
                    apply,
                    tokens,
                    from + 1,
                    stack.push(v),
                    result,
                ),
            TokenView::Float(written) => exists|d: Decimal, v: V|
                d@ == written && #[trigger] call_ensures(decimal, (&d,), v) && evaluates_from(
                    integer,
                    decimal,
                    apply,
                    tokens,
                    from + 1,
                    stack.push(v),
                    result,
                ),
            TokenView::Operator(op) => stack.len() >= 2 && exists|v: V| #[trigger]
                call_ensures(apply, (op, stack[stack.len() - 2], stack[stack.len() - 1]), v)
                    && evaluates_from(
                    integer,
                    decimal,
                    apply,
                    tokens,
                    from + 1,
                    stack.take(stack.len() - 2).push(v),
                    result,
                ),
            TokenView::LeftParenthesis | TokenView::RightParenthesis => false,
        }
    }
}

/// Whether the postfix sequence `tokens` can come out as `result` under
/// the caller's arithmetic.
pub open spec fn evaluates_to<V, I: Fn(i64) -> V, D: Fn(&Decimal) -> V, F: Fn(Operator, V, V) -> V>(
    integer: I,
    decimal: D,
    apply: F,
    tokens: Seq<TokenView>,
    result: V,
) -> bool {
    evaluates_from(integer, decimal, apply, tokens, 0, Seq::empty(), result)
}

/// Whether the caller's arithmetic gives one value for one argument: a
/// literal has one value, whichever token writes it, and two values
/// combine to one.
pub open spec fn single_valued<
    V,
    I: Fn(i64) -> V,
    D: Fn(&Decimal) -> V,
    F: Fn(Operator, V, V) -> V,
>(
    integer: I,
    decimal: D,
    apply: F,
) -> bool {
    &&& forall|n: i64, first: V, second: V|
        #[trigger] call_ensures(integer, (n,), first) && #[trigger] call_ensures(
            integer,
            (n,),
            second,
        ) ==> first == second
    &&& forall|d: Decimal, e: Decimal, first: V, second: V|
        d@ == e@ && #[trigger] call_ensures(decimal, (&d,), first) && #[trigger] call_ensures(
            decimal,
            (&e,),
            second,
        ) ==> first == second
    &&& forall|op: Operator, a: V, b: V, first: V, second: V|
        #[trigger] call_ensures(apply, (op, a, b), first) && #[trigger] call_ensures(
            apply,
            (op, a, b),
            second,
        ) ==> first == second
}

/// Under an arithmetic that gives one value for one argument, a postfix
/// sequence comes out as one value at most.
pub proof fn lemma_evaluates_from_unique<
    V,
    I: Fn(i64) -> V,
    D: Fn(&Decimal) -> V,
    F: Fn(Operator, V, V) -> V,
>(
    integer: I,
    decimal: D,
    apply: F,
    tokens: Seq<TokenView>,
    from: int,
    stack: Seq<V>,
    first: V,
    second: V,
)
    requires
        single_valued(integer, decimal, apply),
        evaluates_from(integer, decimal, apply, tokens, from, stack, first),
        evaluates_from(integer, decimal, apply, tokens, from, stack, second),
    ensures
        first == second,
    decreases tokens.len() - from,
{
    if 0 <= from < tokens.len() {
        match tokens[from] {
            TokenView::Integer(n) => {
                let v = choose|v: V| #[trigger]
                    call_ensures(integer, (n,), v) && evaluates_from(
                        integer,
                        decimal,
                        apply,
                        tokens,
                        from + 1,
                        stack.push(v),
                        first,
                    );
                let w = choose|w: V| #[trigger]
                    call_ensures(integer, (n,), w) && evaluates_from(
                        integer,
                        decimal,
                        apply,
                        tokens,
                        from + 1,
                        stack.push(w),
                        second,
                    );
                lemma_evaluates_from_unique(
                    integer,
                    decimal,
                    apply,
                    tokens,
                    from + 1,
                    stack.push(v),
                    first,
                    second,
                );
            },
            TokenView::Float(written) => {
                let (d, v) = choose|d: Decimal, v: V|
                    d@ == written && #[trigger] call_ensures(decimal, (&d,), v) && evaluates_from(
                        integer,
                        decimal,
                        apply,
                        tokens,
                        from + 1,
                        stack.push(v),
                        first,
                    );
                let (e, w) = choose|e: Decimal, w: V|
                    e@ == written && #[trigger] call_ensures(decimal, (&e,), w) && evaluates_from(
                        integer,
                        decimal,
                        apply,
                        tokens,
                        from + 1,
                        stack.push(w),
                        second,
                    );
                lemma_evaluates_from_unique(
                    integer,
                    decimal,
                    apply,
                    tokens,
                    from + 1,
                    stack.push(v),
                    first,
                    second,
                );
            },
            TokenView::Operator(op) => {
                let a = stack[stack.len() - 2];
                let b = stack[stack.len() - 1];
                let rest = stack.take(stack.len() - 2);
                let v = choose|v: V| #[trigger]
                    call_ensures(apply, (op, a, b), v) && evaluates_from(
                        integer,
                        decimal,
                        apply,
                        tokens,
                        from + 1,
                        rest.push(v),
                        first,
                    );
                let w = choose|w: V| #[trigger]
                    call_ensures(apply, (op, a, b), w) && evaluates_from(
                        integer,
                        decimal,
                        apply,
                        tokens,
                        from + 1,
                        rest.push(w),
                        second,
                    );
                lemma_evaluates_from_unique(
                    integer,
                    decimal,
                    apply,
                    tokens,
                    from + 1,
                    rest.push(v),
                    first,
                    second,
                );
            },
            _ => {},
        }
    }
}

impl Operator {
    /// Takes the two topmost values from the stack and combines them: the
    /// lower of the two is the left operand. With fewer than two values
    /// there is nothing to combine, and the stack stays as it is.
    pub fn evaluate<V, F: Fn(Operator, V, V) -> V>(
        &self,
        stack: &mut Vec<V>,
        apply: &F,
    ) -> (value: Option<V>)
        requires
            old(stack).len() >= 2 ==> call_requires(
                *apply,
                (*self, old(stack)[old(stack).len() - 2], old(stack)[old(stack).len() - 1]),
            ),
        ensures
            old(stack).len() < 2 ==> value is None && final(stack)@ == old(stack)@,
            old(stack).len() >= 2 ==> value is Some && final(stack)@ == old(stack)@.take(
                old(stack).len() - 2,
            ) && call_ensures(
                *apply,
                (*self, old(stack)[old(stack).len() - 2], old(stack)[old(stack).len() - 1]),
                value.unwrap(),
            ),
    {
        if stack.len() < 2 {
            return None;
        }
        let b = stack.pop().unwrap();
        let a = stack.pop().unwrap();
        Some(apply(*self, a, b))
    }
}

/// Computes the value of a postfix sequence on a stack of values. The
/// numbers themselves are the caller's: `integer` and `decimal` give each
/// literal its value, and `apply` combines two values by an operator.
pub fn evaluate<V, I: Fn(i64) -> V, D: Fn(&Decimal) -> V, F: Fn(Operator, V, V) -> V>(
    tokens: Vec<Token>,
    integer: I,
    decimal: D,
    apply: F,
) -> (outcome: Result<V, ComputationError>)
    requires
        no_parenthesis(tokens.deep_view()),
        forall|n: i64| call_requires(integer, (n,)),
        forall|d: Decimal| call_requires(decimal, (&d,)),
        forall|op: Operator, a: V, b: V| call_requires(apply, (op, a, b)),
    ensures
        match outcome {
            Ok(value) => postfix_fault(tokens.deep_view()) is None && evaluates_to(
                integer,
                decimal,
                apply,
                tokens.deep_view(),
                value,
            ),
            Err(e) => postfix_fault(tokens.deep_view()) == Some(e),
        },
{
    let n = tokens.len();
    let mut stack: Vec<V> = Vec::new();
    let mut i: usize = 0;
    while i < n
        invariant
            n == tokens.len(),
            i <= n,
            no_parenthesis(tokens.deep_view()),
            forall|n: i64| call_requires(integer, (n,)),
            forall|d: Decimal| call_requires(decimal, (&d,)),
            forall|op: Operator, a: V, b: V| call_requires(apply, (op, a, b)),
            fault_from(tokens.deep_view(), i as int, stack.len() as nat) == postfix_fault(
                tokens.deep_view(),
            ),
            forall|r: V|
                evaluates_from(integer, decimal, apply, tokens.deep_view(), i as int, stack@, r)
                    ==> evaluates_to(integer, decimal, apply, tokens.deep_view(), r),
        decreases n - i,
    {
        let ghost before = stack@;
        assert(tokens.deep_view()[i as int] == tokens[i as int]@);
        assert(!tokens.deep_view()[i as int].is_parenthesis());
        match &tokens[i] {
            Token::Integer(n) => {
                let v = integer(*n);
                stack.push(v);
            },
            Token::Float(d) => {
                let v = decimal(d);
                stack.push(v);
            },
            Token::Operator(op) => {
                match op.evaluate(&mut stack, &apply) {
                    Some(v) => {
                        stack.push(v);
                    },
                    None => {
                        return Err(ComputationError::StackUnderflow);
                    },
                }
            },
            Token::LeftParenthesis | Token::RightParenthesis => {
                assert(false);
            },
        }
        assert forall|r: V|
            evaluates_from(
                integer,
                decimal,
                apply,
                tokens.deep_view(),
                i + 1,
                stack@,
                r,
            ) implies evaluates_from(
            integer,
            decimal,
            apply,
            tokens.deep_view(),
            i as int,
            before,
            r,
        ) by {
            let v = stack@.last();
            let token = tokens.deep_view()[i as int];
            match token {
                TokenView::Operator(_) => {
                    assert(stack@ =~= before.take(before.len() - 2).push(v));
                },
                TokenView::Float(_) => {
                    assert(stack@ =~= before.push(v));
                    assert(call_ensures(decimal, (&tokens[i as int]->Float_0,), v));
                },
                _ => {
                    assert(stack@ =~= before.push(v));
                    assert(call_ensures(integer, (token->Integer_0,), v));
                },
            }
        }
        i += 1;
    }
    if stack.len() == 1 {
        Ok(stack.pop().unwrap())
    } else {
        Err(ComputationError::MalformedExpression)
    }
}

} // verus!
