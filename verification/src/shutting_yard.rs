use crate::token::{no_parenthesis, Operator, Token, TokenView};
use vstd::prelude::*;

verus! {

/// Why a sequence of tokens is no expression.
#[derive(Debug, Clone, Copy, PartialEq, Eq, Structural)]
pub enum StructuralError {
    /// A parenthesis has no partner.
    MismatchedParenthesis,
}

impl StructuralError {
    /// The words that describe the error.
    pub open spec fn text(self) -> Seq<char> {
        "Mismatched parenthesis"@
    }

    /// Describes the error in words.
    pub fn message(&self) -> (message: String)
        ensures
            message@ == self.text(),
    {
        "Mismatched parenthesis".to_owned()
    }
}

/// What waits on the side for its operands to be complete: an operator,
/// or the mark of a group that is still open.
#[derive(Debug, Clone, Copy, PartialEq, Eq, Structural)]
pub enum Pending {
    /// An operator whose right operand is not complete yet.
    Operator(Operator),
    /// The mark of an open group.
    LeftParenthesis,
}

/// The side stack and the output after the operators on top of `stack`
/// that bind at least as tightly as `op` have moved to the output. An
/// operator that binds equally tightly moves too, which groups every
/// operator to the left.
pub open spec fn yield_to(stack: Seq<Pending>, output: Seq<TokenView>, op: Operator) -> (
    Seq<Pending>,
    Seq<TokenView>,
)
    decreases stack.len(),
{
    if stack.len() == 0 {
        (stack, output)
    } else {
        match stack.last() {
            Pending::Operator(top) if top.rank() >= op.rank() => yield_to(
                stack.drop_last(),
                output.push(TokenView::Operator(top)),
                op,
            ),
            _ => (stack, output),
        }
    }
}

/// The side stack and the output after a group has been closed: the
/// operators above the innermost mark have moved to the output and the
/// mark is gone. `None` where no group is open.
pub open spec fn close_group(stack: Seq<Pending>, output: Seq<TokenView>) -> Option<
    (Seq<Pending>, Seq<TokenView>),
>
    decreases stack.len(),
{
    if stack.len() == 0 {
        None
    } else {
        match stack.last() {
            Pending::LeftParenthesis => Some((stack.drop_last(), output)),
            Pending::Operator(top) => close_group(
                stack.drop_last(),
                output.push(TokenView::Operator(top)),
            ),
        }
    }
}

/// The output after the input has ended: what is left on the side stack
/// has moved to it, the top first. An error where a group is still open.
pub open spec fn drain(stack: Seq<Pending>, output: Seq<TokenView>) -> Result<
    Seq<TokenView>,
    StructuralError,
>
    decreases stack.len(),
{
    if stack.len() == 0 {
        Ok(output)
    } else {
        match stack.last() {
            Pending::LeftParenthesis => Err(StructuralError::MismatchedParenthesis),
            Pending::Operator(top) => drain(
                stack.drop_last(),
                output.push(TokenView::Operator(top)),
            ),
        }
    }
}

/// The postfix form of `tokens` from position `from` on, when the tokens
/// before `from` have left `stack` on the side and `output` behind.
pub open spec fn reorder_from(
    tokens: Seq<TokenView>,
    from: int,
    stack: Seq<Pending>,
    output: Seq<TokenView>,
) -> Result<Seq<TokenView>, StructuralError>
    decreases tokens.len() - from,
{
    if from < 0 || from >= tokens.len() {
        drain(stack, output)
    } else {
        match tokens[from] {
            TokenView::Integer(_) | TokenView::Float(_) => reorder_from(
                tokens,
                from + 1,
                stack,
                output.push(tokens[from]),
            ),
            TokenView::Operator(op) => {
                let (below, moved) = yield_to(stack, output, op);
                reorder_from(tokens, from + 1, below.push(Pending::Operator(op)), moved)
            },
            TokenView::LeftParenthesis => reorder_from(
                tokens,
                from + 1,
                stack.push(Pending::LeftParenthesis),
                output,
            ),
            TokenView::RightParenthesis => match close_group(stack, output) {
                Some((below, moved)) => reorder_from(tokens, from + 1, below, moved),
                None => Err(StructuralError::MismatchedParenthesis),
            },
        }
    }
}

/// The postfix form of an infix sequence of tokens.
pub open spec fn reordered(tokens: Seq<TokenView>) -> Result<Seq<TokenView>, StructuralError> {
    reorder_from(tokens, 0, Seq::empty(), Seq::empty())
}

/// The number of groups that are open on the side stack.
spec fn open_groups(stack: Seq<Pending>) -> nat
    decreases stack.len(),
{
    if stack.len() == 0 {
        0
    } else if stack.last() is LeftParenthesis {
        open_groups(stack.drop_last()) + 1
    } else {
        open_groups(stack.drop_last())
    }
}

/// Whether the parentheses of `tokens` from position `from` on match
/// each other and close the `depth` groups that are open before `from`.
pub open spec fn closes_from(tokens: Seq<TokenView>, from: int, depth: nat) -> bool
    decreases tokens.len() - from,
{
    if from < 0 || from >= tokens.len() {
        depth == 0
    } else {
        match tokens[from] {
            TokenView::LeftParenthesis => closes_from(tokens, from + 1, depth + 1),
            TokenView::RightParenthesis => depth > 0 && closes_from(
                tokens,
                from + 1,
                (depth - 1) as nat,
            ),
            _ => closes_from(tokens, from + 1, depth),
        }
    }
}

/// Whether every parenthesis of `tokens` has its partner: none closes a
/// group that is not open, and none is left open at the end.
pub open spec fn balanced(tokens: Seq<TokenView>) -> bool {
    closes_from(tokens, 0, 0)
}

/// An operator that comes in opens and closes no group, and brings no
/// parenthesis to the output.
proof fn lemma_yield_to(stack: Seq<Pending>, output: Seq<TokenView>, op: Operator)
    ensures
        open_groups(yield_to(stack, output, op).0) == open_groups(stack),
        no_parenthesis(output) ==> no_parenthesis(yield_to(stack, output, op).1),
    decreases stack.len(),
{
    if stack.len() > 0 {
        if let Pending::Operator(top) = stack.last() {
            if top.rank() >= op.rank() {
                lemma_yield_to(stack.drop_last(), output.push(TokenView::Operator(top)), op);
            }
        }
    }
}

/// A group can be closed where one is open: it is then one group fewer,
/// and no parenthesis has come to the output.
proof fn lemma_close_group(stack: Seq<Pending>, output: Seq<TokenView>)
    ensures
        close_group(stack, output) is Some <==> open_groups(stack) > 0,
        close_group(stack, output) matches Some((below, moved)) ==> open_groups(below) + 1
            == open_groups(stack) && (no_parenthesis(output) ==> no_parenthesis(moved)),
    decreases stack.len(),
{
    if stack.len() > 0 {
        if let Pending::Operator(top) = stack.last() {
            lemma_close_group(stack.drop_last(), output.push(TokenView::Operator(top)));
        }
    }
}

/// The side stack can be emptied at the end where no group is open, and
/// brings no parenthesis to the output.
proof fn lemma_drain(stack: Seq<Pending>, output: Seq<TokenView>)
    ensures
        drain(stack, output) is Ok <==> open_groups(stack) == 0,
        drain(stack, output) matches Ok(result) ==> (no_parenthesis(output) ==> no_parenthesis(
            result,
        )),
    decreases stack.len(),
{
    if stack.len() > 0 {
        if let Pending::Operator(top) = stack.last() {
            lemma_drain(stack.drop_last(), output.push(TokenView::Operator(top)));
        }
    }
}

/// From any state on, the reordering succeeds where the remaining
/// parentheses close the open groups and match each other, and then
/// brings no parenthesis to the output.
proof fn lemma_reorder_from(
    tokens: Seq<TokenView>,
    from: int,
    stack: Seq<Pending>,
    output: Seq<TokenView>,
)
    requires
        0 <= from,
    ensures
        reorder_from(tokens, from, stack, output) is Ok <==> closes_from(
            tokens,
            from,
            open_groups(stack),
        ),
        reorder_from(tokens, from, stack, output) matches Ok(result) ==> (no_parenthesis(output)
            ==> no_parenthesis(result)),
    decreases tokens.len() - from,
{
    if from >= tokens.len() {
        lemma_drain(stack, output);
    } else {
        match tokens[from] {
            TokenView::Integer(_) | TokenView::Float(_) => {
                lemma_reorder_from(tokens, from + 1, stack, output.push(tokens[from]));
            },
            TokenView::Operator(op) => {
                lemma_yield_to(stack, output, op);
                let (below, moved) = yield_to(stack, output, op);
                let pushed = below.push(Pending::Operator(op));
                assert(pushed.drop_last() =~= below);
                lemma_reorder_from(tokens, from + 1, pushed, moved);
            },
            TokenView::LeftParenthesis => {
                let pushed = stack.push(Pending::LeftParenthesis);
                assert(pushed.drop_last() =~= stack);
                lemma_reorder_from(tokens, from + 1, pushed, output);
            },
            TokenView::RightParenthesis => {
                lemma_close_group(stack, output);
                if let Some((below, moved)) = close_group(stack, output) {
                    lemma_reorder_from(tokens, from + 1, below, moved);
                }
            },
        }
    }
}

/// The reordering succeeds on exactly the sequences whose parentheses
/// are balanced.
pub proof fn lemma_reordered_iff_balanced(tokens: Seq<TokenView>)
    ensures
        reordered(tokens) is Ok <==> balanced(tokens),
{
    lemma_reorder_from(tokens, 0, Seq::empty(), Seq::empty());
}

/// The postfix form holds no parenthesis.
pub proof fn lemma_reordered_no_parenthesis(tokens: Seq<TokenView>)
    ensures
        reordered(tokens) matches Ok(result) ==> no_parenthesis(result),
{
    lemma_reorder_from(tokens, 0, Seq::empty(), Seq::empty());
}

/// The literals among `tokens`, in their order.
pub open spec fn operands(tokens: Seq<TokenView>) -> Seq<TokenView> {
    tokens.filter(|t: TokenView| t.is_literal())
}

/// The tokens of `tokens` that are no parentheses, in their order.
pub open spec fn without_parentheses(tokens: Seq<TokenView>) -> Seq<TokenView> {
    tokens.filter(|t: TokenView| !t.is_parenthesis())
}

/// One token more at the end is one operand more where it is a literal,
/// and one token more that is no parenthesis where it is none.
proof fn lemma_push_token(tokens: Seq<TokenView>, token: TokenView)
    ensures
        operands(tokens.push(token)) == if token.is_literal() {
            operands(tokens).push(token)
        } else {
            operands(tokens)
        },
        without_parentheses(tokens.push(token)) == if token.is_parenthesis() {
            without_parentheses(tokens)
        } else {
            without_parentheses(tokens).push(token)
        },
{
    reveal(Seq::filter);
    assert(tokens.push(token).drop_last() =~= tokens);
}

/// An operator that comes in moves operators only, each of them once.
proof fn lemma_yield_to_moves(stack: Seq<Pending>, output: Seq<TokenView>, op: Operator)
    ensures
        operands(yield_to(stack, output, op).1) == operands(output),
        yield_to(stack, output, op).0.len() + yield_to(stack, output, op).1.len() == stack.len()
            + output.len(),
    decreases stack.len(),
{
    if stack.len() > 0 {
        if let Pending::Operator(top) = stack.last() {
            if top.rank() >= op.rank() {
                lemma_push_token(output, TokenView::Operator(top));
                lemma_yield_to_moves(stack.drop_last(), output.push(TokenView::Operator(top)), op);
            }
        }
    }
}

/// Closing a group moves operators only, each of them once, and takes
/// the mark of the group away.
proof fn lemma_close_group_moves(stack: Seq<Pending>, output: Seq<TokenView>)
    ensures
        close_group(stack, output) matches Some((below, moved)) ==> operands(moved) == operands(
            output,
        ) && below.len() + moved.len() + 1 == stack.len() + output.len(),
    decreases stack.len(),
{
    if stack.len() > 0 {
        if let Pending::Operator(top) = stack.last() {
            lemma_push_token(output, TokenView::Operator(top));
            lemma_close_group_moves(stack.drop_last(), output.push(TokenView::Operator(top)));
        }
    }
}

/// Emptying the side stack moves operators only, each of them once.
proof fn lemma_drain_moves(stack: Seq<Pending>, output: Seq<TokenView>)
    ensures
        drain(stack, output) matches Ok(result) ==> operands(result) == operands(output)
            && result.len() == stack.len() + output.len(),
    decreases stack.len(),
{
    if stack.len() > 0 {
        if let Pending::Operator(top) = stack.last() {
            lemma_push_token(output, TokenView::Operator(top));
            lemma_drain_moves(stack.drop_last(), output.push(TokenView::Operator(top)));
        }
    }
}

/// From any state on, the reordering adds the remaining literals to the
/// output in their order, and brings each token that is no parenthesis
/// to the output once.
proof fn lemma_reorder_from_moves(
    tokens: Seq<TokenView>,
    from: int,
    stack: Seq<Pending>,
    output: Seq<TokenView>,
)
    requires
        0 <= from <= tokens.len(),
    ensures
        reorder_from(tokens, from, stack, output) matches Ok(result) ==> operands(result)
            == operands(output) + operands(tokens.skip(from)) && result.len() + open_groups(stack)
            == output.len() + stack.len() + without_parentheses(tokens.skip(from)).len(),
    decreases tokens.len() - from,
{
    let rest = tokens.skip(from);
    if from >= tokens.len() {
        lemma_drain_moves(stack, output);
        lemma_drain(stack, output);
        assert(operands(output) + operands(rest) =~= operands(output));
    } else {
        let token = tokens[from];
        let after = tokens.skip(from + 1);
        assert(rest =~= seq![token] + after);
        after.lemma_filter_prepend(token, |t: TokenView| t.is_literal());
        after.lemma_filter_prepend(token, |t: TokenView| !t.is_parenthesis());
        match token {
            TokenView::Integer(_) | TokenView::Float(_) => {
                lemma_push_token(output, token);
                lemma_reorder_from_moves(tokens, from + 1, stack, output.push(token));
                assert(operands(output).push(token) + operands(after) =~= operands(output) + (
                seq![token] + operands(after)));
            },
            TokenView::Operator(op) => {
                lemma_yield_to_moves(stack, output, op);
                lemma_yield_to(stack, output, op);
                let (below, moved) = yield_to(stack, output, op);
                let pushed = below.push(Pending::Operator(op));
                assert(pushed.drop_last() =~= below);
                lemma_reorder_from_moves(tokens, from + 1, pushed, moved);
            },
            TokenView::LeftParenthesis => {
                let pushed = stack.push(Pending::LeftParenthesis);
                assert(pushed.drop_last() =~= stack);
                lemma_reorder_from_moves(tokens, from + 1, pushed, output);
            },
            TokenView::RightParenthesis => {
                lemma_close_group_moves(stack, output);
                lemma_close_group(stack, output);
                if let Some((below, moved)) = close_group(stack, output) {
                    lemma_reorder_from_moves(tokens, from + 1, below, moved);
                }
            },
        }
    }
}

/// The postfix form is a rearrangement of the tokens that are no
/// parentheses, one that keeps the operands in their order.
pub proof fn lemma_reordered_keeps_operands(tokens: Seq<TokenView>)
    ensures
        reordered(tokens) matches Ok(result) ==> operands(result) == operands(tokens)
            && result.len() == without_parentheses(tokens).len(),
{
    lemma_reorder_from_moves(tokens, 0, Seq::empty(), Seq::empty());
    assert(tokens.skip(0) =~= tokens);
    assert(operands(Seq::empty()) + operands(tokens) =~= operands(tokens));
}

/// Brings an infix sequence of tokens into postfix order, by precedence:
/// each operator comes behind its two operands, and the parentheses are
/// gone.
pub fn shutting_yard(tokens: Vec<Token>) -> (outcome: Result<Vec<Token>, StructuralError>)
    ensures
        match outcome {
            Ok(output) => reordered(tokens.deep_view()) == Ok::<Seq<TokenView>, StructuralError>(
                output.deep_view(),
            ),
            Err(e) => reordered(tokens.deep_view()) == Err::<Seq<TokenView>, StructuralError>(e),
        },
        outcome is Ok <==> balanced(tokens.deep_view()),
        outcome matches Ok(output) ==> no_parenthesis(output.deep_view()) && operands(
            output.deep_view(),
        ) == operands(tokens.deep_view()) && output.len() == without_parentheses(
            tokens.deep_view(),
        ).len(),
{
    let n = tokens.len();
    let mut output: Vec<Token> = Vec::new();
    let mut stack: Vec<Pending> = Vec::new();
    proof {
        assert(output.deep_view() =~= Seq::<TokenView>::empty());
    }
    let mut i: usize = 0;
    while i < n
        invariant
            n == tokens.len(),
            i <= n,
            reorder_from(tokens.deep_view(), i as int, stack@, output.deep_view()) == reordered(
                tokens.deep_view(),
            ),
        decreases n - i,
    {
        let ghost emitted = output.deep_view();
        match &tokens[i] {
            Token::Integer(_) | Token::Float(_) => {
                output.push(tokens[i].clone());
                proof {
                    assert(output.deep_view() =~= emitted.push(tokens.deep_view()[i as int]));
                }
            },
            Token::Operator(o1) => {
                let ghost waiting = stack@;
                while stack.len() > 0
                    invariant
                        yield_to(stack@, output.deep_view(), *o1) == yield_to(
                            waiting,
                            emitted,
                            *o1,
                        ),
                    ensures
                        (stack@, output.deep_view()) == yield_to(waiting, emitted, *o1),
                    decreases stack.len(),
                {
                    let ghost moved = output.deep_view();
                    match stack[stack.len() - 1] {
                        Pending::Operator(o2) => {
                            if o2.to_prio() >= o1.to_prio() {
                                output.push(Token::Operator(o2));
                                stack.pop();
                                proof {
                                    assert(output.deep_view() =~= moved.push(
                                        TokenView::Operator(o2),
                                    ));
                                }
                            } else {
                                break ;
                            }
                        },
                        Pending::LeftParenthesis => {
                            break ;
                        },
                    }
                }
                stack.push(Pending::Operator(*o1));
            },
            Token::LeftParenthesis => {
                stack.push(Pending::LeftParenthesis);
            },
            Token::RightParenthesis => {
                let ghost waiting = stack@;
                let mut found = false;
                while stack.len() > 0
                    invariant_except_break
                        !found,
                        close_group(stack@, output.deep_view()) == close_group(waiting, emitted),
                    ensures
                        found ==> close_group(waiting, emitted) == Some(
                            (stack@, output.deep_view()),
                        ),
                        !found ==> close_group(waiting, emitted) is None,
                    decreases stack.len(),
                {
                    let ghost moved = output.deep_view();
                    match stack.pop() {
                        Some(Pending::Operator(op)) => {
                            output.push(Token::Operator(op));
                            proof {
                                assert(output.deep_view() =~= moved.push(TokenView::Operator(op)));
                            }
                        },
                        _ => {
                            found = true;
                            break ;
                        },
                    }
                }
                if !found {
                    proof {
                        lemma_reordered_iff_balanced(tokens.deep_view());
                    }
                    return Err(StructuralError::MismatchedParenthesis);
                }
            },
        }
        i += 1;
    }
    while stack.len() > 0
        invariant
            drain(stack@, output.deep_view()) == reordered(tokens.deep_view()),
        decreases stack.len(),
    {
        let ghost moved = output.deep_view();
        match stack.pop() {
            Some(Pending::Operator(op)) => {
                output.push(Token::Operator(op));
                proof {
                    assert(output.deep_view() =~= moved.push(TokenView::Operator(op)));
                }
            },
            _ => {
                proof {
                    lemma_reordered_iff_balanced(tokens.deep_view());
                }
                return Err(StructuralError::MismatchedParenthesis);
            },
        }
    }
    proof {
        lemma_reordered_iff_balanced(tokens.deep_view());
        lemma_reordered_no_parenthesis(tokens.deep_view());
        lemma_reordered_keeps_operands(tokens.deep_view());
    }
    Ok(output)
}

} // verus!
