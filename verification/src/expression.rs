use crate::evaluate::{evaluates_from, evaluates_to, fault_from, postfix_fault};
use crate::fold::{expects_operand, fold_from, folded, negation, FoldError};
use crate::shutting_yard::{
    close_group, drain, reorder_from, reordered, yield_to, Pending, StructuralError,
};
use crate::token::{Decimal, Operator, TokenView};
use vstd::prelude::*;

verus! {

/// An arithmetic expression as a tree: what a sequence of tokens in
/// infix order means.
pub enum Expression {
    /// A number.
    Literal(TokenView),
    /// An operator between its left and its right operand.
    Binary(Operator, Box<Expression>, Box<Expression>),
    /// An expression in parentheses.
    Group(Box<Expression>),
}

impl Expression {
    /// The expression written in infix order: each operator between its
    /// operands, each group in its parentheses.
    pub open spec fn infix(self) -> Seq<TokenView>
        decreases self,
    {
        match self {
            Expression::Literal(token) => seq![token],
            Expression::Binary(op, left, right) => left.infix() + seq![TokenView::Operator(op)]
                + right.infix(),
            Expression::Group(inner) => seq![TokenView::LeftParenthesis] + inner.infix()
                + seq![TokenView::RightParenthesis],
        }
    }

    /// The expression written in postfix order: each operator behind its
    /// operands, and no parentheses.
    pub open spec fn postfix(self) -> Seq<TokenView>
        decreases self,
    {
        match self {
            Expression::Literal(token) => seq![token],
            Expression::Binary(op, left, right) => left.postfix() + right.postfix()
                + seq![TokenView::Operator(op)],
            Expression::Group(inner) => inner.postfix(),
        }
    }

    /// Whether the tree is the one that its infix form is read as: a
    /// literal is a number, an operand that is itself an operation binds
    /// at least as tightly as the operator where it stands on the left,
    /// and more tightly where it stands on the right. So operators of
    /// higher rank come first, and those of equal rank from the left.
    pub open spec fn conventional(self) -> bool
        decreases self,
    {
        match self {
            Expression::Literal(token) => token.is_literal(),
            Expression::Binary(op, left, right) => {
                &&& left.conventional()
                &&& right.conventional()
                &&& (*left matches Expression::Binary(inner, _, _) ==> inner.rank() >= op.rank())
                &&& (*right matches Expression::Binary(inner, _, _) ==> inner.rank() > op.rank())
            },
            Expression::Group(inner) => inner.conventional(),
        }
    }

    /// The operators of the expression that wait on the side stack when
    /// its infix form has been read: those whose right operand may go on.
    spec fn waiting(self) -> Seq<Pending>
        decreases self,
    {
        match self {
            Expression::Binary(op, _, right) => seq![Pending::Operator(op)] + right.waiting(),
            _ => Seq::empty(),
        }
    }

    /// The part of the postfix form that is in the output when the infix
    /// form has been read.
    spec fn settled(self) -> Seq<TokenView>
        decreases self,
    {
        match self {
            Expression::Binary(_, left, right) => left.postfix() + right.settled(),
            _ => self.postfix(),
        }
    }
}

/// The operators of a side stack as they come to the output, the top
/// first.
spec fn unwound(stack: Seq<Pending>) -> Seq<TokenView>
    decreases stack.len(),
{
    if stack.len() == 0 {
        Seq::empty()
    } else {
        match stack.last() {
            Pending::Operator(op) => seq![TokenView::Operator(op)] + unwound(stack.drop_last()),
            Pending::LeftParenthesis => unwound(stack.drop_last()),
        }
    }
}

/// Whether every entry of the side stack is an operator that binds at
/// least as tightly as the rank `rank`.
spec fn all_bind(stack: Seq<Pending>, rank: int) -> bool {
    forall|i: int|
        0 <= i < stack.len() ==> ((#[trigger] stack[i]) matches Pending::Operator(op) && op.rank()
            >= rank)
}

/// Whether the top of the side stack holds back nothing that binds as
/// tightly as the rank `rank`: the stack is empty, or its top is the mark
/// of a group or an operator of lower rank.
spec fn holds_below(stack: Seq<Pending>, rank: int) -> bool {
    stack.len() > 0 ==> match stack.last() {
        Pending::Operator(top) => top.rank() < rank,
        Pending::LeftParenthesis => true,
    }
}

/// An operator that comes in moves to the output every operator above
/// the one that holds it back, the top first.
proof fn lemma_yield_to_unwinds(
    stack: Seq<Pending>,
    waiting: Seq<Pending>,
    output: Seq<TokenView>,
    op: Operator,
)
    requires
        all_bind(waiting, op.rank()),
        holds_below(stack, op.rank()),
    ensures
        yield_to(stack + waiting, output, op) == (stack, output + unwound(waiting)),
    decreases waiting.len(),
{
    if waiting.len() == 0 {
        assert(stack + waiting =~= stack);
        assert(output + unwound(waiting) =~= output);
    } else {
        let top = waiting.last()->Operator_0;
        assert(waiting[waiting.len() - 1] == waiting.last());
        assert((stack + waiting).drop_last() =~= stack + waiting.drop_last());
        lemma_yield_to_unwinds(
            stack,
            waiting.drop_last(),
            output.push(TokenView::Operator(top)),
            op,
        );
        assert(output.push(TokenView::Operator(top)) + unwound(waiting.drop_last()) =~= output
            + unwound(waiting));
    }
}

/// A parenthesis that closes a group moves to the output every operator
/// above the mark of the group, the top first, and takes the mark away.
proof fn lemma_close_group_unwinds(
    stack: Seq<Pending>,
    waiting: Seq<Pending>,
    output: Seq<TokenView>,
)
    requires
        all_bind(waiting, 0),
    ensures
        close_group(stack.push(Pending::LeftParenthesis) + waiting, output) == Some(
            (stack, output + unwound(waiting)),
        ),
    decreases waiting.len(),
{
    let marked = stack.push(Pending::LeftParenthesis);
    if waiting.len() == 0 {
        assert(marked + waiting =~= marked);
        assert(marked.drop_last() =~= stack);
        assert(output + unwound(waiting) =~= output);
    } else {
        let top = waiting.last()->Operator_0;
        assert(waiting[waiting.len() - 1] == waiting.last());
        assert((marked + waiting).drop_last() =~= marked + waiting.drop_last());
        lemma_close_group_unwinds(
            stack,
            waiting.drop_last(),
            output.push(TokenView::Operator(top)),
        );
        assert(output.push(TokenView::Operator(top)) + unwound(waiting.drop_last()) =~= output
            + unwound(waiting));
    }
}

/// At the end of the input the operators that are left move to the
/// output, the top first.
proof fn lemma_drain_unwinds(waiting: Seq<Pending>, output: Seq<TokenView>)
    requires
        all_bind(waiting, 0),
    ensures
        drain(waiting, output) == Ok::<Seq<TokenView>, StructuralError>(
            output + unwound(waiting),
        ),
    decreases waiting.len(),
{
    if waiting.len() == 0 {
        assert(output + unwound(waiting) =~= output);
    } else {
        let top = waiting.last()->Operator_0;
        assert(waiting[waiting.len() - 1] == waiting.last());
        lemma_drain_unwinds(waiting.drop_last(), output.push(TokenView::Operator(top)));
        assert(output.push(TokenView::Operator(top)) + unwound(waiting.drop_last()) =~= output
            + unwound(waiting));
    }
}

/// An operator at the bottom of a side stack comes to the output last.
proof fn lemma_unwound_bottom(op: Operator, above: Seq<Pending>)
    ensures
        unwound(seq![Pending::Operator(op)] + above) == unwound(above).push(
            TokenView::Operator(op),
        ),
    decreases above.len(),
{
    let whole = seq![Pending::Operator(op)] + above;
    if above.len() == 0 {
        assert(whole.drop_last() =~= Seq::<Pending>::empty());
        assert(unwound(whole.drop_last()) =~= Seq::<TokenView>::empty());
        assert(unwound(whole) =~= seq![TokenView::Operator(op)]);
        assert(unwound(above).push(TokenView::Operator(op)) =~= seq![TokenView::Operator(op)]);
    } else {
        assert(whole.drop_last() =~= seq![Pending::Operator(op)] + above.drop_last());
        assert(whole.last() == above.last());
        lemma_unwound_bottom(op, above.drop_last());
        match above.last() {
            Pending::Operator(top) => {
                assert(unwound(whole) =~= unwound(above).push(TokenView::Operator(op)));
            },
            Pending::LeftParenthesis => {},
        }
    }
}

/// The operators of a conventional expression that wait on the side bind
/// at least as tightly as its outermost operator, and with what is in
/// the output they make up its postfix form.
proof fn lemma_waiting(e: Expression)
    requires
        e.conventional(),
    ensures
        e matches Expression::Binary(op, _, _) ==> all_bind(e.waiting(), op.rank()),
        all_bind(e.waiting(), 0),
        e.settled() + unwound(e.waiting()) == e.postfix(),
    decreases e,
{
    match e {
        Expression::Binary(op, left, right) => {
            lemma_waiting(*right);
            lemma_unwound_bottom(op, right.waiting());
            assert(e.settled() + unwound(e.waiting()) =~= left.postfix() + (right.settled()
                + unwound(right.waiting())) + seq![TokenView::Operator(op)]);
            assert forall|i: int| 0 <= i < e.waiting().len() implies ((#[trigger] e.waiting()[i])
                matches Pending::Operator(p) && p.rank() >= op.rank()) by {
                if i > 0 {
                    assert(e.waiting()[i] == right.waiting()[i - 1]);
                }
            }
        },
        _ => {
            assert(e.settled() + unwound(e.waiting()) =~= e.postfix());
        },
    }
}

/// Whether `tokens` hold the sequence `part` from position `from` on.
spec fn holds_at(tokens: Seq<TokenView>, from: int, part: Seq<TokenView>) -> bool {
    &&& 0 <= from
    &&& from + part.len() <= tokens.len()
    &&& tokens.subrange(from, from + part.len()) == part
}

/// Where `tokens` hold two sequences in a row, they hold each of them.
proof fn lemma_holds_at_parts(
    tokens: Seq<TokenView>,
    from: int,
    first: Seq<TokenView>,
    second: Seq<TokenView>,
)
    requires
        holds_at(tokens, from, first + second),
    ensures
        holds_at(tokens, from, first),
        holds_at(tokens, from + first.len(), second),
{
    let whole = tokens.subrange(from, from + (first + second).len());
    assert(tokens.subrange(from, from + first.len()) =~= whole.subrange(0, first.len() as int));
    assert(whole.subrange(0, first.len() as int) =~= first);
    assert(tokens.subrange(from + first.len(), from + first.len() + second.len())
        =~= whole.subrange(first.len() as int, whole.len() as int));
    assert(whole.subrange(first.len() as int, whole.len() as int) =~= second);
}

/// Reading the infix form of a conventional expression brings the part
/// of its postfix form that is settled to the output, and leaves on the
/// side stack the operators of the expression that wait. What was on the
/// side stack before stays below them: its top holds back nothing that
/// binds as tightly as the outermost operator of the expression.
proof fn lemma_reorder_expression(
    tokens: Seq<TokenView>,
    from: int,
    stack: Seq<Pending>,
    output: Seq<TokenView>,
    e: Expression,
)
    requires
        e.conventional(),
        holds_at(tokens, from, e.infix()),
        e matches Expression::Binary(op, _, _) ==> holds_below(stack, op.rank()),
    ensures
        reorder_from(tokens, from, stack, output) == reorder_from(
            tokens,
            from + e.infix().len(),
            stack + e.waiting(),
            output + e.settled(),
        ),
    decreases e,
{
    let part = tokens.subrange(from, from + e.infix().len());
    match e {
        Expression::Literal(token) => {
            assert(part[0] == token);
            assert(stack + e.waiting() =~= stack);
            assert(output + e.settled() =~= output.push(token));
        },
        Expression::Group(inner) => {
            let marked = stack.push(Pending::LeftParenthesis);
            let end = from + 1 + inner.infix().len();
            lemma_holds_at_parts(
                tokens,
                from,
                seq![TokenView::LeftParenthesis] + inner.infix(),
                seq![TokenView::RightParenthesis],
            );
            lemma_holds_at_parts(tokens, from, seq![TokenView::LeftParenthesis], inner.infix());
            assert(tokens.subrange(from, from + 1)[0] == tokens[from]);
            assert(tokens.subrange(end, end + 1)[0] == tokens[end]);
            lemma_reorder_expression(tokens, from + 1, marked, output, *inner);
            lemma_waiting(*inner);
            lemma_close_group_unwinds(stack, inner.waiting(), output + inner.settled());
            assert(output + inner.settled() + unwound(inner.waiting()) =~= output + (
            inner.settled() + unwound(inner.waiting())));
            assert(stack + e.waiting() =~= stack);
        },
        Expression::Binary(op, left, right) => {
            let middle = from + left.infix().len();
            lemma_holds_at_parts(
                tokens,
                from,
                left.infix() + seq![TokenView::Operator(op)],
                right.infix(),
            );
            lemma_holds_at_parts(tokens, from, left.infix(), seq![TokenView::Operator(op)]);
            assert(tokens.subrange(middle, middle + 1)[0] == tokens[middle]);
            lemma_reorder_expression(tokens, from, stack, output, *left);
            lemma_waiting(*left);
            assert(all_bind(left.waiting(), op.rank()));
            lemma_yield_to_unwinds(stack, left.waiting(), output + left.settled(), op);
            assert(output + left.settled() + unwound(left.waiting()) =~= output + (left.settled()
                + unwound(left.waiting())));
            let pushed = stack.push(Pending::Operator(op));
            lemma_reorder_expression(
                tokens,
                middle + 1,
                pushed,
                output + left.postfix(),
                *right,
            );
            assert(pushed + right.waiting() =~= stack + e.waiting());
            assert(output + left.postfix() + right.settled() =~= output + e.settled());
        },
    }
}

/// The reordering is right: it brings the infix form of a conventional
/// expression into the postfix form of that expression. So an operator
/// of higher rank is applied first, operators of equal rank are applied
/// from the left, and a group is computed on its own.
pub proof fn lemma_reordered_expression(e: Expression)
    requires
        e.conventional(),
    ensures
        reordered(e.infix()) == Ok::<Seq<TokenView>, StructuralError>(e.postfix()),
{
    let tokens = e.infix();
    assert(tokens.subrange(0, tokens.len() as int) =~= tokens);
    lemma_reorder_expression(tokens, 0, Seq::empty(), Seq::empty(), e);
    lemma_waiting(e);
    lemma_drain_unwinds(e.waiting(), e.settled());
    assert(Seq::<Pending>::empty() + e.waiting() =~= e.waiting());
    assert(Seq::<TokenView>::empty() + e.settled() =~= e.settled());
}

/// Whether the expression can have the value `value` under the caller's
/// arithmetic: `integer` and `decimal` give each literal its value, and
/// `apply` combines the values of the two operands of an operator, the
/// left one first.
pub open spec fn values_to<V, I: Fn(i64) -> V, D: Fn(&Decimal) -> V, F: Fn(Operator, V, V) -> V>(
    integer: I,
    decimal: D,
    apply: F,
    e: Expression,
    value: V,
) -> bool
    decreases e,
{
    match e {
        Expression::Literal(TokenView::Integer(n)) => call_ensures(integer, (n,), value),
        Expression::Literal(TokenView::Float(written)) => exists|d: Decimal|
            d@ == written && #[trigger] call_ensures(decimal, (&d,), value),
        Expression::Literal(_) => false,
        Expression::Binary(op, left, right) => exists|a: V, b: V|
            values_to(integer, decimal, apply, *left, a) && values_to(
                integer,
                decimal,
                apply,
                *right,
                b,
            ) && #[trigger] call_ensures(apply, (op, a, b), value),
        Expression::Group(inner) => values_to(integer, decimal, apply, *inner, value),
    }
}

/// The postfix form of an expression leaves one value more behind, and
/// nothing in it is wrong.
proof fn lemma_fault_expression(tokens: Seq<TokenView>, from: int, depth: nat, e: Expression)
    requires
        e.conventional(),
        holds_at(tokens, from, e.postfix()),
    ensures
        fault_from(tokens, from, depth) == fault_from(
            tokens,
            from + e.postfix().len(),
            depth + 1,
        ),
    decreases e,
{
    match e {
        Expression::Literal(token) => {
            assert(tokens.subrange(from, from + 1)[0] == tokens[from]);
        },
        Expression::Group(inner) => {
            lemma_fault_expression(tokens, from, depth, *inner);
        },
        Expression::Binary(op, left, right) => {
            let end = from + left.postfix().len() + right.postfix().len();
            lemma_holds_at_parts(
                tokens,
                from,
                left.postfix() + right.postfix(),
                seq![TokenView::Operator(op)],
            );
            lemma_holds_at_parts(tokens, from, left.postfix(), right.postfix());
            assert(tokens.subrange(end, end + 1)[0] == tokens[end]);
            lemma_fault_expression(tokens, from, depth, *left);
            lemma_fault_expression(tokens, from + left.postfix().len(), depth + 1, *right);
        },
    }
}

/// Evaluating the postfix form of an expression leaves one value more
/// on the stack: a value of the expression.
proof fn lemma_evaluates_expression<
    V,
    I: Fn(i64) -> V,
    D: Fn(&Decimal) -> V,
    F: Fn(Operator, V, V) -> V,
>(
    integer: I,
    decimal: D,
    apply: F,
    tokens: Seq<TokenView>,
    from: int,
    stack: Seq<V>,
    e: Expression,
    result: V,
)
    requires
        e.conventional(),
        holds_at(tokens, from, e.postfix()),
    ensures
        evaluates_from(integer, decimal, apply, tokens, from, stack, result) <==> exists|v: V|
            #[trigger] values_to(integer, decimal, apply, e, v) && evaluates_from(
                integer,
                decimal,
                apply,
                tokens,
                from + e.postfix().len(),
                stack.push(v),
                result,
            ),
    decreases e,
{
    let end = from + e.postfix().len();
    match e {
        Expression::Literal(token) => {
            assert(tokens.subrange(from, from + 1)[0] == tokens[from]);
            match token {
                TokenView::Integer(n) => {
                    if evaluates_from(integer, decimal, apply, tokens, from, stack, result) {
                        let v = choose|v: V| #[trigger]
                            call_ensures(integer, (n,), v) && evaluates_from(
                                integer,
                                decimal,
                                apply,
                                tokens,
                                from + 1,
                                stack.push(v),
                                result,
                            );
                        assert(values_to(integer, decimal, apply, e, v));
                    }
                    if exists|v: V| #[trigger]
                        values_to(integer, decimal, apply, e, v) && evaluates_from(
                            integer,
                            decimal,
                            apply,
                            tokens,
                            end,
                            stack.push(v),
                            result,
                        ) {
                        let v = choose|v: V| #[trigger]
                            values_to(integer, decimal, apply, e, v) && evaluates_from(
                                integer,
                                decimal,
                                apply,
                                tokens,
                                end,
                                stack.push(v),
                                result,
                            );
                        assert(call_ensures(integer, (tokens[from]->Integer_0,), v));
                    }
                },
                TokenView::Float(written) => {
                    if evaluates_from(integer, decimal, apply, tokens, from, stack, result) {
                        let (d, v) = choose|d: Decimal, v: V|
                            d@ == written && #[trigger] call_ensures(decimal, (&d,), v)
                                && evaluates_from(
                                integer,
                                decimal,
                                apply,
                                tokens,
                                from + 1,
                                stack.push(v),
                                result,
                            );
                        assert(values_to(integer, decimal, apply, e, v));
                    }
                    if exists|v: V| #[trigger]
                        values_to(integer, decimal, apply, e, v) && evaluates_from(
                            integer,
                            decimal,
                            apply,
                            tokens,
                            end,
                            stack.push(v),
                            result,
                        ) {
                        let v = choose|v: V| #[trigger]
                            values_to(integer, decimal, apply, e, v) && evaluates_from(
                                integer,
                                decimal,
                                apply,
                                tokens,
                                end,
                                stack.push(v),
                                result,
                            );
                        let d = choose|d: Decimal|
                            d@ == written && #[trigger] call_ensures(decimal, (&d,), v);
                        assert(call_ensures(decimal, (&d,), v));
                    }
                },
                _ => {},
            }
        },
        Expression::Group(inner) => {
            lemma_evaluates_expression(
                integer,
                decimal,
                apply,
                tokens,
                from,
                stack,
                *inner,
                result,
            );
            assert forall|v: V|
                values_to(integer, decimal, apply, e, v) == values_to(
                    integer,
                    decimal,
                    apply,
                    *inner,
                    v,
                ) by {}
        },
        Expression::Binary(op, left, right) => {
            let middle = from + left.postfix().len();
            let last = middle + right.postfix().len();
            lemma_holds_at_parts(
                tokens,
                from,
                left.postfix() + right.postfix(),
                seq![TokenView::Operator(op)],
            );
            lemma_holds_at_parts(tokens, from, left.postfix(), right.postfix());
            assert(tokens.subrange(last, last + 1)[0] == tokens[last]);
            lemma_evaluates_expression(integer, decimal, apply, tokens, from, stack, *left, result);
            if evaluates_from(integer, decimal, apply, tokens, from, stack, result) {
                let a = choose|a: V| #[trigger]
                    values_to(integer, decimal, apply, *left, a) && evaluates_from(
                        integer,
                        decimal,
                        apply,
                        tokens,
                        middle,
                        stack.push(a),
                        result,
                    );
                lemma_evaluates_expression(
                    integer,
                    decimal,
                    apply,
                    tokens,
                    middle,
                    stack.push(a),
                    *right,
                    result,
                );
                let b = choose|b: V| #[trigger]
                    values_to(integer, decimal, apply, *right, b) && evaluates_from(
                        integer,
                        decimal,
                        apply,
                        tokens,
                        last,
                        stack.push(a).push(b),
                        result,
                    );
                let full = stack.push(a).push(b);
                let v = choose|v: V| #[trigger]
                    call_ensures(apply, (op, full[full.len() - 2], full[full.len() - 1]), v)
                        && evaluates_from(
                        integer,
                        decimal,
                        apply,
                        tokens,
                        last + 1,
                        full.take(full.len() - 2).push(v),
                        result,
                    );
                assert(full.take(full.len() - 2) =~= stack);
                assert(call_ensures(apply, (op, a, b), v));
                assert(values_to(integer, decimal, apply, e, v));
            }
            if exists|v: V| #[trigger]
                values_to(integer, decimal, apply, e, v) && evaluates_from(
                    integer,
                    decimal,
                    apply,
                    tokens,
                    end,
                    stack.push(v),
                    result,
                ) {
                let v = choose|v: V| #[trigger]
                    values_to(integer, decimal, apply, e, v) && evaluates_from(
                        integer,
                        decimal,
                        apply,
                        tokens,
                        end,
                        stack.push(v),
                        result,
                    );
                let (a, b) = choose|a: V, b: V|
                    values_to(integer, decimal, apply, *left, a) && values_to(
                        integer,
                        decimal,
                        apply,
                        *right,
                        b,
                    ) && #[trigger] call_ensures(apply, (op, a, b), v);
                let full = stack.push(a).push(b);
                assert(full.take(full.len() - 2) =~= stack);
                assert(call_ensures(
                    apply,
                    (tokens[last]->Operator_0, full[full.len() - 2], full[full.len() - 1]),
                    v,
                ));
                assert(evaluates_from(integer, decimal, apply, tokens, last, full, result));
                lemma_evaluates_expression(
                    integer,
                    decimal,
                    apply,
                    tokens,
                    middle,
                    stack.push(a),
                    *right,
                    result,
                );
                assert(evaluates_from(
                    integer,
                    decimal,
                    apply,
                    tokens,
                    middle,
                    stack.push(a),
                    result,
                ));
            }
        },
    }
}

/// Nothing is wrong with the postfix form of a conventional expression:
/// no operator lacks an operand, and one value is left.
pub proof fn lemma_postfix_has_no_fault(e: Expression)
    requires
        e.conventional(),
    ensures
        postfix_fault(e.postfix()) is None,
{
    let tokens = e.postfix();
    assert(tokens.subrange(0, tokens.len() as int) =~= tokens);
    lemma_fault_expression(tokens, 0, 0, e);
}

/// The evaluation is right: the postfix form of a conventional
/// expression comes out as the values of the expression and as no other.
pub proof fn lemma_evaluates_to_expression<
    V,
    I: Fn(i64) -> V,
    D: Fn(&Decimal) -> V,
    F: Fn(Operator, V, V) -> V,
>(integer: I, decimal: D, apply: F, e: Expression, result: V)
    requires
        e.conventional(),
    ensures
        evaluates_to(integer, decimal, apply, e.postfix(), result) <==> values_to(
            integer,
            decimal,
            apply,
            e,
            result,
        ),
{
    let tokens = e.postfix();
    assert(tokens.subrange(0, tokens.len() as int) =~= tokens);
    lemma_evaluates_expression(integer, decimal, apply, tokens, 0, Seq::empty(), e, result);
    if values_to(integer, decimal, apply, e, result) {
        assert(Seq::<V>::empty().push(result)[0] == result);
    }
}

impl Expression {
    /// The expression as a scan gives it: like the infix form, but with
    /// each literal that carries a sign written as a minus sign and the
    /// literal without it.
    pub open spec fn scanned(self) -> Seq<TokenView>
        decreases self,
    {
        match self {
            Expression::Literal(token) => match token {
                TokenView::Integer(n) if n < 0 => seq![
                    TokenView::Operator(Operator::Minus),
                    TokenView::Integer((-n) as i64),
                ],
                TokenView::Float(d) if d.negative => seq![
                    TokenView::Operator(Operator::Minus),
                    TokenView::Float(d.negated()),
                ],
                _ => seq![token],
            },
            Expression::Binary(op, left, right) => left.scanned() + seq![TokenView::Operator(op)]
                + right.scanned(),
            Expression::Group(inner) => seq![TokenView::LeftParenthesis] + inner.scanned()
                + seq![TokenView::RightParenthesis],
        }
    }

    /// Whether the infix form ends with a group.
    pub open spec fn ends_with_group(self) -> bool
        decreases self,
    {
        match self {
            Expression::Literal(_) => false,
            Expression::Binary(_, _, right) => right.ends_with_group(),
            Expression::Group(_) => true,
        }
    }

    /// Whether the signs of the expression can be told from its
    /// subtractions by the token before them: the left operand of a
    /// subtraction ends with a literal, not with a group. No literal is
    /// the least integer, whose magnitude cannot be written.
    pub open spec fn resolvable(self) -> bool
        decreases self,
    {
        match self {
            Expression::Literal(token) => token != TokenView::Integer(i64::MIN),
            Expression::Binary(op, left, right) => {
                &&& left.resolvable()
                &&& right.resolvable()
                &&& (op == Operator::Minus ==> !left.ends_with_group())
            },
            Expression::Group(inner) => inner.resolvable(),
        }
    }
}

/// The infix form of an expression ends with a literal, or else with the
/// parenthesis that closes a group.
proof fn lemma_infix_end(e: Expression)
    requires
        e.conventional(),
    ensures
        e.infix().len() > 0,
        e.infix().last().is_literal() <==> !e.ends_with_group(),
    decreases e,
{
    match e {
        Expression::Binary(_, _, right) => {
            lemma_infix_end(*right);
        },
        _ => {},
    }
}

/// Folding an expression as a scan gives it, in a place where an operand
/// is due, adds the infix form of the expression to what was given
/// before.
proof fn lemma_fold_expression(
    tokens: Seq<TokenView>,
    from: int,
    emitted: Seq<TokenView>,
    e: Expression,
)
    requires
        e.conventional(),
        e.resolvable(),
        holds_at(tokens, from, e.scanned()),
        expects_operand(emitted),
    ensures
        fold_from(tokens, from, emitted) == fold_from(
            tokens,
            from + e.scanned().len(),
            emitted + e.infix(),
        ),
    decreases e,
{
    let part = tokens.subrange(from, from + e.scanned().len());
    match e {
        Expression::Literal(token) => {
            assert(part[0] == tokens[from]);
            assert(emitted + e.infix() =~= emitted.push(token));
            if e.scanned().len() == 2 {
                assert(part[1] == tokens[from + 1]);
                assert(negation(tokens[from + 1]) == Some(token));
            }
        },
        Expression::Group(inner) => {
            let end = from + 1 + inner.scanned().len();
            let opened = emitted.push(TokenView::LeftParenthesis);
            lemma_holds_at_parts(
                tokens,
                from,
                seq![TokenView::LeftParenthesis] + inner.scanned(),
                seq![TokenView::RightParenthesis],
            );
            lemma_holds_at_parts(tokens, from, seq![TokenView::LeftParenthesis], inner.scanned());
            assert(tokens.subrange(from, from + 1)[0] == tokens[from]);
            assert(tokens.subrange(end, end + 1)[0] == tokens[end]);
            lemma_fold_expression(tokens, from + 1, opened, *inner);
            assert((opened + inner.infix()).push(TokenView::RightParenthesis) =~= emitted
                + e.infix());
        },
        Expression::Binary(op, left, right) => {
            let middle = from + left.scanned().len();
            lemma_holds_at_parts(
                tokens,
                from,
                left.scanned() + seq![TokenView::Operator(op)],
                right.scanned(),
            );
            lemma_holds_at_parts(tokens, from, left.scanned(), seq![TokenView::Operator(op)]);
            assert(tokens.subrange(middle, middle + 1)[0] == tokens[middle]);
            lemma_fold_expression(tokens, from, emitted, *left);
            lemma_infix_end(*left);
            let before = emitted + left.infix();
            assert(before.last() == left.infix().last());
            let after = before.push(TokenView::Operator(op));
            lemma_fold_expression(tokens, middle + 1, after, *right);
            assert(after + right.infix() =~= emitted + e.infix());
        },
    }
}

/// The folding is right: it brings a conventional expression, as a scan
/// gives it, into its infix form, where the signs of the expression can
/// be told from its subtractions.
pub proof fn lemma_folded_expression(e: Expression)
    requires
        e.conventional(),
        e.resolvable(),
    ensures
        folded(e.scanned()) == Ok::<Seq<TokenView>, FoldError>(e.infix()),
{
    let tokens = e.scanned();
    assert(tokens.subrange(0, tokens.len() as int) =~= tokens);
    lemma_fold_expression(tokens, 0, Seq::empty(), e);
    assert(Seq::<TokenView>::empty() + e.infix() =~= e.infix());
}

} // verus!
