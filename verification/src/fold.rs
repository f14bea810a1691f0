use crate::token::{unsigned, Operator, Token, TokenView};
use vstd::prelude::*;

verus! {

/// Why a minus sign could not be resolved.
#[derive(Debug, Clone, Copy, PartialEq, Eq, Structural)]
pub enum FoldError {
    /// A unary minus is the last token: there is nothing for it to negate.
    DanglingMinus,
    /// A unary minus stands in front of the least integer, whose negation
    /// does not fit in 64 bits.
    UnsupportedUnaryTarget,
}

impl FoldError {
    /// The words that describe the error.
    pub open spec fn text(self) -> Seq<char> {
        match self {
            FoldError::DanglingMinus => "Error folding the expression: dangling minus"@,
            FoldError::UnsupportedUnaryTarget =>
                "Error folding the expression: unsupported operand of minus"@,
        }
    }

    /// Describes the error in words.
    pub fn message(&self) -> (message: String)
        ensures
            message@ == self.text(),
    {
        match self {
            FoldError::DanglingMinus => "Error folding the expression: dangling minus".to_owned(),
            FoldError::UnsupportedUnaryTarget => {
                "Error folding the expression: unsupported operand of minus".to_owned()
            },
        }
    }
}

/// The literal of the opposite sign, where `token` is a literal that has
/// one.
pub open spec fn negation(token: TokenView) -> Option<TokenView> {
    match token {
        TokenView::Integer(n) => if n > i64::MIN {
            Some(TokenView::Integer((-n) as i64))
        } else {
            None
        },
        TokenView::Float(d) => Some(TokenView::Float(d.negated())),
        _ => None,
    }
}

/// Whether a minus sign that comes after `emitted` is a sign, not a
/// subtraction: it is a subtraction only directly behind a literal.
pub open spec fn expects_operand(emitted: Seq<TokenView>) -> bool {
    emitted.len() == 0 || !emitted.last().is_literal()
}

/// The result of resolving the minus signs of `tokens` from position
/// `from` on, when `emitted` is what the tokens before `from` gave. A
/// minus where an operand is due is a sign. It is dropped, and the token
/// behind it is given in its place: negated where it is a literal, as it
/// is where it is none.
pub open spec fn fold_from(tokens: Seq<TokenView>, from: int, emitted: Seq<TokenView>) -> Result<
    Seq<TokenView>,
    FoldError,
>
    decreases tokens.len() - from,
{
    if from < 0 || from >= tokens.len() {
        Ok(emitted)
    } else if tokens[from] == TokenView::Operator(Operator::Minus) && expects_operand(emitted) {
        if from + 1 >= tokens.len() {
            Err(FoldError::DanglingMinus)
        } else if tokens[from + 1].is_literal() {
            match negation(tokens[from + 1]) {
                Some(literal) => fold_from(tokens, from + 2, emitted.push(literal)),
                None => Err(FoldError::UnsupportedUnaryTarget),
            }
        } else {
            fold_from(tokens, from + 2, emitted.push(tokens[from + 1]))
        }
    } else {
        fold_from(tokens, from + 1, emitted.push(tokens[from]))
    }
}

/// The tokens with every unary minus taken into the literal behind it.
pub open spec fn folded(tokens: Seq<TokenView>) -> Result<Seq<TokenView>, FoldError> {
    fold_from(tokens, 0, Seq::empty())
}

/// Whether every minus sign of `tokens` is a subtraction: it stands
/// directly behind a literal.
pub open spec fn resolved(tokens: Seq<TokenView>) -> bool {
    forall|i: int|
        0 <= i < tokens.len() && #[trigger] tokens[i] == TokenView::Operator(Operator::Minus)
            ==> i > 0 && tokens[i - 1].is_literal()
}

/// Whether no sign of `tokens` stands in front of a minus: of two minus
/// signs in a row the first stands directly behind a literal, and so is
/// a subtraction.
pub open spec fn signs_apart(tokens: Seq<TokenView>) -> bool {
    forall|i: int|
        0 <= i && i + 1 < tokens.len() && #[trigger] tokens[i] == TokenView::Operator(
            Operator::Minus,
        ) && tokens[i + 1] == TokenView::Operator(Operator::Minus) ==> i > 0 && tokens[i
            - 1].is_literal()
}

/// From any state in which no sign is left, and the last token given is
/// a literal where the last token read is one, the folding leaves no
/// sign, where no sign stands in front of a minus.
proof fn lemma_fold_from_resolved(tokens: Seq<TokenView>, from: int, emitted: Seq<TokenView>)
    requires
        0 <= from,
        signs_apart(tokens),
        resolved(emitted),
        0 < from <= tokens.len() && tokens[from - 1].is_literal() ==> !expects_operand(emitted),
    ensures
        fold_from(tokens, from, emitted) matches Ok(result) ==> resolved(result),
    decreases tokens.len() - from,
{
    if from < tokens.len() {
        if tokens[from] == TokenView::Operator(Operator::Minus) && expects_operand(emitted) {
            if from + 1 < tokens.len() {
                if tokens[from + 1].is_literal() {
                    if let Some(literal) = negation(tokens[from + 1]) {
                        lemma_fold_from_resolved(tokens, from + 2, emitted.push(literal));
                    }
                } else {
                    lemma_fold_from_resolved(tokens, from + 2, emitted.push(tokens[from + 1]));
                }
            }
        } else {
            lemma_fold_from_resolved(tokens, from + 1, emitted.push(tokens[from]));
        }
    }
}

/// Where no sign is left, the folding keeps every token.
proof fn lemma_fold_from_keeps(tokens: Seq<TokenView>, from: int)
    requires
        0 <= from <= tokens.len(),
        resolved(tokens),
    ensures
        fold_from(tokens, from, tokens.take(from)) == Ok::<Seq<TokenView>, FoldError>(tokens),
    decreases tokens.len() - from,
{
    if from < tokens.len() {
        assert(tokens.take(from).push(tokens[from]) =~= tokens.take(from + 1));
        if from > 0 {
            assert(tokens.take(from).last() == tokens[from - 1]);
        }
        lemma_fold_from_keeps(tokens, from + 1);
    } else {
        assert(tokens.take(from) =~= tokens);
    }
}

/// The folding changes nothing where there is no sign: where each minus
/// stands directly behind a literal, it gives the tokens back.
pub proof fn lemma_folded_keeps(tokens: Seq<TokenView>)
    requires
        resolved(tokens),
    ensures
        folded(tokens) == Ok::<Seq<TokenView>, FoldError>(tokens),
{
    lemma_fold_from_keeps(tokens, 0);
    assert(tokens.take(0) =~= Seq::<TokenView>::empty());
}

/// Where no sign stands in front of a minus, what the folding gives
/// holds no sign: each minus that is left stands directly behind a
/// literal. A sign in front of a minus is dropped and leaves that minus
/// behind, as with two minus signs at the start.
pub proof fn lemma_folded_resolved(tokens: Seq<TokenView>)
    requires
        signs_apart(tokens),
    ensures
        folded(tokens) matches Ok(result) ==> resolved(result),
{
    lemma_fold_from_resolved(tokens, 0, Seq::empty());
}

/// Where no sign stands in front of a minus, folding is idempotent: what
/// it gives, it gives back unchanged.
pub proof fn lemma_folded_twice(tokens: Seq<TokenView>)
    requires
        signs_apart(tokens),
    ensures
        folded(tokens) matches Ok(result) ==> folded(result) == Ok::<Seq<TokenView>, FoldError>(
            result,
        ),
{
    if let Ok(result) = folded(tokens) {
        lemma_folded_resolved(tokens);
        lemma_folded_keeps(result);
    }
}

/// Among literals without a sign, as a scan gives them, each has its
/// negation: from any state on, the folding refuses no operand of a
/// sign.
proof fn lemma_fold_from_supported(tokens: Seq<TokenView>, from: int, emitted: Seq<TokenView>)
    requires
        0 <= from,
        unsigned(tokens),
    ensures
        fold_from(tokens, from, emitted) != Err::<Seq<TokenView>, FoldError>(
            FoldError::UnsupportedUnaryTarget,
        ),
    decreases tokens.len() - from,
{
    if from < tokens.len() {
        if tokens[from] == TokenView::Operator(Operator::Minus) && expects_operand(emitted) {
            if from + 1 < tokens.len() {
                if tokens[from + 1].is_literal() {
                    if let Some(literal) = negation(tokens[from + 1]) {
                        lemma_fold_from_supported(tokens, from + 2, emitted.push(literal));
                    }
                } else {
                    lemma_fold_from_supported(tokens, from + 2, emitted.push(tokens[from + 1]));
                }
            }
        } else {
            lemma_fold_from_supported(tokens, from + 1, emitted.push(tokens[from]));
        }
    }
}

/// Among literals without a sign, as a scan gives them, the folding
/// fails only on a sign with nothing behind it.
pub proof fn lemma_folded_unsigned(tokens: Seq<TokenView>)
    requires
        unsigned(tokens),
    ensures
        folded(tokens) is Err ==> folded(tokens) == Err::<Seq<TokenView>, FoldError>(
            FoldError::DanglingMinus,
        ),
{
    lemma_fold_from_supported(tokens, 0, Seq::empty());
    if let Err(e) = folded(tokens) {
        assert(e != FoldError::UnsupportedUnaryTarget);
    }
}

/// Resolves the minus signs. One that follows a literal is the
/// subtraction and stays. Any other is a sign: it is dropped, and the
/// token behind it is given in its place, negated where it is a literal
/// and as it is where it is none.
pub fn fold(tokens: Vec<Token>) -> (outcome: Result<Vec<Token>, FoldError>)
    ensures
        match outcome {
            Ok(result) => folded(tokens.deep_view()) == Ok::<Seq<TokenView>, FoldError>(
                result.deep_view(),
            ),
            Err(e) => folded(tokens.deep_view()) == Err::<Seq<TokenView>, FoldError>(e),
        },
{
    let n = tokens.len();
    let mut result: Vec<Token> = Vec::new();
    let mut i: usize = 0;
    proof {
        assert(result.deep_view() =~= Seq::<TokenView>::empty());
    }
    while i < n
        invariant
            n == tokens.len(),
            i <= n,
            fold_from(tokens.deep_view(), i as int, result.deep_view()) == folded(
                tokens.deep_view(),
            ),
        decreases n - i,
    {
        let ghost emitted = result.deep_view();
        let given = result.len();
        let sign = match &tokens[i] {
            Token::Operator(Operator::Minus) => given == 0 || !result[given - 1].is_literal(),
            _ => false,
        };
        if sign {
            if i + 1 >= n {
                return Err(FoldError::DanglingMinus);
            }
            let ghost next = tokens.deep_view()[i + 1];
            match &tokens[i + 1] {
                Token::Integer(v) => {
                    if *v == i64::MIN {
                        return Err(FoldError::UnsupportedUnaryTarget);
                    }
                    result.push(Token::Integer(-*v));
                    proof {
                        assert(result.deep_view() =~= emitted.push(negation(next).unwrap()));
                    }
                },
                Token::Float(d) => {
                    result.push(Token::Float(d.clone().negated()));
                    proof {
                        assert(result.deep_view() =~= emitted.push(negation(next).unwrap()));
                    }
                },
                other => {
                    result.push(other.clone());
                    proof {
                        assert(result.deep_view() =~= emitted.push(next));
                    }
                },
            }
            i += 2;
        } else {
            result.push(tokens[i].clone());
            proof {
                assert(result.deep_view() =~= emitted.push(tokens.deep_view()[i as int]));
            }
            i += 1;
        }
    }
    Ok(result)
}

} // verus!
