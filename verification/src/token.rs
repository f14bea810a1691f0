use vstd::prelude::*;

verus! {

/// A binary arithmetic operator.
#[derive(Debug, Clone, Copy, PartialEq, Eq, Structural)]
pub enum Operator {
    /// Addition, written `+`.
    Plus,
    /// Subtraction, written `-`.
    Minus,
    /// Division, written `/`.
    Div,
    /// Multiplication, written `*`.
    Mul,
    /// Exponentiation, written `^`.
    Exp,
}

impl Operator {
    /// The precedence rank of the operator: a higher rank binds tighter.
    pub open spec fn rank(self) -> int {
        match self {
            Operator::Exp => 3,
            Operator::Mul | Operator::Div => 2,
            Operator::Plus | Operator::Minus => 1,
        }
    }

    /// The operator that a character denotes, if it denotes one.
    pub open spec fn of_char(c: char) -> Option<Operator> {
        if c == '+' {
            Some(Operator::Plus)
        } else if c == '-' {
            Some(Operator::Minus)
        } else if c == '/' {
            Some(Operator::Div)
        } else if c == '*' {
            Some(Operator::Mul)
        } else if c == '^' {
            Some(Operator::Exp)
        } else {
            None
        }
    }

    /// The precedence rank, as a machine integer.
    pub fn to_prio(&self) -> (prio: i32)
        ensures
            prio == self.rank(),
    {
        match *self {
            Operator::Exp => 3,
            Operator::Mul | Operator::Div => 2,
            _ => 1,
        }
    }

    /// Reads an operator from its character.
    pub fn from(value: char) -> (op: Option<Operator>)
        ensures
            op == Operator::of_char(value),
    {
        match value {
            '+' => Some(Operator::Plus),
            '-' => Some(Operator::Minus),
            '/' => Some(Operator::Div),
            '*' => Some(Operator::Mul),
            '^' => Some(Operator::Exp),
            _ => None,
        }
    }
}

/// Whether `c` is one of the ten decimal digits.
pub open spec fn is_digit(c: char) -> bool {
    '0' <= c <= '9'
}

/// Whether `text` is an unsigned decimal literal: decimal digits around
/// exactly one point, with at least one digit.
pub open spec fn is_decimal_literal(text: Seq<char>) -> bool {
    &&& exists|p: int| 0 <= p < text.len() && text[p] == '.' && forall|i: int|
        0 <= i < text.len() && i != p ==> is_digit(#[trigger] text[i])
    &&& text.len() >= 2
}

/// What a decimal literal token stands for: a sign and the digits, point
/// included, of its magnitude.
pub struct DecimalView {
    /// Whether the literal carries a minus sign.
    pub negative: bool,
    /// The digits of the magnitude, point included.
    pub digits: Seq<char>,
}

impl DecimalView {
    /// The literal of the opposite sign.
    pub open spec fn negated(self) -> DecimalView {
        DecimalView { negative: !self.negative, digits: self.digits }
    }
}

/// A literal with a decimal point. It is kept as written, so that no digit
/// is lost before the number is given a machine representation.
#[derive(Debug, PartialEq, Eq)]
pub struct Decimal {
    negative: bool,
    digits: String,
}

impl View for Decimal {
    type V = DecimalView;

    closed spec fn view(&self) -> DecimalView {
        DecimalView { negative: self.negative, digits: self.digits@ }
    }
}

impl DeepView for Decimal {
    type V = DecimalView;

    open spec fn deep_view(&self) -> DecimalView {
        self.view()
    }
}

impl Clone for Decimal {
    fn clone(&self) -> (copy: Self)
        ensures
            copy == *self,
    {
        proof {
            use_type_invariant(self);
        }
        Decimal { negative: self.negative, digits: self.digits.clone() }
    }
}

impl Decimal {
    #[verifier::type_invariant]
    spec fn well_formed(self) -> bool {
        is_decimal_literal(self.digits@)
    }

    /// Reads an unsigned decimal literal. Text of any other shape is
    /// refused.
    pub fn parse(text: &str) -> (literal: Option<Decimal>)
        ensures
            literal is Some <==> is_decimal_literal(text@),
            literal matches Some(d) ==> d@ == (DecimalView { negative: false, digits: text@ }),
    {
        let mut seen_point = false;
        let mut seen_digit = false;
        let ghost mut point: int = 0;
        let ghost mut digit: int = 0;
        for c in it: text.chars()
            invariant
                it.seq() == text@,
                seen_point ==> 0 <= point < it.index() && text@[point] == '.',
                seen_digit ==> 0 <= digit < it.index() && is_digit(text@[digit]),
                !seen_digit ==> forall|i: int| 0 <= i < it.index() ==> !is_digit(text@[i]),
                forall|i: int|
                    0 <= i < it.index() && !(seen_point && i == point) ==> is_digit(
                        #[trigger] text@[i],
                    ),
        {
            let ghost at = it.index() as int;
            if c == '.' {
                if seen_point {
                    assert(!is_decimal_literal(text@)) by {
                        if is_decimal_literal(text@) {
                            let p = choose|p: int|
                                0 <= p < text@.len() && text@[p] == '.' && forall|i: int|
                                    0 <= i < text@.len() && i != p ==> is_digit(
                                        #[trigger] text@[i],
                                    );
                            assert(is_digit(text@[point]) || is_digit(text@[at]));
                        }
                    }
                    return None;
                }
                seen_point = true;
                proof {
                    point = at;
                }
            } else if '0' <= c && c <= '9' {
                seen_digit = true;
                proof {
                    digit = at;
                }
            } else {
                assert(!is_decimal_literal(text@)) by {
                    if is_decimal_literal(text@) {
                        let p = choose|p: int|
                            0 <= p < text@.len() && text@[p] == '.' && forall|i: int|
                                0 <= i < text@.len() && i != p ==> is_digit(#[trigger] text@[i]);
                        assert(is_digit(text@[at]));
                    }
                }
                return None;
            }
        }
        if seen_point && seen_digit {
            assert(is_decimal_literal(text@)) by {
                assert(point != digit);
                assert(0 <= point < text@.len() && text@[point] == '.' && forall|i: int|
                    0 <= i < text@.len() && i != point ==> is_digit(#[trigger] text@[i]));
            }
            Some(Decimal { negative: false, digits: text.to_owned() })
        } else {
            assert(!is_decimal_literal(text@)) by {
                if is_decimal_literal(text@) {
                    let p = choose|p: int|
                        0 <= p < text@.len() && text@[p] == '.' && forall|i: int|
                            0 <= i < text@.len() && i != p ==> is_digit(#[trigger] text@[i]);
                    if seen_point {
                        assert(p == point) by {
                            if p != point {
                                assert(is_digit(text@[point]));
                            }
                        }
                        let other = if p == 0 {
                            1int
                        } else {
                            0int
                        };
                        assert(is_digit(text@[other]));
                    } else {
                        assert(is_digit(text@[p]));
                    }
                }
            }
            None
        }
    }

    /// Whether the literal carries a minus sign.
    pub fn is_negative(&self) -> (negative: bool)
        ensures
            negative == self@.negative,
    {
        self.negative
    }

    /// The digits of the magnitude, point included.
    pub fn digits(&self) -> (digits: &str)
        ensures
            digits@ == self@.digits,
            is_decimal_literal(digits@),
    {
        proof {
            use_type_invariant(self);
        }
        self.digits.as_str()
    }

    /// The literal of the opposite sign.
    pub fn negated(self) -> (opposite: Decimal)
        ensures
            opposite@ == self@.negated(),
    {
        proof {
            use_type_invariant(&self);
        }
        Decimal { negative: !self.negative, digits: self.digits }
    }
}

/// What a token stands for.
pub enum TokenView {
    /// An integer, with its value.
    Integer(i64),
    /// A literal with a decimal point, with its sign and digits.
    Float(DecimalView),
    /// An operator.
    Operator(Operator),
    /// The parenthesis that opens a group.
    LeftParenthesis,
    /// The parenthesis that closes a group.
    RightParenthesis,
}

impl TokenView {
    /// Whether the token is a number.
    pub open spec fn is_literal(self) -> bool {
        self is Integer || self is Float
    }

    /// Whether the token is one of the two parentheses.
    pub open spec fn is_parenthesis(self) -> bool {
        self is LeftParenthesis || self is RightParenthesis
    }
}

/// Whether no token of the sequence is a parenthesis.
pub open spec fn no_parenthesis(tokens: Seq<TokenView>) -> bool {
    forall|i: int| 0 <= i < tokens.len() ==> !(#[trigger] tokens[i]).is_parenthesis()
}

/// Whether no literal of `tokens` carries a sign.
pub open spec fn unsigned(tokens: Seq<TokenView>) -> bool {
    forall|i: int|
        0 <= i < tokens.len() ==> match #[trigger] tokens[i] {
            TokenView::Integer(n) => n >= 0,
            TokenView::Float(d) => !d.negative,
            _ => true,
        }
}

/// One lexical element of an arithmetic expression.
#[derive(Debug, PartialEq, Eq)]
pub enum Token {
    /// An integer, written in base 10 or base 16.
    Integer(i64),
    /// A literal with a decimal point.
    Float(Decimal),
    /// An operator.
    Operator(Operator),
    /// The parenthesis that opens a group.
    LeftParenthesis,
    /// The parenthesis that closes a group.
    RightParenthesis,
}

impl View for Token {
    type V = TokenView;

    open spec fn view(&self) -> TokenView {
        match *self {
            Token::Integer(n) => TokenView::Integer(n),
            Token::Float(d) => TokenView::Float(d@),
            Token::Operator(op) => TokenView::Operator(op),
            Token::LeftParenthesis => TokenView::LeftParenthesis,
            Token::RightParenthesis => TokenView::RightParenthesis,
        }
    }
}

impl DeepView for Token {
    type V = TokenView;

    open spec fn deep_view(&self) -> TokenView {
        self.view()
    }
}

impl Clone for Token {
    fn clone(&self) -> (copy: Self)
        ensures
            copy == *self,
    {
        match self {
            Token::Integer(n) => Token::Integer(*n),
            Token::Float(d) => Token::Float(d.clone()),
            Token::Operator(op) => Token::Operator(*op),
            Token::LeftParenthesis => Token::LeftParenthesis,
            Token::RightParenthesis => Token::RightParenthesis,
        }
    }
}

impl Token {
    /// Whether the token is a number.
    pub fn is_literal(&self) -> (literal: bool)
        ensures
            literal == self@.is_literal(),
    {
        match self {
            Token::Integer(_) | Token::Float(_) => true,
            _ => false,
        }
    }
}

} // verus!
