use crate::token::{
    is_decimal_literal, is_digit, unsigned, Decimal, DecimalView, Operator, Token, TokenView,
};
use vstd::prelude::*;

verus! {

/// Whether `c` separates tokens without being one.
pub open spec fn is_space(c: char) -> bool {
    c == ' ' || c == '\t' || c == '\r' || c == '\n'
}

/// Whether a numeral stops in front of `c`: at white space, at a
/// parenthesis and at an operator.
pub open spec fn ends_numeral(c: char) -> bool {
    is_space(c) || c == '(' || c == ')' || Operator::of_char(c) is Some
}

/// Whether `c` is a digit of base 16, in either case.
pub open spec fn is_hex_digit(c: char) -> bool {
    is_digit(c) || 'a' <= c <= 'f' || 'A' <= c <= 'F'
}

/// The number that a digit stands for, up to base 16.
pub open spec fn digit_value(c: char) -> nat {
    if is_digit(c) {
        (c as int - '0' as int) as nat
    } else if 'a' <= c <= 'f' {
        (c as int - 'a' as int + 10) as nat
    } else if 'A' <= c <= 'F' {
        (c as int - 'A' as int + 10) as nat
    } else {
        0
    }
}

/// The number that `digits` write in base `radix`, the most significant
/// digit first.
pub open spec fn radix_value(digits: Seq<char>, radix: nat) -> nat
    decreases digits.len(),
{
    if digits.len() == 0 {
        0
    } else {
        radix_value(digits.drop_last(), radix) * radix + digit_value(digits.last())
    }
}

/// What a run of decimal digits denotes: its value, where it fits in 64
/// bits with a sign. There is no sign in the run itself.
pub open spec fn integer_literal(raw: Seq<char>) -> Option<i64> {
    if raw.len() > 0 && (forall|i: int| 0 <= i < raw.len() ==> is_digit(#[trigger] raw[i]))
        && radix_value(raw, 10) <= i64::MAX {
        Some(radix_value(raw, 10) as i64)
    } else {
        None
    }
}

/// Whether `raw` is `0x` or `0X` followed by digits of base 16, at least
/// one of them.
pub open spec fn is_hex_numeral(raw: Seq<char>) -> bool {
    &&& raw.len() >= 3
    &&& raw[0] == '0'
    &&& (raw[1] == 'x' || raw[1] == 'X')
    &&& forall|i: int| 2 <= i < raw.len() ==> is_hex_digit(#[trigger] raw[i])
}

/// What a hexadecimal numeral denotes: the value of the digits behind
/// its prefix, where it fits in 64 bits with a sign.
pub open spec fn hex_literal(raw: Seq<char>) -> Option<i64> {
    if is_hex_numeral(raw) && radix_value(raw.skip(2), 16) <= i64::MAX {
        Some(radix_value(raw.skip(2), 16) as i64)
    } else {
        None
    }
}

/// The token that a numeral denotes. A numeral with the hexadecimal
/// prefix is read in base 16; any other with a point in it is a decimal
/// literal; what is left is a decimal integer. `None` where the numeral
/// is not well formed under the rule that applies to it.
pub open spec fn numeral(raw: Seq<char>) -> Option<TokenView> {
    if is_hex_numeral(raw) {
        match hex_literal(raw) {
            Some(n) => Some(TokenView::Integer(n)),
            None => None,
        }
    } else if raw.contains('.') {
        if is_decimal_literal(raw) {
            Some(TokenView::Float(DecimalView { negative: false, digits: raw }))
        } else {
            None
        }
    } else {
        match integer_literal(raw) {
            Some(n) => Some(TokenView::Integer(n)),
            None => None,
        }
    }
}

/// The number of characters from `from` on that a numeral can hold: the
/// length of the longest run that stops in front of white space, a
/// parenthesis, an operator or the end of the text.
pub open spec fn run_length(text: Seq<char>, from: int) -> nat
    decreases text.len() - from,
{
    if 0 <= from < text.len() && !ends_numeral(text[from]) {
        1 + run_length(text, from + 1)
    } else {
        0
    }
}

/// The numeral that starts at position `at`, as written.
pub open spec fn numeral_at(text: Seq<char>, at: int) -> Seq<char> {
    text.subrange(at, at + run_length(text, at))
}

/// Whether a numeral starts at position `at`: with a character that a
/// numeral can hold, at the start of the text or behind one that it
/// cannot hold.
pub open spec fn starts_numeral(text: Seq<char>, at: int) -> bool {
    0 <= at < text.len() && !ends_numeral(text[at]) && (at == 0 || ends_numeral(text[at - 1]))
}

/// What the text of a lexical error stands for.
pub enum LexErrorView {
    /// The numeral, as written, denotes no token.
    InvalidNumeral(Seq<char>),
}

impl LexErrorView {
    /// The words that describe the error.
    pub open spec fn text(self) -> Seq<char> {
        match self {
            LexErrorView::InvalidNumeral(raw) => "Invalid numeral: "@ + raw,
        }
    }
}

/// The tokens `head`, then those of `rest`; the error of `rest` where it
/// has one.
pub open spec fn followed_by(
    head: Seq<TokenView>,
    rest: Result<Seq<TokenView>, LexErrorView>,
) -> Result<Seq<TokenView>, LexErrorView> {
    match rest {
        Ok(tail) => Ok(head + tail),
        Err(e) => Err(e),
    }
}

/// The tokens of `text` from position `from` on, or the first numeral
/// from there on that is no token.
pub open spec fn lex_from(text: Seq<char>, from: int) -> Result<Seq<TokenView>, LexErrorView>
    decreases text.len() - from,
    via lex_from_decreases
{
    if from < 0 || from >= text.len() {
        Ok(Seq::empty())
    } else if is_space(text[from]) {
        lex_from(text, from + 1)
    } else if text[from] == '(' {
        followed_by(seq![TokenView::LeftParenthesis], lex_from(text, from + 1))
    } else if text[from] == ')' {
        followed_by(seq![TokenView::RightParenthesis], lex_from(text, from + 1))
    } else if let Some(op) = Operator::of_char(text[from]) {
        followed_by(seq![TokenView::Operator(op)], lex_from(text, from + 1))
    } else {
        let raw = numeral_at(text, from);
        match numeral(raw) {
            Some(token) => followed_by(seq![token], lex_from(text, from + run_length(text, from))),
            None => Err(LexErrorView::InvalidNumeral(raw)),
        }
    }
}

#[via_fn]
proof fn lex_from_decreases(text: Seq<char>, from: int) {
    if 0 <= from < text.len() {
        lemma_run_length_bound(text, from);
    }
}

/// The tokens of `text`, or its first numeral that is no token.
pub open spec fn lex(text: Seq<char>) -> Result<Seq<TokenView>, LexErrorView> {
    lex_from(text, 0)
}

/// Whether every numeral of `text` denotes a token.
pub open spec fn numerals_well_formed(text: Seq<char>) -> bool {
    forall|at: int| starts_numeral(text, at) ==> numeral(#[trigger] numeral_at(text, at)) is Some
}

/// Why a text is no sequence of tokens.
#[derive(Debug, PartialEq, Eq)]
pub enum LexError {
    /// The numeral, as written, denotes no token: it is not well formed,
    /// or it is an integer that does not fit in 64 bits with a sign.
    InvalidNumeral(String),
}

impl View for LexError {
    type V = LexErrorView;

    open spec fn view(&self) -> LexErrorView {
        match *self {
            LexError::InvalidNumeral(raw) => LexErrorView::InvalidNumeral(raw@),
        }
    }
}

impl LexError {
    /// Describes the error in words.
    pub fn message(&self) -> (message: String)
        ensures
            message@ == self@.text(),
    {
        match self {
            LexError::InvalidNumeral(raw) => "Invalid numeral: ".to_owned().concat(raw.as_str()),
        }
    }
}

/// What the outcome of a scan stands for.
pub open spec fn lexed(outcome: Result<Vec<Token>, LexError>) -> Result<
    Seq<TokenView>,
    LexErrorView,
> {
    match outcome {
        Ok(tokens) => Ok(tokens.deep_view()),
        Err(e) => Err(e@),
    }
}

/// A number written with a proper prefix of the digits is no larger.
proof fn lemma_radix_value_prefix(digits: Seq<char>, radix: nat, k: int)
    requires
        radix >= 1,
        0 <= k <= digits.len(),
    ensures
        radix_value(digits.take(k), radix) <= radix_value(digits, radix),
    decreases digits.len(),
{
    if k == digits.len() {
        assert(digits.take(k) =~= digits);
    } else {
        let shorter = digits.drop_last();
        lemma_radix_value_prefix(shorter, radix, k);
        assert(shorter.take(k) =~= digits.take(k));
        assert(radix_value(shorter, radix) * radix >= radix_value(shorter, radix))
            by (nonlinear_arith)
            requires
                radix >= 1,
        ;
    }
}

/// One more digit multiplies the number by the base and adds the digit.
proof fn lemma_radix_value_step(digits: Seq<char>, radix: nat, k: int)
    requires
        0 <= k < digits.len(),
    ensures
        radix_value(digits.take(k + 1), radix) == radix_value(digits.take(k), radix) * radix
            + digit_value(digits[k]),
{
    let longer = digits.take(k + 1);
    assert(longer.drop_last() =~= digits.take(k));
    assert(longer.last() == digits[k]);
}

/// A run of numeral characters ends within the text.
proof fn lemma_run_length_bound(text: Seq<char>, from: int)
    requires
        0 <= from <= text.len(),
    ensures
        from + run_length(text, from) <= text.len(),
    decreases text.len() - from,
{
    if from < text.len() && !ends_numeral(text[from]) {
        lemma_run_length_bound(text, from + 1);
    }
}

/// A run holds only characters that a numeral can hold, and ends at the
/// end of the text or in front of a character that it cannot hold.
proof fn lemma_run_length_maximal(text: Seq<char>, from: int)
    requires
        0 <= from <= text.len(),
    ensures
        forall|k: int| from <= k < from + run_length(text, from) ==> !ends_numeral(text[k]),
        from + run_length(text, from) == text.len() || ends_numeral(
            text[from + run_length(text, from)],
        ),
    decreases text.len() - from,
{
    if from < text.len() && !ends_numeral(text[from]) {
        lemma_run_length_maximal(text, from + 1);
    }
}

/// From a position where no numeral is under way, the scan succeeds
/// where every numeral from there on denotes a token.
proof fn lemma_lex_from_total(text: Seq<char>, from: int)
    requires
        0 <= from,
        from == 0 || from >= text.len() || ends_numeral(text[from - 1]) || ends_numeral(
            text[from],
        ),
    ensures
        lex_from(text, from) is Ok <==> forall|at: int|
            from <= at && starts_numeral(text, at) ==> numeral(#[trigger] numeral_at(text, at))
                is Some,
    decreases text.len() - from,
{
    if from < text.len() {
        if ends_numeral(text[from]) {
            lemma_lex_from_total(text, from + 1);
        } else {
            let end = from + run_length(text, from);
            lemma_run_length_bound(text, from);
            lemma_run_length_maximal(text, from);
            assert(starts_numeral(text, from));
            if numeral(numeral_at(text, from)) is Some {
                lemma_lex_from_total(text, end);
                assert forall|at: int| from < at < end implies !starts_numeral(text, at) by {
                    assert(!ends_numeral(text[at - 1]));
                }
            }
        }
    }
}

/// The scan is total on well-formed text: it succeeds on exactly the
/// texts in which every numeral denotes a token.
pub proof fn lemma_lex_total(text: Seq<char>)
    ensures
        lex(text) is Ok <==> numerals_well_formed(text),
{
    lemma_lex_from_total(text, 0);
}

/// Whether the numeral that starts at position `at` is the first one of
/// `text`, from position `from` on, that denotes no token.
pub open spec fn first_ill_formed(text: Seq<char>, from: int, at: int) -> bool {
    &&& from <= at
    &&& starts_numeral(text, at)
    &&& numeral(numeral_at(text, at)) is None
    &&& forall|k: int|
        from <= k < at && starts_numeral(text, k) ==> numeral(#[trigger] numeral_at(text, k))
            is Some
}

/// From a position where no numeral is under way, a scan that fails
/// reports the first numeral from there on that denotes no token.
proof fn lemma_lex_from_error(text: Seq<char>, from: int)
    requires
        0 <= from,
        from == 0 || from >= text.len() || ends_numeral(text[from - 1]) || ends_numeral(
            text[from],
        ),
    ensures
        lex_from(text, from) matches Err(LexErrorView::InvalidNumeral(raw)) ==> exists|at: int|
            first_ill_formed(text, from, at) && raw == #[trigger] numeral_at(text, at),
    decreases text.len() - from,
{
    if from < text.len() {
        if ends_numeral(text[from]) {
            lemma_lex_from_error(text, from + 1);
            if let Err(LexErrorView::InvalidNumeral(raw)) = lex_from(text, from) {
                let at = choose|at: int|
                    first_ill_formed(text, from + 1, at) && raw == #[trigger] numeral_at(text, at);
                assert(first_ill_formed(text, from, at));
            }
        } else {
            let end = from + run_length(text, from);
            lemma_run_length_bound(text, from);
            lemma_run_length_maximal(text, from);
            assert(starts_numeral(text, from));
            if numeral(numeral_at(text, from)) is Some {
                lemma_lex_from_error(text, end);
                if let Err(LexErrorView::InvalidNumeral(raw)) = lex_from(text, from) {
                    let at = choose|at: int|
                        first_ill_formed(text, end, at) && raw == #[trigger] numeral_at(text, at);
                    assert forall|k: int| from < k < end implies !starts_numeral(text, k) by {
                        assert(!ends_numeral(text[k - 1]));
                    }
                    assert(first_ill_formed(text, from, at));
                }
            } else {
                assert(first_ill_formed(text, from, from));
            }
        }
    }
}

/// A scan that fails reports the first numeral of the text that denotes
/// no token, as it is written.
pub proof fn lemma_lex_error(text: Seq<char>)
    ensures
        lex(text) matches Err(LexErrorView::InvalidNumeral(raw)) ==> exists|at: int|
            first_ill_formed(text, 0, at) && raw == #[trigger] numeral_at(text, at),
{
    lemma_lex_from_error(text, 0);
}

/// From any position on, the scan gives no literal with a sign.
proof fn lemma_lex_from_unsigned(text: Seq<char>, from: int)
    requires
        0 <= from,
    ensures
        lex_from(text, from) matches Ok(tokens) ==> unsigned(tokens),
    decreases text.len() - from,
{
    if from < text.len() {
        if is_space(text[from]) || text[from] == '(' || text[from] == ')' || Operator::of_char(
            text[from],
        ) is Some {
            lemma_lex_from_unsigned(text, from + 1);
        } else {
            lemma_run_length_bound(text, from);
            lemma_lex_from_unsigned(text, from + run_length(text, from));
        }
    }
}

/// The scan gives no literal with a sign: a minus sign in the text is
/// always a token of its own.
pub proof fn lemma_lex_unsigned(text: Seq<char>)
    ensures
        lex(text) matches Ok(tokens) ==> unsigned(tokens),
{
    lemma_lex_from_unsigned(text, 0);
}

/// The scan is a function of the text: a second scan of a text gives
/// what the first one gave.
pub proof fn lemma_rescan(
    text: Seq<char>,
    first: Result<Vec<Token>, LexError>,
    second: Result<Vec<Token>, LexError>,
)
    requires
        lexed(first) == lex(text),
        lexed(second) == lex(text),
    ensures
        lexed(first) == lexed(second),
{
}

/// Moving a token from the front of what follows to the end of what came
/// before changes nothing.
proof fn lemma_followed_by_push(
    before: Seq<TokenView>,
    token: TokenView,
    rest: Result<Seq<TokenView>, LexErrorView>,
)
    ensures
        followed_by(before, followed_by(seq![token], rest)) == followed_by(
            before.push(token),
            rest,
        ),
{
    if let Ok(tail) = rest {
        assert(before + (seq![token] + tail) =~= before.push(token) + tail);
    }
}

/// Reads a decimal integer without a sign.
pub fn integer(raw: &str) -> (value: Option<i64>)
    ensures
        value == integer_literal(raw@),
{
    let mut acc: i64 = 0;
    let mut seen = false;
    for c in it: raw.chars()
        invariant
            it.seq() == raw@,
            forall|i: int| 0 <= i < it.index() ==> is_digit(#[trigger] raw@[i]),
            acc == radix_value(raw@.take(it.index() as int), 10),
            seen == (it.index() > 0),
    {
        let ghost at = it.index() as int;
        if !('0' <= c && c <= '9') {
            return None;
        }
        let d: i64 = (c as u32 - '0' as u32) as i64;
        proof {
            lemma_radix_value_step(raw@, 10, at);
            lemma_radix_value_prefix(raw@, 10, at + 1);
        }
        if acc > (i64::MAX - d) / 10 {
            return None;
        }
        acc = acc * 10 + d;
        seen = true;
    }
    proof {
        assert(raw@.take(raw@.len() as int) =~= raw@);
    }
    if seen {
        Some(acc)
    } else {
        None
    }
}

/// Reads a hexadecimal integer: the prefix `0x` or `0X`, then the digits.
pub fn hexa(raw: &str) -> (value: Option<i64>)
    ensures
        value == hex_literal(raw@),
{
    let mut acc: i64 = 0;
    let mut stage: u8 = 0;
    for c in it: raw.chars()
        invariant
            it.seq() == raw@,
            stage <= 3,
            stage < 3 ==> stage == it.index(),
            stage == 3 ==> it.index() >= 3,
            it.index() >= 1 ==> raw@[0] == '0',
            it.index() >= 2 ==> raw@[1] == 'x' || raw@[1] == 'X',
            forall|i: int| 2 <= i < it.index() ==> is_hex_digit(#[trigger] raw@[i]),
            stage <= 2 ==> acc == 0,
            stage == 3 ==> acc == radix_value(raw@.skip(2).take(it.index() - 2), 16),
    {
        let ghost at = it.index() as int;
        if stage == 0 {
            if c != '0' {
                return None;
            }
            stage = 1;
        } else if stage == 1 {
            if c != 'x' && c != 'X' {
                return None;
            }
            stage = 2;
        } else {
            let d: i64 = if '0' <= c && c <= '9' {
                (c as u32 - '0' as u32) as i64
            } else if 'a' <= c && c <= 'f' {
                (c as u32 - 'a' as u32) as i64 + 10
            } else if 'A' <= c && c <= 'F' {
                (c as u32 - 'A' as u32) as i64 + 10
            } else {
                return None;
            };
            proof {
                let digits = raw@.skip(2);
                assert(digits[at - 2] == c);
                assert(digits.take(0) =~= Seq::<char>::empty());
                lemma_radix_value_step(digits, 16, at - 2);
                lemma_radix_value_prefix(digits, 16, at - 1);
            }
            if acc > (i64::MAX - d) / 16 {
                return None;
            }
            acc = acc * 16 + d;
            stage = 3;
        }
    }
    proof {
        let digits = raw@.skip(2);
        if stage == 3 {
            assert(digits.take(digits.len() as int) =~= digits);
        }
    }
    if stage == 3 {
        Some(acc)
    } else {
        None
    }
}

/// Reads one numeral, under the first rule that fits it: hexadecimal
/// integer, decimal literal, decimal integer.
pub fn number(raw: &str) -> (token: Option<Token>)
    ensures
        token is Some <==> numeral(raw@) is Some,
        token matches Some(t) ==> numeral(raw@) == Some(t@),
{
    if let Some(n) = hexa(raw) {
        return Some(Token::Integer(n));
    }
    if let Some(d) = Decimal::parse(raw) {
        proof {
            let p = choose|p: int|
                0 <= p < raw@.len() && raw@[p] == '.' && forall|i: int|
                    0 <= i < raw@.len() && i != p ==> is_digit(#[trigger] raw@[i]);
            assert(raw@.contains('.'));
            if is_hex_numeral(raw@) {
                assert(!is_digit(raw@[1]));
            }
        }
        return Some(Token::Float(d));
    }
    let value = integer(raw);
    proof {
        if is_hex_numeral(raw@) {
            assert(!is_digit(raw@[1]));
        }
        if raw@.contains('.') {
            let p = choose|p: int| 0 <= p < raw@.len() && raw@[p] == '.';
            assert(!is_digit(raw@[p]));
        }
    }
    match value {
        Some(n) => Some(Token::Integer(n)),
        None => None,
    }
}

/// Whether a numeral stops in front of `c`.
fn stops_numeral(c: char) -> (stops: bool)
    ensures
        stops == ends_numeral(c),
{
    c == ' ' || c == '\t' || c == '\r' || c == '\n' || c == '(' || c == ')' || c == '+' || c == '-'
        || c == '/' || c == '*' || c == '^'
}

/// The characters of `text`, in order.
fn characters(text: &str) -> (chars: Vec<char>)
    ensures
        chars@ == text@,
{
    let mut chars: Vec<char> = Vec::new();
    for c in it: text.chars()
        invariant
            chars@ == it.seq().take(it.index() as int),
            it.seq() == text@,
    {
        chars.push(c);
    }
    chars
}

/// Scans an expression into its tokens. White space separates tokens and
/// is dropped; a minus sign is always the operator, whatever stands
/// around it.
pub fn expr(text: &str) -> (outcome: Result<Vec<Token>, LexError>)
    ensures
        lexed(outcome) == lex(text@),
        outcome is Ok <==> numerals_well_formed(text@),
        outcome matches Ok(tokens) ==> unsigned(tokens.deep_view()),
{
    let chars = characters(text);
    let ascii = text.is_ascii();
    let n = chars.len();
    let mut tokens: Vec<Token> = Vec::new();
    let mut i: usize = 0;
    while i < n
        invariant
            chars@ == text@,
            ascii ==> text.is_ascii(),
            n == chars.len(),
            i <= n,
            lex(text@) == followed_by(tokens.deep_view(), lex_from(text@, i as int)),
        decreases n - i,
    {
        let c = chars[i];
        let ghost before = tokens.deep_view();
        if c == ' ' || c == '\t' || c == '\r' || c == '\n' {
            i += 1;
        } else if c == '(' {
            tokens.push(Token::LeftParenthesis);
            i += 1;
            proof {
                assert(tokens.deep_view() =~= before.push(TokenView::LeftParenthesis));
                lemma_followed_by_push(
                    before,
                    TokenView::LeftParenthesis,
                    lex_from(text@, i as int),
                );
            }
        } else if c == ')' {
            tokens.push(Token::RightParenthesis);
            i += 1;
            proof {
                assert(tokens.deep_view() =~= before.push(TokenView::RightParenthesis));
                lemma_followed_by_push(
                    before,
                    TokenView::RightParenthesis,
                    lex_from(text@, i as int),
                );
            }
        } else if let Some(op) = Operator::from(c) {
            tokens.push(Token::Operator(op));
            i += 1;
            proof {
                assert(tokens.deep_view() =~= before.push(TokenView::Operator(op)));
                lemma_followed_by_push(before, TokenView::Operator(op), lex_from(text@, i as int));
            }
        } else {
            let mut end: usize = i + 1;
            while end < n && !stops_numeral(chars[end])
                invariant
                    chars@ == text@,
                    n == chars.len(),
                    i < end <= n,
                    run_length(text@, i as int) == (end - i) + run_length(text@, end as int),
                decreases n - end,
            {
                end += 1;
            }
            let raw = if ascii {
                text.substring_ascii(i, end)
            } else {
                text.substring_char(i, end)
            };
            match number(raw) {
                Some(token) => {
                    proof {
                        lemma_followed_by_push(before, token@, lex_from(text@, end as int));
                    }
                    tokens.push(token);
                    i = end;
                    proof {
                        assert(tokens.deep_view() =~= before.push(token@));
                    }
                },
                None => {
                    proof {
                        lemma_lex_total(text@);
                    }
                    return Err(LexError::InvalidNumeral(raw.to_owned()));
                },
            }
        }
    }
    proof {
        assert(tokens.deep_view() + Seq::<TokenView>::empty() =~= tokens.deep_view());
        lemma_lex_total(text@);
        lemma_lex_unsigned(text@);
    }
    Ok(tokens)
}

/// Scans an expression into its tokens.
pub fn tokenize(s: String) -> (outcome: Result<Vec<Token>, LexError>)
    ensures
        lexed(outcome) == lex(s@),
        outcome is Ok <==> numerals_well_formed(s@),
        outcome matches Ok(tokens) ==> unsigned(tokens.deep_view()),
{
    expr(s.as_str())
}

} // verus!
