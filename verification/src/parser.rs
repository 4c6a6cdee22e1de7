//! The parser: tokens in, expression tree out.
//!
//! An expression is a run of integer literals, optionally followed by an
//! operator and the rest of the input as its right operand, so operators group
//! from the right: `a + b - c` is `a + (b - c)`.  [`parse_tokens`] says which
//! tree, or which error, a token sequence stands for; [`Parser::parse`]
//! computes it.

use crate::number::{all_digits, decimal, lemma_decimal_nonnegative, number_of, parse_number};
use crate::scanner::{
    is_digit, lemma_run_end_bounds, run_end, run_text, scan, symbol, token_views, Op, Token,
    TokenView,
};
use vstd::prelude::*;

verus! {

/// The element type of arrays.
pub type Num = i64;

/// A one-dimensional array of numbers.
pub type Array = Vec<Num>;

/// An expression tree.
#[derive(Debug, PartialEq, Eq)]
pub enum Expr {
    /// A run of literals, taken together as one array.
    Number(Array),
    /// An operator between two operands.
    Diadic { left: Box<Expr>, infix: Op, right: Box<Expr> },
}

/// The mathematical content of an [`Expr`].
pub enum ExprView {
    Number(Seq<Num>),
    Diadic { left: Box<ExprView>, infix: Op, right: Box<ExprView> },
}

impl ExprView {
    /// The tree with the operator `op` between `left` and `right`.
    pub open spec fn node(left: ExprView, op: Op, right: ExprView) -> ExprView {
        ExprView::Diadic { left: Box::new(left), infix: op, right: Box::new(right) }
    }
}

impl Expr {
    /// The content of this tree: the same shape, with every array as the
    /// sequence of its numbers.
    pub open spec fn content(self) -> ExprView
        decreases self,
    {
        match self {
            Expr::Number(values) => ExprView::Number(values@),
            Expr::Diadic { left, infix, right } => ExprView::Diadic {
                left: Box::new(left.content()),
                infix,
                right: Box::new(right.content()),
            },
        }
    }
}

impl View for Expr {
    type V = ExprView;

    open spec fn view(&self) -> ExprView {
        self.content()
    }
}

/// Why a token sequence is not an expression.
#[derive(Clone, Copy, Debug, PartialEq, Eq, Structural)]
pub enum ParseError {
    /// The text of a literal does not denote a number that an array can hold.
    CouldNotParseNumber,
    /// A high minus is not followed by a number.
    ExpectedTokenAfterHighMinus,
    /// A token stands where an operator, a parenthesis or the end is due.
    UnexpectedToken,
}

impl ParseError {
    /// The wording of each error.
    pub open spec fn text(self) -> Seq<char> {
        match self {
            ParseError::CouldNotParseNumber => "couldn't parse number"@,
            ParseError::ExpectedTokenAfterHighMinus => "expected token after high minus"@,
            ParseError::UnexpectedToken => "unexpected token"@,
        }
    }

    /// A short message that names the error.
    pub fn message(&self) -> (msg: &'static str)
        ensures
            msg@ == self.text(),
    {
        match self {
            ParseError::CouldNotParseNumber => "couldn't parse number",
            ParseError::ExpectedTokenAfterHighMinus => "expected token after high minus",
            ParseError::UnexpectedToken => "unexpected token",
        }
    }
}

/// The value of the literal written as `text`, negated where a high minus
/// stands before it; `None` where the text denotes no number or the value
/// does not fit in [`Num`].
pub open spec fn literal(text: Seq<char>, negated: bool) -> Option<Num> {
    match number_of(text) {
        Some(v) => if !negated {
            Some(v)
        } else if v == Num::MIN {
            None
        } else {
            Some((-v) as Num)
        },
        None => None,
    }
}

/// `first` put in front of the values of `rest`, where `rest` is a run.
pub open spec fn prepend(first: Num, rest: Result<(Seq<Num>, int), ParseError>) -> Result<
    (Seq<Num>, int),
    ParseError,
> {
    match rest {
        Ok((values, next)) => Ok((seq![first] + values, next)),
        Err(e) => Err(e),
    }
}

/// The maximal run of literals that starts at token `i`: its values in order
/// and the index of the first token after it, or the first error in it.
///
/// A literal is a `Number`, or a `HighMinus` and the `Number` after it.  The
/// run may be empty.  A `HighMinus` with anything but a `Number` after it,
/// the end of the tokens included, is an error.
pub open spec fn term(tokens: Seq<TokenView>, i: int) -> Result<(Seq<Num>, int), ParseError>
    decreases tokens.len() - i,
{
    if i < 0 || i >= tokens.len() {
        Ok((Seq::empty(), i))
    } else {
        match tokens[i] {
            TokenView::Number(text) => match literal(text, false) {
                Some(v) => prepend(v, term(tokens, i + 1)),
                None => Err(ParseError::CouldNotParseNumber),
            },
            TokenView::HighMinus => if i + 1 < tokens.len() && tokens[i + 1] is Number {
                match literal(tokens[i + 1]->Number_0, true) {
                    Some(v) => prepend(v, term(tokens, i + 2)),
                    None => Err(ParseError::CouldNotParseNumber),
                }
            } else {
                Err(ParseError::ExpectedTokenAfterHighMinus)
            },
            _ => Ok((Seq::empty(), i)),
        }
    }
}

/// The expression that starts at token `i`, and the index of the first token
/// that it leaves unread; or the first error met.
///
/// It is a run of literals and whatever [`continued`] makes of it.
pub open spec fn expr_at(tokens: Seq<TokenView>, i: int) -> Result<(ExprView, int), ParseError>
    decreases tokens.len() - i, 1int,
{
    match term(tokens, i) {
        Ok((values, j)) => {
            proof {
                lemma_term_bounds(tokens, i);
            }
            continued(tokens, j, ExprView::Number(values))
        },
        Err(e) => Err(e),
    }
}

/// What becomes of the expression `acc`, read so far, given the tokens from
/// `i` on.
///
/// - At the end of the tokens it is complete.
/// - A right parenthesis completes it and is consumed.
/// - An operator takes the expression after it as right operand, `acc` as
///   left operand, and the result is continued.
/// - A left parenthesis puts the expression after it in the place of `acc`,
///   and the result is continued.
/// - Any other token is an error.
///
/// The expression after an operator or a left parenthesis always ends behind
/// that token and inside the tokens ([`lemma_expr_bounds`]); the condition on
/// `j` below is never false and only shows that the definition terminates.
pub open spec fn continued(tokens: Seq<TokenView>, i: int, acc: ExprView) -> Result<
    (ExprView, int),
    ParseError,
>
    decreases tokens.len() - i, 0int,
{
    if i < 0 || i >= tokens.len() {
        Ok((acc, i))
    } else {
        match tokens[i] {
            TokenView::Operator(op) => match expr_at(tokens, i + 1) {
                Ok((right, j)) => if i < j <= tokens.len() {
                    continued(tokens, j, ExprView::node(acc, op, right))
                } else {
                    Ok((acc, i))
                },
                Err(e) => Err(e),
            },
            TokenView::LeftParen => match expr_at(tokens, i + 1) {
                Ok((inner, j)) => if i < j <= tokens.len() {
                    continued(tokens, j, inner)
                } else {
                    Ok((acc, i))
                },
                Err(e) => Err(e),
            },
            TokenView::RightParen => Ok((acc, i + 1)),
            _ => Err(ParseError::UnexpectedToken),
        }
    }
}

/// The tree that `tokens` stand for, or the first error in them.
pub open spec fn parse_tokens(tokens: Seq<TokenView>) -> Result<ExprView, ParseError> {
    match expr_at(tokens, 0) {
        Ok((tree, _)) => Ok(tree),
        Err(e) => Err(e),
    }
}

/// A run ends at or behind the index where it starts, and inside the tokens.
pub proof fn lemma_term_bounds(tokens: Seq<TokenView>, i: int)
    ensures
        term(tokens, i) matches Ok((_, j)) ==> i <= j && (i <= tokens.len() ==> j <= tokens.len()),
    decreases tokens.len() - i,
{
    if 0 <= i < tokens.len() {
        match tokens[i] {
            TokenView::Number(_) => {
                lemma_term_bounds(tokens, i + 1);
            },
            TokenView::HighMinus => {
                if i + 1 < tokens.len() {
                    lemma_term_bounds(tokens, i + 2);
                }
            },
            _ => {},
        }
    }
}

/// An expression, and a continued one, ends at or behind the index where it
/// starts, and inside the tokens.
pub proof fn lemma_expr_bounds(tokens: Seq<TokenView>, i: int, acc: ExprView)
    ensures
        expr_at(tokens, i) matches Ok((_, j)) ==> i <= j && (i <= tokens.len() ==> j
            <= tokens.len()),
        continued(tokens, i, acc) matches Ok((_, j)) ==> i <= j && (i <= tokens.len() ==> j
            <= tokens.len()),
    decreases tokens.len() - i, 1int,
{
    lemma_continued_bounds(tokens, i, acc);
    lemma_term_bounds(tokens, i);
    if let Ok((values, j)) = term(tokens, i) {
        lemma_continued_bounds(tokens, j, ExprView::Number(values));
    }
}

/// The half of [`lemma_expr_bounds`] that speaks of [`continued`].
pub proof fn lemma_continued_bounds(tokens: Seq<TokenView>, i: int, acc: ExprView)
    ensures
        continued(tokens, i, acc) matches Ok((_, j)) ==> i <= j && (i <= tokens.len() ==> j
            <= tokens.len()),
    decreases tokens.len() - i, 0int,
{
    if 0 <= i < tokens.len() {
        match tokens[i] {
            TokenView::Operator(op) => {
                lemma_expr_bounds(tokens, i + 1, acc);
                if let Ok((right, j)) = expr_at(tokens, i + 1) {
                    lemma_continued_bounds(tokens, j, ExprView::node(acc, op, right));
                }
            },
            TokenView::LeftParen => {
                lemma_expr_bounds(tokens, i + 1, acc);
                if let Ok((inner, j)) = expr_at(tokens, i + 1) {
                    lemma_continued_bounds(tokens, j, inner);
                }
            },
            _ => {},
        }
    }
}

/// Operators group from the right.  Where the run of literals at `i` is
/// followed by an operator, and the expression after the operator reads to
/// the end of the tokens, the expression at `i` is that operator between the
/// run and all the rest.
pub proof fn lemma_operator_takes_the_rest(
    tokens: Seq<TokenView>,
    i: int,
    values: Seq<Num>,
    j: int,
    op: Op,
    right: ExprView,
)
    requires
        term(tokens, i) == Ok::<(Seq<Num>, int), ParseError>((values, j)),
        0 <= j < tokens.len(),
        tokens[j] == TokenView::Operator(op),
        expr_at(tokens, j + 1) == Ok::<(ExprView, int), ParseError>(
            (right, tokens.len() as int),
        ),
    ensures
        expr_at(tokens, i) == Ok::<(ExprView, int), ParseError>(
            (ExprView::node(ExprView::Number(values), op, right), tokens.len() as int),
        ),
{
    let whole = ExprView::node(ExprView::Number(values), op, right);
    assert(continued(tokens, tokens.len() as int, whole) == Ok::<(ExprView, int), ParseError>(
        (whole, tokens.len() as int),
    ));
    assert(continued(tokens, j, ExprView::Number(values)) == continued(
        tokens,
        tokens.len() as int,
        whole,
    ));
}

/// Every cluster of a run is a digit.
proof fn lemma_run_holds_digits(gs: Seq<Seq<char>>, i: int, k: int)
    requires
        0 <= i <= k < run_end(gs, i),
    ensures
        k < gs.len(),
        is_digit(gs[k]),
    decreases gs.len() - i,
{
    if i < gs.len() && is_digit(gs[i]) {
        if k > i {
            lemma_run_holds_digits(gs, i + 1, k);
        }
    }
}

/// Clusters that are digits, written one after the other, are as many
/// digits.
proof fn lemma_run_text_is_digits(gs: Seq<Seq<char>>, i: int, j: int)
    requires
        0 <= i <= j <= gs.len(),
        forall|k: int| i <= k < j ==> is_digit(#[trigger] gs[k]),
    ensures
        run_text(gs, i, j).len() == j - i,
        all_digits(run_text(gs, i, j)),
    decreases j - i,
{
    if i < j {
        lemma_run_text_is_digits(gs, i, j - 1);
    }
}

/// What the scanner hands over.  The text of every number token of a scan is
/// made of digits, at least one, so it denotes a number that is not
/// negative; it fails to be read only where that number is too large, and a
/// high minus before it never makes it fail.
pub proof fn lemma_scanned_numbers(gs: Seq<Seq<char>>, i: int, k: int)
    requires
        0 <= k < scan(gs, i).len(),
    ensures
        scan(gs, i)[k] matches TokenView::Number(text) ==> {
            &&& text.len() > 0
            &&& all_digits(text)
            &&& number_of(text) is None <==> decimal(text) > Num::MAX
            &&& literal(text, true) is None <==> literal(text, false) is None
        },
    decreases gs.len() - i,
{
    if 0 <= i < gs.len() {
        if is_digit(gs[i]) {
            let j = run_end(gs, i);
            lemma_run_end_bounds(gs, i + 1);
            if k == 0 {
                let text = run_text(gs, i, j);
                assert forall|m: int| i <= m < j implies is_digit(#[trigger] gs[m]) by {
                    lemma_run_holds_digits(gs, i, m);
                }
                lemma_run_text_is_digits(gs, i, j);
                lemma_decimal_nonnegative(text);
            } else {
                lemma_scanned_numbers(gs, j, k - 1);
            }
        } else {
            match symbol(gs[i]) {
                Some(token) => {
                    if k > 0 {
                        lemma_scanned_numbers(gs, i + 1, k - 1);
                    }
                },
                None => {
                    lemma_scanned_numbers(gs, i + 1, k);
                },
            }
        }
    }
}

/// `values` put in front of the values of `rest`, where `rest` is a run.
pub open spec fn prepend_all(values: Seq<Num>, rest: Result<(Seq<Num>, int), ParseError>) -> Result<
    (Seq<Num>, int),
    ParseError,
> {
    match rest {
        Ok((more, next)) => Ok((values + more, next)),
        Err(e) => Err(e),
    }
}

/// A parser over a sequence of tokens.
pub struct Parser {
    pub tokens: Vec<Token>,
}

impl Parser {
    /// The tokens of this parser as views.
    pub open spec fn views(&self) -> Seq<TokenView> {
        token_views(self.tokens@)
    }

    /// A parser over `tokens`.
    pub fn new(tokens: Vec<Token>) -> (parser: Self)
        ensures
            parser.tokens == tokens,
    {
        Self { tokens }
    }

    /// Parses the tokens from the first on into a tree.  Parsing stops at the
    /// first error and returns it.
    pub fn parse(&self) -> (r: Result<Expr, ParseError>)
        ensures
            parse_tokens(self.views()) == match r {
                Ok(tree) => Ok::<ExprView, ParseError>(tree@),
                Err(e) => Err::<ExprView, ParseError>(e),
            },
    {
        let mut index: usize = 0;
        self.p(&mut index)
    }

    /// Parses the expression that starts at `*index` and leaves `*index` at
    /// the first token that the expression does not take in.
    fn p(&self, index: &mut usize) -> (r: Result<Expr, ParseError>)
        ensures
            expr_at(self.views(), *old(index) as int) == match r {
                Ok(tree) => Ok::<(ExprView, int), ParseError>((tree@, *final(index) as int)),
                Err(e) => Err::<(ExprView, int), ParseError>(e),
            },
        decreases self.tokens.len() - *old(index),
    {
        let ghost views = self.views();
        let ghost start = *index as int;
        let len = self.tokens.len();
        let mut array: Array = Vec::new();
        assert(prepend_all(array@, term(views, start)) == term(views, start));
        loop
            invariant
                views == self.views(),
                len == self.tokens.len(),
                start == *old(index),
                start <= *index,
                start <= len ==> *index <= len,
                term(views, start) == prepend_all(array@, term(views, *index as int)),
            ensures
                term(views, start) == Ok::<(Seq<Num>, int), ParseError>((array@, *index as int)),
            decreases len - *index,
        {
            if *index >= len {
                break ;
            }
            let ghost at = *index as int;
            let ghost seen = array@;
            match &self.tokens[*index] {
                Token::Number(string) => {
                    match parse_number(string.as_str()) {
                        Some(num) => {
                            array.push(num);
                            *index += 1;
                            proof {
                                lemma_prepend_push(seen, num, term(views, at + 1));
                            }
                        },
                        None => {
                            return Err(ParseError::CouldNotParseNumber);
                        },
                    }
                },
                Token::HighMinus => {
                    *index += 1;
                    if *index >= len {
                        return Err(ParseError::ExpectedTokenAfterHighMinus);
                    }
                    match &self.tokens[*index] {
                        Token::Number(string) => {
                            match parse_number(string.as_str()) {
                                Some(num) => {
                                    if num == Num::MIN {
                                        return Err(ParseError::CouldNotParseNumber);
                                    }
                                    array.push(-num);
                                    *index += 1;
                                    proof {
                                        lemma_prepend_push(
                                            seen,
                                            (-num) as Num,
                                            term(views, at + 2),
                                        );
                                    }
                                },
                                None => {
                                    return Err(ParseError::CouldNotParseNumber);
                                },
                            }
                        },
                        _ => {
                            return Err(ParseError::ExpectedTokenAfterHighMinus);
                        },
                    }
                },
                _ => {
                    break ;
                },
            }
        }
        let mut expr = Expr::Number(array);
        loop
            invariant
                views == self.views(),
                len == self.tokens.len(),
                start == *old(index),
                start <= *index,
                start <= len ==> *index <= len,
                expr_at(views, start) == continued(views, *index as int, expr@),
            decreases len - *index,
        {
            if *index >= len {
                return Ok(expr);
            }
            let ghost at = *index as int;
            let ghost acc = expr@;
            proof {
                lemma_expr_bounds(views, at + 1, acc);
            }
            let token = &self.tokens[*index];
            *index += 1;
            match token {
                Token::Operator(infix) => {
                    match self.p(index) {
                        Ok(right) => {
                            expr =
                            Expr::Diadic {
                                left: Box::new(expr),
                                infix: *infix,
                                right: Box::new(right),
                            };
                        },
                        Err(e) => {
                            return Err(e);
                        },
                    }
                },
                Token::LeftParen => {
                    match self.p(index) {
                        Ok(inner) => {
                            expr = inner;
                        },
                        Err(e) => {
                            return Err(e);
                        },
                    }
                },
                Token::RightParen => {
                    return Ok(expr);
                },
                _ => {
                    return Err(ParseError::UnexpectedToken);
                },
            }
        }
    }
}

/// Putting `values` and then `v` in front of a run is putting `values` in
/// front of the run with `v` in front.
proof fn lemma_prepend_push(values: Seq<Num>, v: Num, rest: Result<(Seq<Num>, int), ParseError>)
    ensures
        prepend_all(values.push(v), rest) == prepend_all(values, prepend(v, rest)),
{
    if let Ok((more, next)) = rest {
        assert(values.push(v) + more =~= values + (seq![v] + more));
    }
}

} // verus!
