//! Tokens, numbers and trees written out as text.
//!
//! A number is written in base ten, a token as it stands in source text, an
//! array in brackets with its numbers separated by a comma and a space, and an
//! operator node in parentheses around its operands.

use crate::number::{all_digits, decimal, digit_value, lemma_decimal_push, number_of};
use crate::parser::{Array, Expr, ExprView, Num};
use crate::scanner::{scan, symbol_of_char, Op, Token, TokenView};
use vstd::prelude::*;
use vstd::string::*;

verus! {

impl Op {
    /// The glyph of this operator in source text.
    pub open spec fn glyph(self) -> char {
        match self {
            Op::Plus => '+',
            Op::Minus => '-',
            Op::Times => '×',
            Op::Divide => '÷',
            Op::Floor => '⌊',
            Op::Ceiling => '⌈',
            Op::LeftTack => '⊣',
            Op::RightTack => '⊢',
            Op::Replicate => '/',
        }
    }

    /// The glyph of this operator as text.
    pub fn symbol(&self) -> (s: &'static str)
        ensures
            s@ == seq![self.glyph()],
    {
        proof {
            reveal_strlit("+");
            reveal_strlit("-");
            reveal_strlit("×");
            reveal_strlit("÷");
            reveal_strlit("⌊");
            reveal_strlit("⌈");
            reveal_strlit("⊣");
            reveal_strlit("⊢");
            reveal_strlit("/");
        }
        let s = match self {
            Op::Plus => "+",
            Op::Minus => "-",
            Op::Times => "×",
            Op::Divide => "÷",
            Op::Floor => "⌊",
            Op::Ceiling => "⌈",
            Op::LeftTack => "⊣",
            Op::RightTack => "⊢",
            Op::Replicate => "/",
        };
        s
    }
}

/// The glyph of an operator is read back as that operator.
pub proof fn lemma_glyph_reads_back(op: Op)
    ensures
        symbol_of_char(op.glyph()) == Some(TokenView::Operator(op)),
{
}

/// A token other than a number, written out as one cluster, scans as itself.
pub proof fn lemma_written_symbol_scans_back(token: TokenView)
    requires
        token !is Number,
    ensures
        scan(seq![token.text()], 0) == seq![token],
{
    reveal_with_fuel(scan, 2);
}

impl TokenView {
    /// This token as it stands in source text.
    pub open spec fn text(self) -> Seq<char> {
        match self {
            TokenView::Number(digits) => digits,
            TokenView::HighMinus => seq!['¯'],
            TokenView::Operator(op) => seq![op.glyph()],
            TokenView::LeftParen => seq!['('],
            TokenView::RightParen => seq![')'],
        }
    }
}

impl Token {
    /// This token as it stands in source text.
    pub fn text(&self) -> (s: String)
        ensures
            s@ == self@.text(),
    {
        proof {
            reveal_strlit("¯");
            reveal_strlit("(");
            reveal_strlit(")");
        }
        let s = match self {
            Token::Number(value) => value.clone(),
            Token::HighMinus => String::from_str("¯"),
            Token::Operator(op) => String::from_str(op.symbol()),
            Token::LeftParen => String::from_str("("),
            Token::RightParen => String::from_str(")"),
        };
        s
    }
}

/// The character of the digit `d`.
pub open spec fn digit_char(d: int) -> char {
    ('0' as int + d) as char
}

/// The number `n` in base ten, without a sign and without leading zeros.
pub open spec fn digits_text(n: nat) -> Seq<char>
    decreases n,
{
    if n < 10 {
        seq![digit_char(n as int)]
    } else {
        digits_text(n / 10).push(digit_char(n as int % 10))
    }
}

/// The integer `n` in base ten, with `-` in front where it is negative.
pub open spec fn integer_text(n: int) -> Seq<char> {
    if n < 0 {
        seq!['-'] + digits_text((-n) as nat)
    } else {
        digits_text(n as nat)
    }
}

/// The digits written for a number are digits, and they denote the number.
pub proof fn lemma_digits_text(n: nat)
    ensures
        digits_text(n).len() > 0,
        all_digits(digits_text(n)),
        decimal(digits_text(n)) == n,
    decreases n,
{
    if n < 10 {
        let s = seq![digit_char(n as int)];
        assert(decimal(s) == 10 * decimal(s.drop_last()) + digit_value(s.last()));
    } else {
        lemma_digits_text(n / 10);
        let shorter = digits_text(n / 10);
        let c = digit_char(n as int % 10);
        lemma_decimal_push(shorter, c);
    }
}

/// A number written out and read again is the same number.
pub proof fn lemma_written_number_reads_back(n: Num)
    ensures
        number_of(integer_text(n as int)) == Some(n),
{
    let text = integer_text(n as int);
    if n < 0 {
        let digits = digits_text((-n) as nat);
        lemma_digits_text((-n) as nat);
        assert(text.skip(1) =~= digits);
    } else {
        lemma_digits_text(n as nat);
    }
}

/// The text of a single digit.
fn digit_text(d: u64) -> (s: &'static str)
    requires
        d < 10,
    ensures
        s@ == seq![digit_char(d as int)],
{
    proof {
        reveal_strlit("0");
        reveal_strlit("1");
        reveal_strlit("2");
        reveal_strlit("3");
        reveal_strlit("4");
        reveal_strlit("5");
        reveal_strlit("6");
        reveal_strlit("7");
        reveal_strlit("8");
        reveal_strlit("9");
    }
    let s = if d == 0 {
        "0"
    } else if d == 1 {
        "1"
    } else if d == 2 {
        "2"
    } else if d == 3 {
        "3"
    } else if d == 4 {
        "4"
    } else if d == 5 {
        "5"
    } else if d == 6 {
        "6"
    } else if d == 7 {
        "7"
    } else if d == 8 {
        "8"
    } else {
        "9"
    };
    s
}

/// Appends the digits of `n` to `out`.
fn push_digits(out: &mut String, n: u64)
    ensures
        final(out)@ == old(out)@ + digits_text(n as nat),
    decreases n,
{
    if n >= 10 {
        push_digits(out, n / 10);
    }
    out.append(digit_text(n % 10));
}

/// Appends the number `n` in base ten to `out`.
fn push_number(out: &mut String, n: Num)
    ensures
        final(out)@ == old(out)@ + integer_text(n as int),
{
    if n < 0 {
        out.append("-");
        let magnitude: u64 = if n == Num::MIN {
            9223372036854775808u64
        } else {
            (-n) as u64
        };
        push_digits(out, magnitude);
        proof {
            reveal_strlit("-");
        }
    } else {
        push_digits(out, n as u64);
    }
}

/// The number `n` in base ten.
pub fn number_text(n: Num) -> (s: String)
    ensures
        s@ == integer_text(n as int),
{
    let mut s = String::new();
    push_number(&mut s, n);
    s
}

/// The numbers `values[..k]` in base ten, with a comma and a space between
/// one and the next.
pub open spec fn list_text(values: Seq<Num>, k: int) -> Seq<char>
    decreases k,
{
    if k <= 0 {
        Seq::empty()
    } else if k == 1 {
        integer_text(values[0] as int)
    } else {
        list_text(values, k - 1) + seq![',', ' '] + integer_text(values[k - 1] as int)
    }
}

/// The array `values` in brackets.
pub open spec fn array_text(values: Seq<Num>) -> Seq<char> {
    seq!['['] + list_text(values, values.len() as int) + seq![']']
}

impl ExprView {
    /// This tree as text: a literal as its array, an operator node as its
    /// left operand, its glyph and its right operand, with a space between
    /// them and parentheses around them.
    pub open spec fn text(self) -> Seq<char>
        decreases self,
    {
        match self {
            ExprView::Number(values) => array_text(values),
            ExprView::Diadic { left, infix, right } => seq!['('] + left.text() + seq![' '] + seq![
                infix.glyph(),
            ] + seq![' '] + right.text() + seq![')'],
        }
    }
}

/// Appends the array `values` in brackets to `out`.
fn push_array(out: &mut String, values: &Array)
    ensures
        final(out)@ == old(out)@ + array_text(values@),
{
    proof {
        reveal_strlit("[");
        reveal_strlit("]");
    }
    out.append("[");
    let n = values.len();
    let mut k: usize = 0;
    while k < n
        invariant
            k <= n,
            n == values.len(),
            out@ == old(out)@ + seq!['['] + list_text(values@, k as int),
        decreases n - k,
    {
        if k > 0 {
            out.append(", ");
        }
        push_number(out, values[k]);
        k += 1;
        proof {
            reveal_strlit(", ");
        }
    }
    out.append("]");
}

impl Expr {
    /// Appends this tree as text to `out`.
    fn push_text(&self, out: &mut String)
        ensures
            final(out)@ == old(out)@ + self@.text(),
        decreases self,
    {
        match self {
            Expr::Number(values) => {
                push_array(out, values);
            },
            Expr::Diadic { left, infix, right } => {
                proof {
                    reveal_strlit("(");
                    reveal_strlit(" ");
                    reveal_strlit(")");
                }
                out.append("(");
                left.push_text(out);
                out.append(" ");
                out.append(infix.symbol());
                out.append(" ");
                right.push_text(out);
                out.append(")");
            },
        }
    }

    /// This tree as text.
    pub fn text(&self) -> (s: String)
        ensures
            s@ == self@.text(),
    {
        let mut s = String::new();
        self.push_text(&mut s);
        s
    }
}

} // verus!
