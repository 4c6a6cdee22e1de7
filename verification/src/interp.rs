//! The evaluator: expression tree in, array out.
//!
//! [`eval_model`] gives every tree its value or the fault that keeps it from
//! having one.  [`interpret`] computes exactly that for any tree, and [`eval`]
//! hands back the bare array for a tree that is known to have a value.

use crate::parser::{parse_tokens, Array, Expr, ExprView, Num, ParseError, Parser};
use crate::scanner::{graphemes_of, scan, Op, Scanner};
use vstd::prelude::*;

verus! {

/// Why an expression has no value.
#[derive(Clone, Copy, Debug, PartialEq, Eq, Structural)]
pub enum Fault {
    /// The right operand of an operator is the empty array.
    NoRight,
    /// The operands differ in length and neither is a single number.
    Mismatch { left: usize, right: usize },
    /// A number is divided by zero.
    DivideByZero,
    /// The exact result of an operation does not fit in [`Num`].
    Overflow,
}

/// `v` can be held in a [`Num`].
pub open spec fn fits(v: int) -> bool {
    Num::MIN <= v <= Num::MAX
}

/// The quotient of `a` by `b` rounded toward zero, for `b` other than zero.
pub open spec fn quotient(a: int, b: int) -> int {
    let magnitude = (if a < 0 {
        -a
    } else {
        a
    }) / (if b < 0 {
        -b
    } else {
        b
    });
    if (a < 0) != (b < 0) {
        -magnitude
    } else {
        magnitude
    }
}

/// The functions of two numbers that an operator can apply entry by entry.
#[derive(Clone, Copy, Debug, PartialEq, Eq, Structural)]
pub enum DiadicFn {
    Add,
    Sub,
    Mul,
    Div,
    Min,
    Max,
}

/// The functions of one number that an operator can apply entry by entry.
#[derive(Clone, Copy, Debug, PartialEq, Eq, Structural)]
pub enum MonadicFn {
    Identity,
    Negate,
}

impl DiadicFn {
    /// The exact value of this function at `a` and `b`, as integers without
    /// bound.  For `Div` it is meant for `b` other than zero only.
    pub open spec fn value(self, a: int, b: int) -> int {
        match self {
            DiadicFn::Add => a + b,
            DiadicFn::Sub => a - b,
            DiadicFn::Mul => a * b,
            DiadicFn::Div => quotient(a, b),
            DiadicFn::Min => if a < b {
                a
            } else {
                b
            },
            DiadicFn::Max => if a > b {
                a
            } else {
                b
            },
        }
    }

    /// What applying this function to `a` and `b` gives: the exact value
    /// where it exists and fits, else the fault.
    pub open spec fn result(self, a: Num, b: Num) -> Result<Num, Fault> {
        if self == DiadicFn::Div && b == 0 {
            Err(Fault::DivideByZero)
        } else if !fits(self.value(a as int, b as int)) {
            Err(Fault::Overflow)
        } else {
            Ok(self.value(a as int, b as int) as Num)
        }
    }

    /// Applies this function to `a` and `b`.
    pub fn apply(self, a: Num, b: Num) -> (r: Result<Num, Fault>)
        ensures
            r == self.result(a, b),
    {
        let exact = match self {
            DiadicFn::Add => a.checked_add(b),
            DiadicFn::Sub => a.checked_sub(b),
            DiadicFn::Mul => a.checked_mul(b),
            DiadicFn::Div => {
                if b == 0 {
                    return Err(Fault::DivideByZero);
                }
                a.checked_div(b)
            },
            DiadicFn::Min => Some(
                if a < b {
                    a
                } else {
                    b
                },
            ),
            DiadicFn::Max => Some(
                if a > b {
                    a
                } else {
                    b
                },
            ),
        };
        match exact {
            Some(v) => Ok(v),
            None => Err(Fault::Overflow),
        }
    }
}

impl MonadicFn {
    /// The exact value of this function at `x`, as an integer without bound.
    pub open spec fn value(self, x: int) -> int {
        match self {
            MonadicFn::Identity => x,
            MonadicFn::Negate => -x,
        }
    }

    /// What applying this function to `x` gives: the exact value where it
    /// fits, else the fault.
    pub open spec fn result(self, x: Num) -> Result<Num, Fault> {
        if !fits(self.value(x as int)) {
            Err(Fault::Overflow)
        } else {
            Ok(self.value(x as int) as Num)
        }
    }

    /// Applies this function to `x`.
    pub fn apply(self, x: Num) -> (r: Result<Num, Fault>)
        ensures
            r == self.result(x),
    {
        match self {
            MonadicFn::Identity => Ok(x),
            MonadicFn::Negate => match 0i64.checked_sub(x) {
                Some(v) => Ok(v),
                None => Err(Fault::Overflow),
            },
        }
    }
}

/// The outcome of a whole array, given the outcome of each of its entries:
/// the values in order where every entry has one, else the fault of the
/// first entry that has none.
pub open spec fn gather(cells: Seq<Result<Num, Fault>>) -> Result<Seq<Num>, Fault> {
    if forall|i: int| 0 <= i < cells.len() ==> (#[trigger] cells[i]) is Ok {
        Ok(Seq::new(cells.len(), |i: int| cells[i]->Ok_0))
    } else {
        let first = choose|i: int|
            0 <= i < cells.len() && (#[trigger] cells[i]) is Err && forall|j: int|
                0 <= j < i ==> (#[trigger] cells[j]) is Ok;
        Err(cells[first]->Err_0)
    }
}

/// Where the entries before `i` have values and entry `i` has none, the
/// whole has the fault of entry `i`.
pub proof fn lemma_gather_fault(cells: Seq<Result<Num, Fault>>, i: int)
    requires
        0 <= i < cells.len(),
        cells[i] is Err,
        forall|j: int| 0 <= j < i ==> (#[trigger] cells[j]) is Ok,
    ensures
        gather(cells) == Err::<Seq<Num>, Fault>(cells[i]->Err_0),
{
    let first = choose|k: int|
        0 <= k < cells.len() && (#[trigger] cells[k]) is Err && forall|j: int|
            0 <= j < k ==> (#[trigger] cells[j]) is Ok;
    assert(first == i);
}

/// Where entry `k` has the value `values[k]` for every `k`, the whole has
/// the values `values`.
pub proof fn lemma_gather_values(cells: Seq<Result<Num, Fault>>, values: Seq<Num>)
    requires
        values.len() == cells.len(),
        forall|k: int| 0 <= k < cells.len() ==> #[trigger] cells[k] == Ok::<Num, Fault>(values[k]),
    ensures
        gather(cells) == Ok::<Seq<Num>, Fault>(values),
{
    assert(Seq::new(cells.len(), |i: int| cells[i]->Ok_0) =~= values);
}

impl Op {
    /// The two functions that this operator applies entry by entry: the first
    /// where it has a left operand, the second where it has none.  The tacks
    /// and replicate have no such pair.
    pub open spec fn functions(self) -> Option<(DiadicFn, MonadicFn)> {
        match self {
            Op::Plus => Some((DiadicFn::Add, MonadicFn::Identity)),
            Op::Minus => Some((DiadicFn::Sub, MonadicFn::Negate)),
            Op::Times => Some((DiadicFn::Mul, MonadicFn::Identity)),
            Op::Divide => Some((DiadicFn::Div, MonadicFn::Identity)),
            Op::Floor => Some((DiadicFn::Min, MonadicFn::Identity)),
            Op::Ceiling => Some((DiadicFn::Max, MonadicFn::Identity)),
            Op::LeftTack | Op::RightTack | Op::Replicate => None,
        }
    }
}

/// The outcome of applying a pair of functions to the arrays `l` and `r`
/// entry by entry.
///
/// - Without a left operand, `monadic` is applied to each entry of `r`.
/// - A single number on the left meets every entry of a longer `r`.
/// - A single number on the right meets every entry of a longer `l`.
/// - Arrays of one length meet entry by entry.
/// - Any other two lengths are a mismatch.
pub open spec fn entrywise_model(
    diadic: DiadicFn,
    monadic: MonadicFn,
    l: Seq<Num>,
    r: Seq<Num>,
) -> Result<Seq<Num>, Fault> {
    if l.len() == 0 {
        gather(r.map_values(|x: Num| monadic.result(x)))
    } else if l.len() == 1 && r.len() > 1 {
        gather(r.map_values(|x: Num| diadic.result(l[0], x)))
    } else if r.len() == 1 && l.len() > 1 {
        gather(l.map_values(|x: Num| diadic.result(x, r[0])))
    } else if l.len() == r.len() {
        gather(l.zip_with(r).map_values(|pair: (Num, Num)| diadic.result(pair.0, pair.1)))
    } else {
        Err(Fault::Mismatch { left: l.len() as usize, right: r.len() as usize })
    }
}

/// The outcome of the operator `op` between the arrays `l` and `r`.
///
/// A tack selects a whole operand: the left tack the left one, the right
/// tack the right one, and both the right one where the left is empty.
/// Replicate gives the empty array whatever its operands.
pub open spec fn apply_model(op: Op, l: Seq<Num>, r: Seq<Num>) -> Result<Seq<Num>, Fault> {
    match op.functions() {
        Some((diadic, monadic)) => entrywise_model(diadic, monadic, l, r),
        None => match op {
            Op::LeftTack => Ok(
                if l.len() == 0 {
                    r
                } else {
                    l
                },
            ),
            Op::RightTack => Ok(r),
            _ => Ok(Seq::empty()),
        },
    }
}

/// The value of the tree `e`, or the fault that keeps it from having one.
///
/// A literal is its array.  An operator node has the outcome of its operator
/// between the values of its operands; a fault in the left operand comes
/// before one in the right operand, and an empty right operand is a fault
/// for every operator.
pub open spec fn eval_model(e: ExprView) -> Result<Seq<Num>, Fault>
    decreases e,
{
    match e {
        ExprView::Number(values) => Ok(values),
        ExprView::Diadic { left, infix, right } => match eval_model(*left) {
            Ok(l) => match eval_model(*right) {
                Ok(r) => if r.len() == 0 {
                    Err(Fault::NoRight)
                } else {
                    apply_model(infix, l, r)
                },
                Err(fault) => Err(fault),
            },
            Err(fault) => Err(fault),
        },
    }
}

/// The outcome that a computed result stands for.
pub open spec fn outcome(r: Result<Array, Fault>) -> Result<Seq<Num>, Fault> {
    match r {
        Ok(values) => Ok(values@),
        Err(fault) => Err(fault),
    }
}

/// The entry of `s` that meets index `i` of the other operand: a single
/// number meets every index.
spec fn extended(s: Seq<Num>, i: int) -> Num {
    if s.len() == 1 {
        s[0]
    } else {
        s[i]
    }
}

/// Applies `diadic`, or `monadic` where `left` is empty, entry by entry.
fn entrywise(left: Array, right: Array, diadic: DiadicFn, monadic: MonadicFn) -> (r: Result<
    Array,
    Fault,
>)
    ensures
        outcome(r) == entrywise_model(diadic, monadic, left@, right@),
{
    let l = left.len();
    let r = right.len();
    let mut out: Array = Vec::new();
    let mut i: usize = 0;
    if l == 0 {
        let ghost cells = right@.map_values(|x: Num| monadic.result(x));
        while i < r
            invariant
                i <= r,
                r == right.len(),
                out@.len() == i,
                gather(cells) == entrywise_model(diadic, monadic, left@, right@),
                cells.len() == r,
                forall|k: int| 0 <= k < r ==> #[trigger] cells[k] == monadic.result(right@[k]),
                forall|k: int| 0 <= k < i ==> #[trigger] cells[k] == Ok::<Num, Fault>(out@[k]),
            decreases r - i,
        {
            match monadic.apply(right[i]) {
                Ok(v) => {
                    out.push(v);
                },
                Err(fault) => {
                    proof {
                        lemma_gather_fault(cells, i as int);
                    }
                    return Err(fault);
                },
            }
            i += 1;
        }
        proof {
            lemma_gather_values(cells, out@);
        }
        Ok(out)
    } else if l == r || (l == 1 && r > 1) || (r == 1 && l > 1) {
        let n = if l == 1 {
            r
        } else {
            l
        };
        let ghost cells = Seq::new(
            n as nat,
            |k: int| diadic.result(extended(left@, k), extended(right@, k)),
        );
        proof {
            if l == 1 && r > 1 {
                assert(cells =~= right@.map_values(|x: Num| diadic.result(left@[0], x)));
            } else if r == 1 && l > 1 {
                assert(cells =~= left@.map_values(|x: Num| diadic.result(x, right@[0])));
            } else {
                assert(cells =~= left@.zip_with(right@).map_values(
                    |pair: (Num, Num)| diadic.result(pair.0, pair.1),
                ));
            }
        }
        while i < n
            invariant
                i <= n,
                l == left.len(),
                r == right.len(),
                n == l || l == 1,
                n == r || r == 1,
                out@.len() == i,
                gather(cells) == entrywise_model(diadic, monadic, left@, right@),
                cells.len() == n,
                forall|k: int|
                    0 <= k < n ==> #[trigger] cells[k] == diadic.result(
                        extended(left@, k),
                        extended(right@, k),
                    ),
                forall|k: int| 0 <= k < i ==> #[trigger] cells[k] == Ok::<Num, Fault>(out@[k]),
            decreases n - i,
        {
            let a = if l == 1 {
                left[0]
            } else {
                left[i]
            };
            let b = if r == 1 {
                right[0]
            } else {
                right[i]
            };
            match diadic.apply(a, b) {
                Ok(v) => {
                    out.push(v);
                },
                Err(fault) => {
                    proof {
                        lemma_gather_fault(cells, i as int);
                    }
                    return Err(fault);
                },
            }
            i += 1;
        }
        proof {
            lemma_gather_values(cells, out@);
        }
        Ok(out)
    } else {
        Err(Fault::Mismatch { left: l, right: r })
    }
}

/// Sum, entry by entry; without a left operand, the right operand itself.
fn plus(left: Array, right: Array) -> (r: Result<Array, Fault>)
    ensures
        outcome(r) == apply_model(Op::Plus, left@, right@),
{
    entrywise(left, right, DiadicFn::Add, MonadicFn::Identity)
}

/// Difference, entry by entry; without a left operand, the negated right
/// operand.
fn minus(left: Array, right: Array) -> (r: Result<Array, Fault>)
    ensures
        outcome(r) == apply_model(Op::Minus, left@, right@),
{
    entrywise(left, right, DiadicFn::Sub, MonadicFn::Negate)
}

/// Product, entry by entry; without a left operand, the right operand
/// itself.
fn times(left: Array, right: Array) -> (r: Result<Array, Fault>)
    ensures
        outcome(r) == apply_model(Op::Times, left@, right@),
{
    entrywise(left, right, DiadicFn::Mul, MonadicFn::Identity)
}

/// Quotient rounded toward zero, entry by entry; without a left operand,
/// the right operand itself.
fn divide(left: Array, right: Array) -> (r: Result<Array, Fault>)
    ensures
        outcome(r) == apply_model(Op::Divide, left@, right@),
{
    entrywise(left, right, DiadicFn::Div, MonadicFn::Identity)
}

/// The greater of two entries, entry by entry; without a left operand, the
/// right operand itself.
fn ceil(left: Array, right: Array) -> (r: Result<Array, Fault>)
    ensures
        outcome(r) == apply_model(Op::Ceiling, left@, right@),
{
    entrywise(left, right, DiadicFn::Max, MonadicFn::Identity)
}

/// The lesser of two entries, entry by entry; without a left operand, the
/// right operand itself.
fn floor(left: Array, right: Array) -> (r: Result<Array, Fault>)
    ensures
        outcome(r) == apply_model(Op::Floor, left@, right@),
{
    entrywise(left, right, DiadicFn::Min, MonadicFn::Identity)
}

/// The side that a tack selects.
enum Tack {
    Left,
    Right,
}

/// The operand on the side `side`, or the right one where the left is empty.
fn tack(side: Tack, left: Array, right: Array) -> (value: Array)
    ensures
        value@ == if left@.len() == 0 {
            right@
        } else {
            match side {
                Tack::Left => left@,
                Tack::Right => right@,
            }
        },
{
    if left.len() == 0 {
        return right;
    }
    match side {
        Tack::Left => left,
        Tack::Right => right,
    }
}

/// Replicate is a name without a meaning of its own: it gives the empty
/// array whatever its operands.
fn replicate(_left: Array, _right: Array) -> (value: Array)
    ensures
        value@ == Seq::<Num>::empty(),
{
    Vec::new()
}

/// Evaluates `expr`: its value, or the fault that keeps it from having one.
pub fn interpret(expr: Expr) -> (r: Result<Array, Fault>)
    ensures
        outcome(r) == eval_model(expr@),
    decreases expr,
{
    match expr {
        Expr::Number(value) => Ok(value),
        Expr::Diadic { left, infix, right } => {
            let l = match interpret(*left) {
                Ok(l) => l,
                Err(fault) => {
                    return Err(fault);
                },
            };
            let r = match interpret(*right) {
                Ok(r) => r,
                Err(fault) => {
                    return Err(fault);
                },
            };
            if r.len() == 0 {
                return Err(Fault::NoRight);
            }
            match infix {
                Op::Plus => plus(l, r),
                Op::Minus => minus(l, r),
                Op::Times => times(l, r),
                Op::Divide => divide(l, r),
                Op::Ceiling => ceil(l, r),
                Op::Floor => floor(l, r),
                Op::LeftTack => Ok(tack(Tack::Left, l, r)),
                Op::RightTack => Ok(tack(Tack::Right, l, r)),
                Op::Replicate => Ok(replicate(l, r)),
            }
        },
    }
}

/// Evaluates a tree that has a value.
pub fn eval(expr: Expr) -> (value: Array)
    requires
        eval_model(expr@) is Ok,
    ensures
        eval_model(expr@) == Ok::<Seq<Num>, Fault>(value@),
{
    interpret(expr).unwrap()
}

/// Where every entry has a value, the whole has the values of the entries.
pub proof fn lemma_gather_total(cells: Seq<Result<Num, Fault>>)
    requires
        forall|i: int| 0 <= i < cells.len() ==> (#[trigger] cells[i]) is Ok,
    ensures
        gather(cells) == Ok::<Seq<Num>, Fault>(
            cells.map_values(|cell: Result<Num, Fault>| cell->Ok_0),
        ),
{
    lemma_gather_values(cells, cells.map_values(|cell: Result<Num, Fault>| cell->Ok_0));
}

/// The shape of a result.  Where a pair of functions applied entry by entry
/// gives an array, the array is as long as the right operand where the left
/// one is empty or a single number, and as long as the left operand
/// otherwise.
pub proof fn lemma_entrywise_length(
    diadic: DiadicFn,
    monadic: MonadicFn,
    l: Seq<Num>,
    r: Seq<Num>,
)
    ensures
        entrywise_model(diadic, monadic, l, r) matches Ok(values) ==> values.len() == if l.len()
            <= 1 {
            r.len()
        } else {
            l.len()
        },
{
}

/// A literal evaluates to its own array.
pub proof fn lemma_literal_identity(a: Seq<Num>)
    ensures
        eval_model(ExprView::Number(a)) == Ok::<Seq<Num>, Fault>(a),
{
}

/// Scalar extension on the left.  For an operator with the diadic function
/// `diadic`, a single number `s` on the left and an array `r` on the right
/// that is not empty: the result holds `diadic` of `s` and each entry of
/// `r`, in order; where some entry faults, the result is the first such
/// fault.
pub proof fn lemma_scalar_left(
    op: Op,
    diadic: DiadicFn,
    monadic: MonadicFn,
    s: Num,
    r: Seq<Num>,
)
    requires
        op.functions() == Some((diadic, monadic)),
        r.len() > 0,
    ensures
        eval_model(ExprView::node(ExprView::Number(seq![s]), op, ExprView::Number(r))) == gather(
            r.map_values(|x: Num| diadic.result(s, x)),
        ),
        (forall|i: int| 0 <= i < r.len() ==> diadic.result(s, #[trigger] r[i]) is Ok)
            ==> eval_model(ExprView::node(ExprView::Number(seq![s]), op, ExprView::Number(r)))
            == Ok::<Seq<Num>, Fault>(r.map_values(|x: Num| diadic.value(s as int, x as int) as Num)),
{
    reveal_with_fuel(eval_model, 2);
    let l = seq![s];
    let cells = r.map_values(|x: Num| diadic.result(s, x));
    if r.len() == 1 {
        assert(l.zip_with(r).map_values(|pair: (Num, Num)| diadic.result(pair.0, pair.1))
            =~= cells);
    }
    if forall|i: int| 0 <= i < r.len() ==> diadic.result(s, #[trigger] r[i]) is Ok {
        lemma_gather_total(cells);
        assert(cells.map_values(|cell: Result<Num, Fault>| cell->Ok_0) =~= r.map_values(
            |x: Num| diadic.value(s as int, x as int) as Num,
        ));
    }
}

/// Scalar extension on the right.  For an operator with the diadic function
/// `diadic`, an array `l` on the left that is not empty and a single number
/// `s` on the right: the result holds `diadic` of each entry of `l` and `s`,
/// in order; where some entry faults, the result is the first such fault.
pub proof fn lemma_scalar_right(
    op: Op,
    diadic: DiadicFn,
    monadic: MonadicFn,
    l: Seq<Num>,
    s: Num,
)
    requires
        op.functions() == Some((diadic, monadic)),
        l.len() > 0,
    ensures
        eval_model(ExprView::node(ExprView::Number(l), op, ExprView::Number(seq![s]))) == gather(
            l.map_values(|x: Num| diadic.result(x, s)),
        ),
        (forall|i: int| 0 <= i < l.len() ==> diadic.result(#[trigger] l[i], s) is Ok)
            ==> eval_model(ExprView::node(ExprView::Number(l), op, ExprView::Number(seq![s])))
            == Ok::<Seq<Num>, Fault>(l.map_values(|x: Num| diadic.value(x as int, s as int) as Num)),
{
    reveal_with_fuel(eval_model, 2);
    let r = seq![s];
    let cells = l.map_values(|x: Num| diadic.result(x, s));
    if l.len() == 1 {
        assert(l.zip_with(r).map_values(|pair: (Num, Num)| diadic.result(pair.0, pair.1))
            =~= cells);
    }
    if forall|i: int| 0 <= i < l.len() ==> diadic.result(#[trigger] l[i], s) is Ok {
        lemma_gather_total(cells);
        assert(cells.map_values(|cell: Result<Num, Fault>| cell->Ok_0) =~= l.map_values(
            |x: Num| diadic.value(x as int, s as int) as Num,
        ));
    }
}

/// Arrays of one length.  For an operator with the diadic function `diadic`
/// and two arrays of the same length, not empty: the result holds `diadic`
/// of the entries that stand at the same index, in order; where some entry
/// faults, the result is the first such fault.
pub proof fn lemma_equal_lengths(
    op: Op,
    diadic: DiadicFn,
    monadic: MonadicFn,
    l: Seq<Num>,
    r: Seq<Num>,
)
    requires
        op.functions() == Some((diadic, monadic)),
        l.len() == r.len(),
        l.len() > 0,
    ensures
        eval_model(ExprView::node(ExprView::Number(l), op, ExprView::Number(r))) == gather(
            l.zip_with(r).map_values(|pair: (Num, Num)| diadic.result(pair.0, pair.1)),
        ),
        (forall|i: int| 0 <= i < l.len() ==> diadic.result(#[trigger] l[i], r[i]) is Ok)
            ==> eval_model(ExprView::node(ExprView::Number(l), op, ExprView::Number(r)))
            == Ok::<Seq<Num>, Fault>(
            l.zip_with(r).map_values(
                |pair: (Num, Num)| diadic.value(pair.0 as int, pair.1 as int) as Num,
            ),
        ),
{
    reveal_with_fuel(eval_model, 2);
    let cells = l.zip_with(r).map_values(|pair: (Num, Num)| diadic.result(pair.0, pair.1));
    if forall|i: int| 0 <= i < l.len() ==> diadic.result(#[trigger] l[i], r[i]) is Ok {
        lemma_gather_total(cells);
        assert(cells.map_values(|cell: Result<Num, Fault>| cell->Ok_0) =~= l.zip_with(
            r,
        ).map_values(|pair: (Num, Num)| diadic.value(pair.0 as int, pair.1 as int) as Num));
    }
}

/// Arrays that do not conform.  For an operator that works entry by entry and
/// two arrays of different lengths, each longer than one, the result is a
/// mismatch fault that carries both lengths: nothing is cut to fit.
pub proof fn lemma_mismatch(op: Op, l: Seq<Num>, r: Seq<Num>)
    requires
        op.functions() is Some,
        l.len() > 1,
        r.len() > 1,
        l.len() != r.len(),
    ensures
        eval_model(ExprView::node(ExprView::Number(l), op, ExprView::Number(r))) == Err::<
            Seq<Num>,
            Fault,
        >(Fault::Mismatch { left: l.len() as usize, right: r.len() as usize }),
{
    reveal_with_fuel(eval_model, 2);
}

/// No left operand.  For an operator with the monadic function `monadic`,
/// an empty left operand and a right operand `r` that is not empty, the
/// result holds `monadic` of each entry of `r`.
pub proof fn lemma_monadic(op: Op, diadic: DiadicFn, monadic: MonadicFn, r: Seq<Num>)
    requires
        op.functions() == Some((diadic, monadic)),
        r.len() > 0,
    ensures
        eval_model(ExprView::node(ExprView::Number(Seq::empty()), op, ExprView::Number(r)))
            == gather(r.map_values(|x: Num| monadic.result(x))),
{
    reveal_with_fuel(eval_model, 2);
}

/// The tacks.  With a right operand that is not empty, the right tack gives
/// the right operand, and the left tack gives the left operand unless that is
/// empty, in which case it gives the right one too.
pub proof fn lemma_tacks(left: ExprView, right: ExprView, l: Seq<Num>, r: Seq<Num>)
    requires
        eval_model(left) == Ok::<Seq<Num>, Fault>(l),
        eval_model(right) == Ok::<Seq<Num>, Fault>(r),
        r.len() > 0,
    ensures
        eval_model(ExprView::node(left, Op::RightTack, right)) == Ok::<Seq<Num>, Fault>(r),
        eval_model(ExprView::node(left, Op::LeftTack, right)) == Ok::<Seq<Num>, Fault>(
            if l.len() == 0 {
                r
            } else {
                l
            },
        ),
{
}

/// Replicate.  Between operands that have values, the right one not empty,
/// replicate gives the empty array.
pub proof fn lemma_replicate_is_empty(left: ExprView, right: ExprView)
    requires
        eval_model(left) is Ok,
        eval_model(right) matches Ok(r) && r.len() > 0,
    ensures
        eval_model(ExprView::node(left, Op::Replicate, right)) == Ok::<Seq<Num>, Fault>(
            Seq::empty(),
        ),
{
}

/// Why a source text has no value.
#[derive(Clone, Copy, Debug, PartialEq, Eq, Structural)]
pub enum Failure {
    /// Its tokens are no expression.
    Parse(ParseError),
    /// Its expression faults.
    Fault(Fault),
}

/// What a source text comes to, given its grapheme clusters `gs`: the value
/// of the expression that its tokens stand for, or why it has none.
pub open spec fn source_model(gs: Seq<Seq<char>>) -> Result<Seq<Num>, Failure> {
    match parse_tokens(scan(gs, 0)) {
        Ok(tree) => match eval_model(tree) {
            Ok(values) => Ok(values),
            Err(fault) => Err(Failure::Fault(fault)),
        },
        Err(e) => Err(Failure::Parse(e)),
    }
}

/// `source` holds no expression that faults: either its tokens are no
/// expression, or its expression has a value.
pub open spec fn free_of_faults(source: Seq<char>) -> bool {
    !(source_model(graphemes_of(source)) matches Err(Failure::Fault(_)))
}

/// Tokenizes, parses and evaluates `source`, which must not fault: the value
/// of its expression, or the error that keeps it from being parsed.
pub fn eval_source(source: &str) -> (r: Result<Array, ParseError>)
    requires
        free_of_faults(source@),
    ensures
        source_model(graphemes_of(source@)) == match r {
            Ok(value) => Ok::<Seq<Num>, Failure>(value@),
            Err(e) => Err::<Seq<Num>, Failure>(Failure::Parse(e)),
        },
{
    let mut scanner = Scanner::new(source);
    scanner.tokenize();
    let parser = Parser::new(scanner.tokens);
    match parser.parse() {
        Ok(tree) => Ok(eval(tree)),
        Err(e) => Err(e),
    }
}

/// The fault in the expression of `source`, if its tokens are an expression
/// and the expression faults.
pub fn fault_of_source(source: &str) -> (fault: Option<Fault>)
    ensures
        match fault {
            Some(f) => source_model(graphemes_of(source@)) == Err::<Seq<Num>, Failure>(
                Failure::Fault(f),
            ),
            None => free_of_faults(source@),
        },
{
    let mut scanner = Scanner::new(source);
    scanner.tokenize();
    let parser = Parser::new(scanner.tokens);
    match parser.parse() {
        Ok(tree) => match interpret(tree) {
            Ok(_) => None,
            Err(f) => Some(f),
        },
        Err(_) => None,
    }
}

/// Tokenizes, parses and evaluates any `source`: the value of its
/// expression, or why it has none.  It looks for a fault first and
/// evaluates only a source that is free of faults.
pub fn try_eval_source(source: &str) -> (r: Result<Array, Failure>)
    ensures
        source_model(graphemes_of(source@)) == match r {
            Ok(value) => Ok::<Seq<Num>, Failure>(value@),
            Err(failure) => Err::<Seq<Num>, Failure>(failure),
        },
{
    match fault_of_source(source) {
        Some(f) => Err(Failure::Fault(f)),
        None => match eval_source(source) {
            Ok(value) => Ok(value),
            Err(e) => Err(Failure::Parse(e)),
        },
    }
}

} // verus!
