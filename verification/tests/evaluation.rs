use rpl::interp::{eval, eval_source, interpret, try_eval_source, Failure, Fault};
use rpl::parser::{Expr, ParseError};
use rpl::scanner::Op;

fn equal_vec<T: std::cmp::PartialEq>(a: Vec<T>, b: Vec<T>) -> bool {
    if a.len() != b.len() {
        return false;
    }

    for i in 0..a.len() {
        if a[i] != b[i] {
            return false;
        }
    }

    true
}

fn node(left: Vec<i64>, op: Op, right: Vec<i64>) -> Expr {
    Expr::Diadic {
        left: Box::new(Expr::Number(left)),
        infix: op,
        right: Box::new(Expr::Number(right)),
    }
}

#[test]
fn test_no_ops() {
    assert!(equal_vec(eval_source("1").unwrap(), vec![1]));
    assert!(equal_vec(eval_source("2 3 4").unwrap(), vec![2, 3, 4]));
    assert!(equal_vec(eval_source("10 5 7").unwrap(), vec![10, 5, 7]));
}

#[test]
fn test_plus() {
    assert!(equal_vec(eval_source("1 + 1").unwrap(), vec![2]));
    assert!(equal_vec(eval_source("1 + 1 2").unwrap(), vec![2, 3]));
    assert!(equal_vec(eval_source("1 2 3 + 1 2 3").unwrap(), vec![2, 4, 6]));
    assert!(equal_vec(eval_source("9 1 2 + 1").unwrap(), vec![10, 2, 3]));
}

#[test]
fn test_minus() {
    assert!(equal_vec(eval_source("1 - 1").unwrap(), vec![0]));
    assert!(equal_vec(eval_source("1 2 - 1 1").unwrap(), vec![0, 1]));
    assert!(equal_vec(eval_source("1 - 1 2 3").unwrap(), vec![0, -1, -2]));
    assert!(equal_vec(eval_source("1 2 - 1 2").unwrap(), vec![0, 0]));
    assert!(equal_vec(eval_source("- 5 6 7").unwrap(), vec![-5, -6, -7]));
}

#[test]
fn literal_evaluates_to_itself() {
    assert_eq!(interpret(Expr::Number(vec![1, 2, 3])), Ok(vec![1, 2, 3]));
    assert_eq!(interpret(Expr::Number(vec![-7])), Ok(vec![-7]));
    assert_eq!(interpret(Expr::Number(vec![])), Ok(vec![]));
    assert_eq!(eval(Expr::Number(vec![i64::MIN, i64::MAX])), vec![i64::MIN, i64::MAX]);
}

#[test]
fn scalar_on_the_left_meets_every_entry() {
    assert_eq!(interpret(node(vec![2], Op::Times, vec![1, 2, 3])), Ok(vec![2, 4, 6]));
    assert_eq!(interpret(node(vec![10], Op::Minus, vec![1, 2, 3])), Ok(vec![9, 8, 7]));
    assert_eq!(interpret(node(vec![100], Op::Divide, vec![5, 10])), Ok(vec![20, 10]));
    assert_eq!(interpret(node(vec![4], Op::Floor, vec![1, 9])), Ok(vec![1, 4]));
    assert_eq!(interpret(node(vec![4], Op::Ceiling, vec![1, 9])), Ok(vec![4, 9]));
    assert_eq!(interpret(node(vec![4], Op::Plus, vec![1])), Ok(vec![5]));
}

#[test]
fn scalar_on_the_right_meets_every_entry() {
    assert_eq!(interpret(node(vec![1, 2, 3], Op::Times, vec![2])), Ok(vec![2, 4, 6]));
    assert_eq!(interpret(node(vec![1, 2, 3], Op::Minus, vec![1])), Ok(vec![0, 1, 2]));
    assert_eq!(interpret(node(vec![10, 20], Op::Divide, vec![5])), Ok(vec![2, 4]));
    assert_eq!(interpret(node(vec![1, 9], Op::Floor, vec![4])), Ok(vec![1, 4]));
    assert_eq!(interpret(node(vec![1, 9], Op::Ceiling, vec![4])), Ok(vec![4, 9]));
}

#[test]
fn equal_lengths_meet_entry_by_entry() {
    assert_eq!(interpret(node(vec![1, 2, 3], Op::Times, vec![4, 5, 6])), Ok(vec![4, 10, 18]));
    assert_eq!(interpret(node(vec![1, 2, 3], Op::Minus, vec![4, 5, 7])), Ok(vec![-3, -3, -4]));
    assert_eq!(interpret(node(vec![8, 9], Op::Divide, vec![2, 3])), Ok(vec![4, 3]));
    assert_eq!(interpret(node(vec![8, 1], Op::Floor, vec![2, 3])), Ok(vec![2, 1]));
    assert_eq!(interpret(node(vec![8, 1], Op::Ceiling, vec![2, 3])), Ok(vec![8, 3]));
}

#[test]
fn unequal_lengths_are_a_mismatch() {
    assert_eq!(
        interpret(node(vec![1, 2], Op::Plus, vec![1, 2, 3])),
        Err(Fault::Mismatch { left: 2, right: 3 })
    );
    assert_eq!(
        interpret(node(vec![1, 2, 3, 4], Op::Floor, vec![1, 2])),
        Err(Fault::Mismatch { left: 4, right: 2 })
    );
    assert_eq!(
        try_eval_source("1 2 + 1 2 3"),
        Err(Failure::Fault(Fault::Mismatch { left: 2, right: 3 }))
    );
}

#[test]
fn operators_group_from_the_right() {
    assert_eq!(eval_source("1 + 2 + 3"), Ok(vec![6]));
    assert_eq!(eval_source("10 - 2 - 3"), Ok(vec![11]));
    assert_eq!(eval_source("2 × 3 + 4"), Ok(vec![14]));
    assert_eq!(eval_source("100 ÷ 2 × 5"), Ok(vec![10]));
}

#[test]
fn tacks_select_an_operand() {
    assert_eq!(eval_source("3 4 ⊣ 9"), Ok(vec![3, 4]));
    assert_eq!(eval_source("3 4 ⊢ 9"), Ok(vec![9]));
    assert_eq!(eval_source("⊣ 9"), Ok(vec![9]));
    assert_eq!(eval_source("⊢ 9"), Ok(vec![9]));
    assert_eq!(eval_source("1 2 3 ⊣ 4 5"), Ok(vec![1, 2, 3]));
    assert_eq!(eval_source("1 2 3 ⊢ 4 5"), Ok(vec![4, 5]));
}

#[test]
fn high_minus_negates_one_literal() {
    assert_eq!(eval_source("¯5 6 + 1"), Ok(vec![-4, 7]));
    assert_eq!(eval_source("¯5 ¯6"), Ok(vec![-5, -6]));
    assert_eq!(eval_source("5 - ¯6"), Ok(vec![11]));
    assert_eq!(eval_source("¯9223372036854775807"), Ok(vec![-9223372036854775807]));
}

#[test]
fn parentheses_group() {
    assert_eq!(eval_source("(1 + 2) × 3"), Ok(vec![9]));
    assert_eq!(eval_source("2 × (1 + 2)"), Ok(vec![6]));
    assert_eq!(eval_source("(1 + 2) × (3 + 4)"), Ok(vec![21]));
    assert_eq!(eval_source("((1))"), Ok(vec![1]));
}

#[test]
fn right_parenthesis_ends_the_innermost_operand() {
    assert_eq!(eval_source("(1 + 2 + 3) × 4"), Ok(vec![21]));
    assert_eq!(eval_source("1 ) 2 3 +"), Ok(vec![1]));
}

#[test]
fn left_parenthesis_replaces_what_was_read() {
    assert_eq!(eval_source("1 (2)"), Ok(vec![2]));
}

#[test]
fn replicate_gives_the_empty_array() {
    assert_eq!(eval_source("1 2 / 3 4"), Ok(vec![]));
    assert_eq!(eval_source("/ 3"), Ok(vec![]));
    assert_eq!(interpret(node(vec![1, 2, 3], Op::Replicate, vec![7, 8])), Ok(vec![]));
}

#[test]
fn replicate_as_right_operand_is_a_fault() {
    assert_eq!(try_eval_source("2 / 3 / 4"), Err(Failure::Fault(Fault::NoRight)));
    assert_eq!(try_eval_source("1 + 2 / 3"), Err(Failure::Fault(Fault::NoRight)));
}

#[test]
fn replicate_as_left_operand_is_no_operand() {
    assert_eq!(eval_source("(2 / 3) + 1"), Ok(vec![1]));
    assert_eq!(eval_source("(2 / 3) - 1 2"), Ok(vec![-1, -2]));
}

#[test]
fn unknown_characters_are_passed_over() {
    assert_eq!(eval_source("1 @ 2"), Ok(vec![1, 2]));
    assert_eq!(eval_source("1 @+ 2"), Ok(vec![3]));
}

#[test]
fn empty_source_is_the_empty_array() {
    assert_eq!(eval_source(""), Ok(vec![]));
    assert_eq!(eval_source("   "), Ok(vec![]));
}

#[test]
fn missing_right_operand_is_a_fault() {
    assert_eq!(try_eval_source("1 +"), Err(Failure::Fault(Fault::NoRight)));
    assert_eq!(
        interpret(node(vec![1], Op::LeftTack, vec![])),
        Err(Fault::NoRight)
    );
    assert_eq!(interpret(node(vec![], Op::Plus, vec![])), Err(Fault::NoRight));
}

#[test]
fn missing_left_operand_applies_the_monadic_function() {
    assert_eq!(eval_source("+ 5 6"), Ok(vec![5, 6]));
    assert_eq!(eval_source("- 5 ¯6"), Ok(vec![-5, 6]));
    assert_eq!(eval_source("× 5"), Ok(vec![5]));
    assert_eq!(eval_source("÷ 5 0"), Ok(vec![5, 0]));
    assert_eq!(eval_source("⌊ 5"), Ok(vec![5]));
    assert_eq!(eval_source("⌈ 5"), Ok(vec![5]));
}

#[test]
fn division_rounds_toward_zero() {
    assert_eq!(eval_source("7 ÷ 2"), Ok(vec![3]));
    assert_eq!(eval_source("¯7 ÷ 2"), Ok(vec![-3]));
    assert_eq!(eval_source("7 ÷ ¯2"), Ok(vec![-3]));
    assert_eq!(eval_source("¯7 ÷ ¯2"), Ok(vec![3]));
    assert_eq!(eval_source("0 ÷ 5"), Ok(vec![0]));
}

#[test]
fn floor_is_the_lesser_and_ceiling_the_greater() {
    assert_eq!(eval_source("3 ⌊ 5"), Ok(vec![3]));
    assert_eq!(eval_source("3 ⌈ 5"), Ok(vec![5]));
    assert_eq!(eval_source("¯3 ⌊ ¯5"), Ok(vec![-5]));
    assert_eq!(eval_source("11 ⌈ 5 3 2"), Ok(vec![11, 11, 11]));
}

#[test]
fn division_by_zero_is_a_fault() {
    assert_eq!(try_eval_source("1 ÷ 0"), Err(Failure::Fault(Fault::DivideByZero)));
    assert_eq!(
        interpret(node(vec![4, 5, 6], Op::Divide, vec![2, 0, 0])),
        Err(Fault::DivideByZero)
    );
}

#[test]
fn results_out_of_range_are_a_fault() {
    assert_eq!(
        try_eval_source("9223372036854775807 + 1"),
        Err(Failure::Fault(Fault::Overflow))
    );
    assert_eq!(
        try_eval_source("¯9223372036854775807 - 2"),
        Err(Failure::Fault(Fault::Overflow))
    );
    assert_eq!(
        try_eval_source("4611686018427387904 × 2"),
        Err(Failure::Fault(Fault::Overflow))
    );
    assert_eq!(
        interpret(node(vec![i64::MIN], Op::Divide, vec![-1])),
        Err(Fault::Overflow)
    );
    assert_eq!(interpret(node(vec![], Op::Minus, vec![i64::MIN])), Err(Fault::Overflow));
    assert_eq!(interpret(node(vec![], Op::Minus, vec![i64::MAX])), Ok(vec![-i64::MAX]));
}

#[test]
fn first_fault_in_index_order_is_reported() {
    assert_eq!(
        interpret(node(vec![i64::MAX, 1], Op::Divide, vec![1, 0])),
        Err(Fault::DivideByZero)
    );
    assert_eq!(
        interpret(node(vec![i64::MIN, 1], Op::Divide, vec![-1, 0])),
        Err(Fault::Overflow)
    );
}

#[test]
fn fault_on_the_left_comes_before_fault_on_the_right() {
    let left = node(vec![1], Op::Divide, vec![0]);
    let right = node(vec![1, 2], Op::Plus, vec![1, 2, 3]);
    let tree = Expr::Diadic { left: Box::new(left), infix: Op::Plus, right: Box::new(right) };
    assert_eq!(interpret(tree), Err(Fault::DivideByZero));
}

#[test]
fn parse_errors_come_back_as_values() {
    assert_eq!(eval_source("¯"), Err(ParseError::ExpectedTokenAfterHighMinus));
    assert_eq!(eval_source("1 + 2) 3"), Err(ParseError::UnexpectedToken));
    assert_eq!(eval_source("9223372036854775808"), Err(ParseError::CouldNotParseNumber));
    assert_eq!(
        try_eval_source("¯ + 1"),
        Err(Failure::Parse(ParseError::ExpectedTokenAfterHighMinus))
    );
    assert_eq!(try_eval_source("(1) 2"), Err(Failure::Parse(ParseError::UnexpectedToken)));
}

#[test]
fn try_eval_source_agrees_with_eval_source() {
    for source in ["1", "1 + 1 2", "(1 + 2) × 3", "3 4 ⊣ 9", "¯5 6 + 1", "1 2 / 3", ""] {
        assert_eq!(try_eval_source(source), Ok(eval_source(source).unwrap()));
    }
}

#[test]
fn sample_program() {
    assert_eq!(try_eval_source("/3 4 3 1 ⊣ 3 ⊢ 11 ⌈ 5 3 2 "), Ok(vec![]));
    assert_eq!(eval_source("3 4 3 1 ⊣ 3 ⊢ 11 ⌈ 5 3 2 "), Ok(vec![3, 4, 3, 1]));
}
