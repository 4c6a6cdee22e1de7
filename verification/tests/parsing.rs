use rpl::number::parse_number;
use rpl::parser::{Expr, ParseError, Parser};
use rpl::scanner::{Op, Token};

fn number(text: &str) -> Token {
    Token::Number(String::from(text))
}

fn parse(tokens: Vec<Token>) -> Result<Expr, ParseError> {
    Parser::new(tokens).parse()
}

fn literal(values: Vec<i64>) -> Expr {
    Expr::Number(values)
}

fn node(left: Expr, op: Op, right: Expr) -> Expr {
    Expr::Diadic { left: Box::new(left), infix: op, right: Box::new(right) }
}

#[test]
fn parser_keeps_its_tokens() {
    let parser = Parser::new(vec![number("1"), Token::HighMinus]);
    assert_eq!(parser.tokens, vec![number("1"), Token::HighMinus]);
}

#[test]
fn no_tokens_are_the_empty_literal() {
    assert_eq!(parse(vec![]), Ok(literal(vec![])));
}

#[test]
fn run_of_numbers_is_one_literal() {
    assert_eq!(parse(vec![number("1"), number("22"), number("333")]), Ok(literal(vec![1, 22, 333])));
}

#[test]
fn high_minus_negates_the_next_number_only() {
    assert_eq!(
        parse(vec![Token::HighMinus, number("5"), number("6"), Token::HighMinus, number("7")]),
        Ok(literal(vec![-5, 6, -7]))
    );
}

#[test]
fn operator_takes_the_rest_as_right_operand() {
    let tokens = vec![
        number("1"),
        Token::Operator(Op::Plus),
        number("2"),
        Token::Operator(Op::Minus),
        number("3"),
    ];
    assert_eq!(
        parse(tokens),
        Ok(node(
            literal(vec![1]),
            Op::Plus,
            node(literal(vec![2]), Op::Minus, literal(vec![3]))
        ))
    );
}

#[test]
fn operator_without_left_operand_has_the_empty_literal() {
    assert_eq!(
        parse(vec![Token::Operator(Op::Minus), number("5")]),
        Ok(node(literal(vec![]), Op::Minus, literal(vec![5])))
    );
}

#[test]
fn operator_at_the_end_has_the_empty_literal_on_its_right() {
    assert_eq!(
        parse(vec![number("5"), Token::Operator(Op::Times)]),
        Ok(node(literal(vec![5]), Op::Times, literal(vec![])))
    );
}

#[test]
fn parentheses_leave_no_node() {
    let tokens = vec![
        Token::LeftParen,
        number("1"),
        Token::Operator(Op::Plus),
        number("2"),
        Token::RightParen,
        Token::Operator(Op::Times),
        number("3"),
    ];
    assert_eq!(
        parse(tokens),
        Ok(node(
            node(literal(vec![1]), Op::Plus, literal(vec![2])),
            Op::Times,
            literal(vec![3])
        ))
    );
}

#[test]
fn right_parenthesis_at_the_top_ends_the_parse() {
    assert_eq!(
        parse(vec![number("1"), Token::RightParen, number("2"), Token::HighMinus]),
        Ok(literal(vec![1]))
    );
}

#[test]
fn left_parenthesis_after_a_literal_replaces_it() {
    assert_eq!(
        parse(vec![number("1"), Token::LeftParen, number("2"), Token::RightParen]),
        Ok(literal(vec![2]))
    );
}

#[test]
fn number_after_a_closed_group_is_unexpected() {
    assert_eq!(
        parse(vec![Token::LeftParen, number("1"), Token::RightParen, number("2")]),
        Err(ParseError::UnexpectedToken)
    );
    assert_eq!(
        parse(vec![Token::LeftParen, number("1"), Token::RightParen, Token::HighMinus, number("2")]),
        Err(ParseError::UnexpectedToken)
    );
}

#[test]
fn high_minus_needs_a_number() {
    assert_eq!(parse(vec![Token::HighMinus]), Err(ParseError::ExpectedTokenAfterHighMinus));
    assert_eq!(
        parse(vec![number("1"), Token::HighMinus]),
        Err(ParseError::ExpectedTokenAfterHighMinus)
    );
    assert_eq!(
        parse(vec![Token::HighMinus, Token::HighMinus, number("1")]),
        Err(ParseError::ExpectedTokenAfterHighMinus)
    );
    assert_eq!(
        parse(vec![Token::HighMinus, Token::Operator(Op::Plus), number("1")]),
        Err(ParseError::ExpectedTokenAfterHighMinus)
    );
    assert_eq!(
        parse(vec![Token::HighMinus, Token::LeftParen, number("1"), Token::RightParen]),
        Err(ParseError::ExpectedTokenAfterHighMinus)
    );
}

#[test]
fn number_text_must_denote_a_number() {
    assert_eq!(parse(vec![number("12a")]), Err(ParseError::CouldNotParseNumber));
    assert_eq!(parse(vec![number("")]), Err(ParseError::CouldNotParseNumber));
    assert_eq!(parse(vec![number("9223372036854775808")]), Err(ParseError::CouldNotParseNumber));
    assert_eq!(
        parse(vec![Token::HighMinus, number("9223372036854775808")]),
        Err(ParseError::CouldNotParseNumber)
    );
    assert_eq!(
        parse(vec![Token::HighMinus, number("x")]),
        Err(ParseError::CouldNotParseNumber)
    );
    assert_eq!(parse(vec![number("9223372036854775807")]), Ok(literal(vec![i64::MAX])));
}

#[test]
fn negated_number_must_fit() {
    assert_eq!(parse(vec![number("-9223372036854775808")]), Ok(literal(vec![i64::MIN])));
    assert_eq!(
        parse(vec![Token::HighMinus, number("-9223372036854775808")]),
        Err(ParseError::CouldNotParseNumber)
    );
    assert_eq!(parse(vec![Token::HighMinus, number("-5")]), Ok(literal(vec![5])));
}

#[test]
fn first_error_wins() {
    assert_eq!(
        parse(vec![number("x"), Token::HighMinus]),
        Err(ParseError::CouldNotParseNumber)
    );
    assert_eq!(
        parse(vec![Token::HighMinus, Token::RightParen, number("x")]),
        Err(ParseError::ExpectedTokenAfterHighMinus)
    );
    assert_eq!(
        parse(vec![
            number("1"),
            Token::Operator(Op::Plus),
            number("2"),
            Token::RightParen,
            number("3"),
            Token::LeftParen,
            number("4"),
        ]),
        Err(ParseError::UnexpectedToken)
    );
    assert_eq!(
        parse(vec![number("1"), Token::Operator(Op::Plus), Token::HighMinus]),
        Err(ParseError::ExpectedTokenAfterHighMinus)
    );
}

#[test]
fn error_in_a_group_is_the_error_of_the_whole() {
    assert_eq!(
        parse(vec![Token::LeftParen, number("1"), Token::Operator(Op::Plus), number("z")]),
        Err(ParseError::CouldNotParseNumber)
    );
}

#[test]
fn messages_name_the_errors() {
    assert_eq!(ParseError::CouldNotParseNumber.message(), "couldn't parse number");
    assert_eq!(
        ParseError::ExpectedTokenAfterHighMinus.message(),
        "expected token after high minus"
    );
    assert_eq!(ParseError::UnexpectedToken.message(), "unexpected token");
}

#[test]
fn parse_number_reads_digits() {
    assert_eq!(parse_number("0"), Some(0));
    assert_eq!(parse_number("7"), Some(7));
    assert_eq!(parse_number("42"), Some(42));
    assert_eq!(parse_number("1234567890"), Some(1234567890));
    assert_eq!(parse_number("000123"), Some(123));
    assert_eq!(parse_number("00000000000000000000000000000000000001"), Some(1));
}

#[test]
fn parse_number_reads_a_sign() {
    assert_eq!(parse_number("+5"), Some(5));
    assert_eq!(parse_number("-5"), Some(-5));
    assert_eq!(parse_number("-0"), Some(0));
    assert_eq!(parse_number("+"), None);
    assert_eq!(parse_number("-"), None);
    assert_eq!(parse_number("--5"), None);
    assert_eq!(parse_number("+-5"), None);
    assert_eq!(parse_number("5-"), None);
}

#[test]
fn parse_number_keeps_to_the_range() {
    assert_eq!(parse_number("9223372036854775807"), Some(i64::MAX));
    assert_eq!(parse_number("9223372036854775808"), None);
    assert_eq!(parse_number("-9223372036854775808"), Some(i64::MIN));
    assert_eq!(parse_number("-9223372036854775809"), None);
    assert_eq!(parse_number("99999999999999999999999999"), None);
    assert_eq!(parse_number("-99999999999999999999999999"), None);
}

#[test]
fn parse_number_refuses_other_text() {
    assert_eq!(parse_number(""), None);
    assert_eq!(parse_number(" 1"), None);
    assert_eq!(parse_number("1 "), None);
    assert_eq!(parse_number("1.0"), None);
    assert_eq!(parse_number("1e3"), None);
    assert_eq!(parse_number("0x10"), None);
    assert_eq!(parse_number("¯5"), None);
    assert_eq!(parse_number("٣"), None);
    assert_eq!(parse_number("1٣"), None);
    assert_eq!(parse_number("12a"), None);
}

#[test]
fn parse_number_reads_as_the_standard_library_does() {
    let samples = [
        "", "0", "-0", "+0", "1", "-1", "+1", "12", "0012", "-0012", "+", "-", "++1", "1+", "a", "1a",
        "a1", " 1", "1 ", "9223372036854775807", "9223372036854775808", "-9223372036854775808",
        "-9223372036854775809", "18446744073709551616", "1_000", "١٢٣", "1\u{301}", "\u{0}", "/", ":",
    ];
    for text in samples {
        assert_eq!(parse_number(text), text.parse::<i64>().ok());
    }
}
