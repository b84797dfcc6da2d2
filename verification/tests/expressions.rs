use basecalc::eval::{apply_operator, eval_expr, normalize, EvalError, NORMALIZATION_LIMIT};
use basecalc::literal::DoubleCodec;
use basecalc::postfix::infix_to_postfix;
use basecalc::session::calculate;
use basecalc::token::{parse_expr, symbol, white_space, Token};

struct Doubles;

impl DoubleCodec for Doubles {
    fn text_of_bits(&self, bits: u64) -> String {
        f64::from_bits(bits).to_string()
    }

    fn bits_of_text(&self, text: &str) -> Option<u64> {
        text.parse::<f64>().ok().map(f64::to_bits)
    }
}

/// A codec that keeps the converter going: every text it hands out asks for
/// another conversion.
struct Endless;

impl DoubleCodec for Endless {
    fn text_of_bits(&self, _bits: u64) -> String {
        "Fx0".to_string()
    }

    fn bits_of_text(&self, _text: &str) -> Option<u64> {
        None
    }
}

fn number(text: &str) -> Token {
    Token::Number(text.to_string())
}

fn tokens_of(line: &str) -> Vec<Token> {
    parse_expr(line, &Doubles).tokens
}

fn value_of(line: &str) -> Result<i64, EvalError> {
    calculate(line, &Doubles).value
}

#[test]
fn white_space_is_what_unicode_lists() {
    for code in 0..0x11_0000u32 {
        if let Some(c) = char::from_u32(code) {
            assert_eq!(white_space(c), c.is_whitespace(), "{:x}", code);
        }
    }
}

#[test]
fn six_characters_are_symbols() {
    assert_eq!(symbol('+'), Some(Token::Plus));
    assert_eq!(symbol('-'), Some(Token::Minus));
    assert_eq!(symbol('*'), Some(Token::Star));
    assert_eq!(symbol('/'), Some(Token::Slash));
    assert_eq!(symbol('('), Some(Token::LParen));
    assert_eq!(symbol(')'), Some(Token::RParen));
    assert_eq!(symbol('x'), None);
    assert_eq!(symbol('1'), None);
    assert_eq!(symbol(' '), None);
    assert_eq!(symbol('%'), None);
}

#[test]
fn a_line_is_cut_into_tokens() {
    assert_eq!(
        tokens_of("3 + 4 * 2"),
        vec![number("0x3"), Token::Plus, number("0x4"), Token::Star, number("0x2")]
    );
    assert_eq!(
        tokens_of("(0x1f-101d)/b5"),
        vec![
            Token::LParen,
            number("31"),
            Token::Minus,
            number("5"),
            Token::RParen,
            Token::Slash,
            number("101b"),
        ]
    );
    assert_eq!(tokens_of(""), Vec::<Token>::new());
    assert_eq!(tokens_of("   "), Vec::<Token>::new());
    assert_eq!(tokens_of("+"), vec![Token::Plus]);
    assert_eq!(tokens_of("1.5f"), vec![number("0x3ff8000000000000")]);
}

#[test]
fn white_space_does_not_end_a_literal() {
    assert_eq!(tokens_of("1 2"), vec![number("0xc")]);
    assert_eq!(tokens_of("0x 1f"), vec![number("31")]);
    assert_eq!(tokens_of("3\t+\t4\n"), vec![number("0x3"), Token::Plus, number("0x4")]);
    assert_eq!(tokens_of(" 7 \r\n"), vec![number("0x7")]);
}

#[test]
fn a_refused_literal_leaves_no_token() {
    let out = parse_expr("zz + 1", &Doubles);
    assert_eq!(out.tokens, vec![Token::Plus, number("0x1")]);
    assert_eq!(out.rejected, vec!["zz".to_string()]);

    let out = parse_expr("1 + 12a", &Doubles);
    assert_eq!(out.tokens, vec![number("0x1"), Token::Plus]);
    assert_eq!(out.rejected, vec!["12a".to_string()]);

    let out = parse_expr("q*(w)", &Doubles);
    assert_eq!(out.tokens, vec![Token::Star, Token::LParen, Token::RParen]);
    assert_eq!(out.rejected, vec!["q".to_string(), "w".to_string()]);
}

#[test]
fn a_refused_literal_does_not_reach_the_next_one() {
    let out = parse_expr("zz+1", &Doubles);
    assert_eq!(out.tokens, vec![Token::Plus, number("0x1")]);
    assert_eq!(out.rejected, vec!["zz".to_string()]);
}

#[test]
fn a_sign_is_an_operator() {
    assert_eq!(tokens_of("-5"), vec![Token::Minus, number("0x5")]);
    // The sign cuts `0x-1` in two: `0x` holds no digits, and `1` is decimal.
    let out = parse_expr("0x-1", &Doubles);
    assert_eq!(out.rejected, vec!["0x".to_string()]);
    assert_eq!(out.tokens, vec![Token::Minus, number("0x1")]);
    // What follows the sign in `0x-1f` ends with `f`: the double one.
    assert_eq!(tokens_of("0x-1f"), vec![Token::Minus, number("0x3ff0000000000000")]);
}

#[test]
fn operators_weigh_the_same() {
    let postfix = infix_to_postfix(tokens_of("3 + 4 * 2"));
    assert_eq!(
        postfix,
        vec![number("0x3"), number("0x4"), Token::Plus, number("0x2"), Token::Star]
    );
    assert_eq!(eval_expr(postfix, &Doubles), Ok(14));
    assert_eq!(value_of("3 + 4 * 2"), Ok(14));
    assert_eq!(value_of("3 + (4 * 2)"), Ok(11));
    assert_eq!(value_of("2 * 4 + 3"), Ok(11));
    assert_eq!(value_of("10 - 2 - 3"), Ok(5));
    assert_eq!(value_of("100 / 5 / 2"), Ok(10));
}

#[test]
fn parentheses_group() {
    let postfix = infix_to_postfix(tokens_of("(3 + 4) * 2"));
    assert_eq!(
        postfix,
        vec![number("0x3"), number("0x4"), Token::Plus, number("0x2"), Token::Star]
    );
    assert_eq!(value_of("(3 + 4) * 2"), Ok(14));
    assert_eq!(value_of("2 * (3 + 4)"), Ok(14));
    assert_eq!(value_of("((2))"), Ok(2));
    assert_eq!(value_of("10 - (2 - 3)"), Ok(11));
    assert_eq!(value_of("(1 + 2) * (3 + (4 - 1))"), Ok(18));
}

#[test]
fn postfix_of_plain_token_lists() {
    assert_eq!(infix_to_postfix(Vec::new()), Vec::<Token>::new());
    assert_eq!(infix_to_postfix(vec![number("1")]), vec![number("1")]);
    assert_eq!(
        infix_to_postfix(vec![number("1"), Token::Minus, number("2"), Token::Slash, number("3")]),
        vec![number("1"), number("2"), Token::Minus, number("3"), Token::Slash]
    );
    assert_eq!(
        infix_to_postfix(vec![
            number("1"),
            Token::Minus,
            Token::LParen,
            number("2"),
            Token::Slash,
            number("3"),
            Token::RParen,
        ]),
        vec![number("1"), number("2"), number("3"), Token::Slash, Token::Minus]
    );
    assert_eq!(infix_to_postfix(vec![Token::Plus, Token::Star]), vec![Token::Plus, Token::Star]);
}

#[test]
fn a_closing_parenthesis_that_nothing_opened_is_passed_over() {
    assert_eq!(
        infix_to_postfix(tokens_of("3 + 4)")),
        vec![number("0x3"), number("0x4"), Token::Plus]
    );
    assert_eq!(value_of("3 + 4)"), Ok(7));
    assert_eq!(value_of("3 + 4) * 2"), Ok(14));
    assert_eq!(infix_to_postfix(vec![Token::RParen]), Vec::<Token>::new());
    assert_eq!(value_of(")"), Err(EvalError::InvalidExpression));
}

#[test]
fn an_open_parenthesis_that_nothing_closes_reaches_the_output() {
    assert_eq!(
        infix_to_postfix(tokens_of("(3 + 4")),
        vec![number("0x3"), number("0x4"), Token::Plus, Token::LParen]
    );
    assert_eq!(value_of("(3 + 4"), Err(EvalError::UnexpectedToken));
    assert_eq!(
        infix_to_postfix(tokens_of("1 * (2 + (3")),
        vec![
            number("0x1"),
            number("0x2"),
            number("0x3"),
            Token::LParen,
            Token::Plus,
            Token::LParen,
            Token::Star,
        ]
    );
    assert_eq!(value_of("("), Err(EvalError::UnexpectedToken));
}

#[test]
fn division_by_zero_is_an_error() {
    assert_eq!(value_of("5 / 0"), Err(EvalError::DivisionByZero));
    assert_eq!(EvalError::DivisionByZero.message(), "Division by zero");
    assert_eq!(value_of("0 / 5"), Ok(0));
    assert_eq!(value_of("5 / (3 - 3)"), Err(EvalError::DivisionByZero));
    // The left-hand operand is looked for first.
    assert_eq!(
        eval_expr(vec![number("0"), Token::Slash], &Doubles),
        Err(EvalError::InvalidExpression)
    );
}

#[test]
fn an_operator_needs_two_numbers() {
    assert_eq!(value_of("+"), Err(EvalError::InvalidExpression));
    assert_eq!(EvalError::InvalidExpression.message(), "Invalid expression");
    assert_eq!(value_of("1 +"), Err(EvalError::InvalidExpression));
    assert_eq!(value_of("* 2"), Err(EvalError::InvalidExpression));
    assert_eq!(value_of("-5"), Err(EvalError::InvalidExpression));
    assert_eq!(value_of(""), Err(EvalError::InvalidExpression));
    assert_eq!(eval_expr(Vec::new(), &Doubles), Err(EvalError::InvalidExpression));
}

#[test]
fn a_parenthesis_is_unexpected() {
    assert_eq!(eval_expr(vec![Token::LParen], &Doubles), Err(EvalError::UnexpectedToken));
    assert_eq!(
        eval_expr(vec![number("1"), number("2"), Token::RParen], &Doubles),
        Err(EvalError::UnexpectedToken)
    );
    assert_eq!(EvalError::UnexpectedToken.message(), "Unexpected token");
}

#[test]
fn the_first_error_is_the_one_returned() {
    assert_eq!(
        eval_expr(vec![Token::Plus, Token::LParen], &Doubles),
        Err(EvalError::InvalidExpression)
    );
    assert_eq!(
        eval_expr(vec![Token::LParen, Token::Plus], &Doubles),
        Err(EvalError::UnexpectedToken)
    );
    assert_eq!(
        eval_expr(vec![number("zz"), Token::LParen], &Doubles),
        Err(EvalError::NormalizationLimitExceeded)
    );
    assert_eq!(
        eval_expr(vec![Token::LParen, number("zz")], &Doubles),
        Err(EvalError::UnexpectedToken)
    );
}

#[test]
fn numbers_left_below_the_top_are_passed_over() {
    assert_eq!(eval_expr(vec![number("1"), number("2")], &Doubles), Ok(2));
    assert_eq!(value_of("(3)(4)"), Ok(4));
    assert_eq!(eval_expr(vec![number("7"), number("1"), number("2"), Token::Plus], &Doubles), Ok(3));
}

#[test]
fn the_operand_pushed_first_stands_on_the_left() {
    assert_eq!(eval_expr(vec![number("7"), number("2"), Token::Minus], &Doubles), Ok(5));
    assert_eq!(eval_expr(vec![number("2"), number("7"), Token::Minus], &Doubles), Ok(-5));
    assert_eq!(eval_expr(vec![number("7"), number("2"), Token::Slash], &Doubles), Ok(3));
    assert_eq!(eval_expr(vec![number("2"), number("7"), Token::Slash], &Doubles), Ok(0));
    assert_eq!(eval_expr(vec![number("6"), number("7"), Token::Star], &Doubles), Ok(42));
    assert_eq!(eval_expr(vec![number("6"), number("7"), Token::Plus], &Doubles), Ok(13));
}

#[test]
fn division_rounds_toward_zero() {
    for (b, a) in [(7i64, 2i64), (-7, 2), (7, -2), (-7, -2), (0, -3), (6, 3), (-6, 3), (1, -5)] {
        assert_eq!(
            eval_expr(vec![number(&b.to_string()), number(&a.to_string()), Token::Slash], &Doubles),
            Ok(b / a)
        );
    }
}

#[test]
fn a_result_that_does_not_fit_is_an_overflow() {
    assert_eq!(value_of("9223372036854775807 + 1"), Err(EvalError::Overflow));
    assert_eq!(value_of("9223372036854775807 + 0"), Ok(i64::MAX));
    assert_eq!(value_of("4294967296 * 4294967296"), Err(EvalError::Overflow));
    assert_eq!(value_of("(0 - 9223372036854775807 - 1) - 1"), Err(EvalError::Overflow));
    assert_eq!(value_of("0 - 9223372036854775807 - 1"), Ok(i64::MIN));
    let min = i64::MIN.to_string();
    assert_eq!(
        eval_expr(vec![number(&min), number("-1"), Token::Slash], &Doubles),
        Err(EvalError::Overflow)
    );
    assert_eq!(
        eval_expr(vec![number(&min), number("-1"), Token::Star], &Doubles),
        Err(EvalError::Overflow)
    );
    assert_eq!(eval_expr(vec![number(&min), number("1"), Token::Slash], &Doubles), Ok(i64::MIN));
    assert_eq!(EvalError::Overflow.message(), "Arithmetic overflow");
}

#[test]
fn apply_operator_changes_the_stack() {
    let mut stack = vec![1, 20, 4];
    assert_eq!(apply_operator(&mut stack, &Token::Minus), Ok(()));
    assert_eq!(stack, vec![1, 16]);
    assert_eq!(apply_operator(&mut stack, &Token::Star), Ok(()));
    assert_eq!(stack, vec![16]);
    assert_eq!(apply_operator(&mut stack, &Token::Plus), Err(EvalError::InvalidExpression));
    assert_eq!(stack, vec![16]);
    stack.push(0);
    assert_eq!(apply_operator(&mut stack, &Token::Slash), Err(EvalError::DivisionByZero));
    assert_eq!(stack, vec![16, 0]);
    assert_eq!(apply_operator(&mut stack, &Token::LParen), Err(EvalError::UnexpectedToken));
    assert_eq!(apply_operator(&mut stack, &Token::RParen), Err(EvalError::UnexpectedToken));
    assert_eq!(apply_operator(&mut stack, &number("1")), Err(EvalError::UnexpectedToken));
    assert_eq!(stack, vec![16, 0]);
    let mut stack = vec![i64::MAX, 1];
    assert_eq!(apply_operator(&mut stack, &Token::Plus), Err(EvalError::Overflow));
    assert_eq!(stack, vec![i64::MAX, 1]);
    let mut empty: Vec<i64> = Vec::new();
    assert_eq!(apply_operator(&mut empty, &Token::LParen), Err(EvalError::UnexpectedToken));
    assert_eq!(apply_operator(&mut empty, &Token::Slash), Err(EvalError::InvalidExpression));
}

#[test]
fn a_number_token_is_converted_until_it_is_decimal() {
    assert_eq!(normalize("12", &Doubles), Some(12));
    assert_eq!(normalize("-12", &Doubles), Some(-12));
    assert_eq!(normalize("+12", &Doubles), Some(12));
    assert_eq!(normalize("0x10", &Doubles), Some(16));
    assert_eq!(normalize("0xff", &Doubles), Some(255));
    assert_eq!(normalize("101b", &Doubles), Some(5));
    assert_eq!(normalize("b5", &Doubles), Some(5));
    assert_eq!(normalize("17o", &Doubles), Some(15));
    assert_eq!(normalize("101d", &Doubles), Some(5));
    assert_eq!(normalize("Fx4014000000000000", &Doubles), Some(5));
    assert_eq!(normalize("-9223372036854775808", &Doubles), Some(i64::MIN));
    // Binary and octal digits without a marker are taken for decimal.
    assert_eq!(normalize("Bx5", &Doubles), Some(101));
    assert_eq!(normalize("Ox8", &Doubles), Some(10));
}

#[test]
fn a_number_token_that_never_becomes_decimal_is_an_error() {
    assert_eq!(normalize("zz", &Doubles), None);
    assert_eq!(normalize("", &Doubles), None);
    assert_eq!(normalize("-", &Doubles), None);
    assert_eq!(normalize("1-2", &Doubles), None);
    assert_eq!(normalize("1.5", &Doubles), None);
    assert_eq!(normalize("٣", &Doubles), None);
    assert_eq!(normalize("9223372036854775808", &Doubles), None);
    assert_eq!(normalize("Fx3ff8000000000000", &Doubles), None);
    assert_eq!(normalize("Fx7ff0000000000000", &Doubles), None);
    assert_eq!(normalize("Fx7ff8000000000000", &Doubles), None);
    // A negative number goes to hex as sixty-four bits, which hex takes for
    // too large a number.
    assert_eq!(normalize("b-3", &Doubles), None);
    assert_eq!(eval_expr(vec![number("zz")], &Doubles), Err(EvalError::NormalizationLimitExceeded));
    assert_eq!(
        EvalError::NormalizationLimitExceeded.message(),
        "Normalization limit exceeded"
    );
}

#[test]
fn conversions_stop_at_the_limit() {
    assert_eq!(NORMALIZATION_LIMIT, 16);
    assert_eq!(normalize("Fx0", &Endless), None);
    assert_eq!(eval_expr(vec![number("Fx0")], &Endless), Err(EvalError::NormalizationLimitExceeded));
    assert_eq!(normalize("0x10", &Endless), Some(16));
}

#[test]
fn literals_of_every_base_in_one_line() {
    assert_eq!(value_of("0x10 + 101b"), Ok(21));
    assert_eq!(value_of("17o * b5"), Ok(75));
    assert_eq!(value_of("101d + Fx4014000000000000"), Ok(10));
    assert_eq!(value_of("0xff / (0x10 - 1)"), Ok(17));
    assert_eq!(value_of("5f"), Ok(0x4014000000000000));
}

#[test]
fn a_line_reports_what_was_refused() {
    let out = calculate("zz + 1", &Doubles);
    assert_eq!(out.value, Err(EvalError::InvalidExpression));
    assert_eq!(out.rejected, vec!["zz".to_string()]);
    let out = calculate("1 + 2 q", &Doubles);
    assert_eq!(out.value, Err(EvalError::InvalidExpression));
    assert_eq!(out.rejected, vec!["2q".to_string()]);
    let out = calculate("1 + 2", &Doubles);
    assert_eq!(out.value, Ok(3));
    assert!(out.rejected.is_empty());
}

#[test]
fn a_token_is_copied_as_it_is() {
    let tokens = vec![
        number("0x1f"),
        Token::Plus,
        Token::Minus,
        Token::Star,
        Token::Slash,
        Token::LParen,
        Token::RParen,
    ];
    for token in &tokens {
        assert_eq!(&token.clone(), token);
    }
    assert_ne!(number("1"), number("2"));
    assert_ne!(Token::Plus, Token::Minus);
}
