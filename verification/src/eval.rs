//! The evaluator of postfix expressions.
//!
//! One pass over the tokens with one stack of signed 64-bit numbers. A number
//! token is first brought to a plain decimal number, by converting what it
//! holds again and again; an operator takes the two numbers on top of the
//! stack and puts its result there.

use vstd::prelude::*;
use crate::literal::{
    convert, hex_tagged, law_decimal_hex_round_trip, parse_num, text_view, BaseConversionError,
    DoubleAnswer, DoubleCodec,
};
use crate::radix::{decimal_text, is_digit, lemma_decimal_round_trip, parse_signed, read_signed};
use crate::text::chars_of;
use crate::token::{models, Token, TokenModel};

verus! {

/// Why an expression has no value.
#[derive(Debug, Clone, Copy, PartialEq, Eq, Structural)]
pub enum EvalError {
    /// An operator found fewer than two numbers on the stack, or the
    /// expression left none there.
    InvalidExpression,
    /// The right-hand operand of a division is zero.
    DivisionByZero,
    /// A parenthesis reached the evaluator.
    UnexpectedToken,
    /// A number token did not become a plain decimal number: a conversion
    /// failed, or the allowed number of conversions was used up.
    NormalizationLimitExceeded,
    /// The result of an operator does not fit in 64 bits.
    Overflow,
}

/// How many times the text of one number token is converted at most.
pub const NORMALIZATION_LIMIT: usize = 16;

/// The words for an error.
pub open spec fn message_of(error: EvalError) -> Seq<char> {
    match error {
        EvalError::InvalidExpression => "Invalid expression"@,
        EvalError::DivisionByZero => "Division by zero"@,
        EvalError::UnexpectedToken => "Unexpected token"@,
        EvalError::NormalizationLimitExceeded => "Normalization limit exceeded"@,
        EvalError::Overflow => "Arithmetic overflow"@,
    }
}

impl EvalError {
    /// The words for the error, as they are shown to the user.
    pub fn message(&self) -> (words: &'static str)
        ensures
            words@ == message_of(*self),
    {
        match self {
            EvalError::InvalidExpression => "Invalid expression",
            EvalError::DivisionByZero => "Division by zero",
            EvalError::UnexpectedToken => "Unexpected token",
            EvalError::NormalizationLimitExceeded => "Normalization limit exceeded",
            EvalError::Overflow => "Arithmetic overflow",
        }
    }
}

/// The number that `text` comes to. A text that is a signed 64-bit number in
/// decimal is that number. Any other text is converted, and the result is
/// looked at in the same way. `answers` holds what floating point says at
/// each conversion, and no more conversions are made than it has entries.
/// `None` where a conversion fails or the entries run out.
pub open spec fn normal_value(text: Seq<char>, answers: Seq<DoubleAnswer>) -> Option<int>
    decreases answers.len(),
{
    match parse_signed(text, 10) {
        Some(v) => Some(v),
        None => if answers.len() == 0 {
            None
        } else {
            match convert(text, answers[0]) {
                Ok(next) => normal_value(next, answers.skip(1)),
                Err(_) => None,
            }
        },
    }
}

/// `b` divided by `a`, rounded toward zero.
pub open spec fn quotient(b: int, a: int) -> int {
    if b >= 0 && a > 0 {
        b / a
    } else if b < 0 && a < 0 {
        (-b) / (-a)
    } else if b < 0 {
        -((-b) / a)
    } else {
        -(b / (-a))
    }
}

/// The stack `rest` with `v` on top, where `v` fits in 64 bits.
pub open spec fn pushed(rest: Seq<i64>, v: int) -> Result<Seq<i64>, EvalError> {
    if i64::MIN <= v <= i64::MAX {
        Ok(rest.push(v as i64))
    } else {
        Err(EvalError::Overflow)
    }
}

/// The stack after the operator `op`. The operator takes the number on top
/// as its right-hand operand and the one below as its left-hand operand. A
/// parenthesis is refused before the stack is looked at, and a division by
/// zero only when both operands are there.
pub open spec fn applied(stack: Seq<i64>, op: TokenModel) -> Result<Seq<i64>, EvalError> {
    if op is Number || op is LParen || op is RParen {
        Err(EvalError::UnexpectedToken)
    } else if stack.len() < 2 {
        Err(EvalError::InvalidExpression)
    } else {
        let a = stack[stack.len() - 1] as int;
        let b = stack[stack.len() - 2] as int;
        let rest = stack.take(stack.len() - 2);
        match op {
            TokenModel::Plus => pushed(rest, b + a),
            TokenModel::Minus => pushed(rest, b - a),
            TokenModel::Star => pushed(rest, b * a),
            _ => if a == 0 {
                Err(EvalError::DivisionByZero)
            } else {
                pushed(rest, quotient(b, a))
            },
        }
    }
}

/// The stack after the token `token`, a number token having come to `value`.
pub open spec fn advanced(stack: Seq<i64>, token: TokenModel, value: Option<int>) -> Result<
    Seq<i64>,
    EvalError,
> {
    if token is Number {
        match value {
            Some(v) => Ok(stack.push(v as i64)),
            None => Err(EvalError::NormalizationLimitExceeded),
        }
    } else {
        applied(stack, token)
    }
}

/// The stack after all of `tokens`, or the first error on the way.
/// `values[i]` is what the number token `i` comes to.
pub open spec fn run(tokens: Seq<TokenModel>, values: Seq<Option<int>>) -> Result<
    Seq<i64>,
    EvalError,
>
    decreases tokens.len(),
{
    if tokens.len() == 0 {
        Ok(Seq::empty())
    } else {
        match run(tokens.drop_last(), values) {
            Ok(stack) => advanced(stack, tokens.last(), values[tokens.len() - 1]),
            Err(error) => Err(error),
        }
    }
}

/// The value of the postfix expression `tokens`: the number on top of the
/// stack at the end. Numbers left below it are passed over.
pub open spec fn evaluated(tokens: Seq<TokenModel>, values: Seq<Option<int>>) -> Result<
    i64,
    EvalError,
> {
    match run(tokens, values) {
        Ok(stack) => if stack.len() == 0 {
            Err(EvalError::InvalidExpression)
        } else {
            Ok(stack.last())
        },
        Err(error) => Err(error),
    }
}

/// `value` is something that the token may come to: for a number token, what
/// its text comes to for some answers of floating point; for any other token
/// nothing.
pub open spec fn may_come_to(token: TokenModel, value: Option<int>) -> bool {
    match token {
        TokenModel::Number(text) => exists|answers: Seq<DoubleAnswer>|
            answers.len() == NORMALIZATION_LIMIT && value == #[trigger] normal_value(
                text,
                answers,
            ),
        _ => value is None,
    }
}

/// `values` holds, for each of `tokens`, something that the token may come
/// to.
pub open spec fn values_fit(tokens: Seq<TokenModel>, values: Seq<Option<int>>) -> bool {
    &&& values.len() == tokens.len()
    &&& forall|i: int| 0 <= i < tokens.len() ==> may_come_to(#[trigger] tokens[i], values[i])
}

/// A signed 64-bit number, or nothing, as an integer.
pub open spec fn as_int(value: Option<i64>) -> Option<int> {
    match value {
        Some(v) => Some(v as int),
        None => None,
    }
}

/// The run over a prefix of the tokens reads only the values of that prefix.
pub proof fn lemma_run_reads_prefix(
    tokens: Seq<TokenModel>,
    a: Seq<Option<int>>,
    b: Seq<Option<int>>,
)
    requires
        forall|i: int| 0 <= i < tokens.len() ==> a[i] == b[i],
    ensures
        run(tokens, a) == run(tokens, b),
    decreases tokens.len(),
{
    if tokens.len() > 0 {
        lemma_run_reads_prefix(tokens.drop_last(), a, b);
    }
}

/// An error stays: where the run over the first `k` tokens fails, the run
/// over all of them fails in the same way.
pub proof fn lemma_error_stays(tokens: Seq<TokenModel>, k: int, values: Seq<Option<int>>)
    requires
        0 <= k <= tokens.len(),
        run(tokens.take(k), values) is Err,
    ensures
        run(tokens, values) == run(tokens.take(k), values),
    decreases tokens.len() - k,
{
    if k == tokens.len() {
        assert(tokens.take(k) =~= tokens);
    } else {
        assert(tokens.drop_last().take(k) =~= tokens.take(k));
        lemma_error_stays(tokens.drop_last(), k, values);
    }
}

/// Brings the text of a number token to a number, asking `codec` where a
/// conversion speaks of a double.
///
/// The result is what [`normal_value`] gives for the text and for what the
/// codec answered, with [`NORMALIZATION_LIMIT`] conversions at most.
pub fn normalize<C: DoubleCodec>(text: &str, codec: &C) -> (value: Option<i64>)
    ensures
        exists|answers: Seq<DoubleAnswer>|
            answers.len() == NORMALIZATION_LIMIT && as_int(value) == #[trigger] normal_value(
                text@,
                answers,
            ),
{
    let ghost idle = DoubleAnswer { text: Seq::empty(), bits: None };
    let ghost mut used: Seq<DoubleAnswer> = Seq::empty();
    let mut current: String = text.to_owned();
    let mut steps: usize = 0;
    proof {
        assert forall|rest: Seq<DoubleAnswer>| rest.len() == NORMALIZATION_LIMIT implies (
        #[trigger] normal_value(current@, rest)) == normal_value(text@, used + rest) by {
            assert(used + rest =~= rest);
        }
    }
    loop
        invariant
            steps <= NORMALIZATION_LIMIT,
            used.len() == steps,
            forall|rest: Seq<DoubleAnswer>|
                rest.len() == NORMALIZATION_LIMIT - steps ==> (#[trigger] normal_value(
                    current@,
                    rest,
                )) == normal_value(text@, used + rest),
        decreases NORMALIZATION_LIMIT - steps,
    {
        let chars = chars_of(current.as_str());
        proof {
            assert(chars@.subrange(0, chars.len() as int) =~= current@);
        }
        let read = read_signed(&chars, 0, chars.len(), 10);
        if read.is_some() {
            proof {
                let rest = Seq::new((NORMALIZATION_LIMIT - steps) as nat, |i: int| idle);
                assert(normal_value(current@, rest) == as_int(read));
                assert((used + rest).len() == NORMALIZATION_LIMIT);
            }
            return read;
        }
        if steps == NORMALIZATION_LIMIT {
            proof {
                let rest = Seq::<DoubleAnswer>::empty();
                assert(normal_value(current@, rest) is None);
                assert((used + rest).len() == NORMALIZATION_LIMIT);
            }
            return None;
        }
        let converted = parse_num(current.as_str(), codec);
        let ghost answer = choose|answer: DoubleAnswer|
            text_view(converted) == #[trigger] convert(current@, answer);
        match converted {
            Ok(next) => {
                proof {
                    assert forall|rest: Seq<DoubleAnswer>|
                        rest.len() == NORMALIZATION_LIMIT - steps - 1 implies (
                    #[trigger] normal_value(next@, rest)) == normal_value(
                        text@,
                        used.push(answer) + rest,
                    ) by {
                        let longer = seq![answer] + rest;
                        assert(longer[0] == answer);
                        assert(longer.skip(1) =~= rest);
                        assert(used + longer =~= used.push(answer) + rest);
                        assert(normal_value(current@, longer) == normal_value(next@, rest));
                    }
                    used = used.push(answer);
                }
                current = next;
                steps += 1;
            },
            Err(_) => {
                proof {
                    let rest = seq![answer] + Seq::new(
                        (NORMALIZATION_LIMIT - steps - 1) as nat,
                        |i: int| idle,
                    );
                    assert(rest[0] == answer);
                    assert(normal_value(current@, rest) is None);
                    assert((used + rest).len() == NORMALIZATION_LIMIT);
                }
                return None;
            },
        }
    }
}

/// Applies the operator `op` to the two numbers on top of `stack`.
///
/// The stack becomes what [`applied`] gives; where that is an error, the
/// error is returned and the stack is left as it was.
pub fn apply_operator(stack: &mut Vec<i64>, op: &Token) -> (r: Result<(), EvalError>)
    ensures
        match applied(old(stack)@, op@) {
            Ok(after) => r is Ok && final(stack)@ == after,
            Err(error) => r == Err::<(), EvalError>(error) && final(stack)@ == old(stack)@,
        },
{
    match op {
        Token::Number(_) | Token::LParen | Token::RParen => {
            return Err(EvalError::UnexpectedToken);
        },
        _ => {},
    }
    let n = stack.len();
    if n < 2 {
        return Err(EvalError::InvalidExpression);
    }
    let a = stack[n - 1];
    let b = stack[n - 2];
    let result = match op {
        Token::Plus => b.checked_add(a),
        Token::Minus => b.checked_sub(a),
        Token::Star => b.checked_mul(a),
        _ => {
            if a == 0 {
                return Err(EvalError::DivisionByZero);
            }
            b.checked_div(a)
        },
    };
    match result {
        Some(v) => {
            stack.pop();
            stack.pop();
            stack.push(v);
            proof {
                assert(stack@ =~= old(stack)@.take(n - 2).push(v));
            }
            Ok(())
        },
        None => Err(EvalError::Overflow),
    }
}

/// Evaluates the postfix expression `tokens`, asking `codec` where a number
/// token speaks of a double.
///
/// The result is what [`evaluated`] gives for the tokens and for what their
/// number tokens came to: the number on top of the stack at the end, or the
/// first error met.
pub fn eval_expr<C: DoubleCodec>(tokens: Vec<Token>, codec: &C) -> (r: Result<i64, EvalError>)
    ensures
        exists|values: Seq<Option<int>>|
            values_fit(models(tokens@), values) && r == #[trigger] evaluated(
                models(tokens@),
                values,
            ),
{
    let ghost all = models(tokens@);
    let ghost idles = Seq::new(
        NORMALIZATION_LIMIT as nat,
        |i: int| DoubleAnswer { text: Seq::empty(), bits: None },
    );
    // What each token comes to where the codec is never asked.
    let ghost quiet = Seq::new(
        all.len(),
        |i: int|
            match all[i] {
                TokenModel::Number(text) => normal_value(text, idles),
                _ => None,
            },
    );
    proof {
        assert forall|i: int| 0 <= i < all.len() implies may_come_to(#[trigger] all[i], quiet[i]) by {
            match all[i] {
                TokenModel::Number(text) => {
                    assert(quiet[i] == normal_value(text, idles));
                },
                _ => {},
            }
        }
        assert(values_fit(all, quiet));
    }
    let mut stack: Vec<i64> = Vec::new();
    let ghost mut values: Seq<Option<int>> = quiet;
    let mut i: usize = 0;
    proof {
        assert(all.take(0) =~= Seq::empty());
    }
    while i < tokens.len()
        invariant
            i <= tokens.len(),
            all == models(tokens@),
            values_fit(all, values),
            run(all.take(i as int), values) == Ok::<Seq<i64>, EvalError>(stack@),
        decreases tokens.len() - i,
    {
        let ghost seen = all.take(i as int);
        let ghost next = all.take(i + 1);
        proof {
            assert(next.drop_last() =~= seen);
            assert(next.last() == tokens@[i as int]@);
        }
        match &tokens[i] {
            Token::Number(text) => {
                let value = normalize(text.as_str(), codec);
                proof {
                    let changed = values.update(i as int, as_int(value));
                    lemma_run_reads_prefix(seen, values, changed);
                    assert(may_come_to(all[i as int], changed[i as int]));
                    assert(values_fit(all, changed));
                    values = changed;
                }
                match value {
                    Some(v) => {
                        stack.push(v);
                    },
                    None => {
                        proof {
                            lemma_error_stays(all, i + 1, values);
                            assert(evaluated(all, values) == Err::<i64, EvalError>(
                                EvalError::NormalizationLimitExceeded,
                            ));
                        }
                        return Err(EvalError::NormalizationLimitExceeded);
                    },
                }
            },
            op => {
                match apply_operator(&mut stack, op) {
                    Ok(()) => {},
                    Err(error) => {
                        proof {
                            lemma_error_stays(all, i + 1, values);
                            assert(evaluated(all, values) == Err::<i64, EvalError>(error));
                        }
                        return Err(error);
                    },
                }
            },
        }
        i += 1;
    }
    let r = if stack.len() == 0 {
        Err(EvalError::InvalidExpression)
    } else {
        Ok(stack[stack.len() - 1])
    };
    proof {
        assert(all.take(i as int) =~= all);
        assert(r == evaluated(all, values));
    }
    r
}

/// A text that is a signed 64-bit number in decimal comes to that number,
/// whatever floating point says and however many conversions are allowed.
pub proof fn law_decimal_text_value(v: int, answers: Seq<DoubleAnswer>)
    requires
        i64::MIN <= v <= i64::MAX,
    ensures
        normal_value(decimal_text(v), answers) == Some(v),
{
    lemma_decimal_round_trip(v);
}

/// A decimal literal comes to the number that it writes: for a number from
/// zero to the largest signed 64-bit number, what the converter makes of its
/// decimal text comes to the number again, where one conversion at least is
/// allowed.
pub proof fn law_decimal_literal_value(n: int, first: DoubleAnswer, answers: Seq<DoubleAnswer>)
    requires
        0 <= n <= i64::MAX,
        answers.len() >= 1,
    ensures
        convert(decimal_text(n), first) == Ok::<Seq<char>, BaseConversionError>(
            hex_tagged(n as nat),
        ),
        normal_value(hex_tagged(n as nat), answers) == Some(n),
{
    let tagged = hex_tagged(n as nat);
    law_decimal_hex_round_trip(n, first, answers[0]);
    assert(tagged[0] == '0' && tagged[1] == 'x');
    assert(!is_digit(tagged[1], 10));
    assert(parse_signed(tagged, 10) is None);
    law_decimal_text_value(n, answers.skip(1));
}

} // verus!
