//! The two ways of use: a line that is calculated, and a list of arguments
//! that are converted, each shown in a base that one of them may select.

use vstd::prelude::*;
use crate::eval::{
    as_int, eval_expr, evaluated, normal_value, normalize, values_fit, EvalError,
    NORMALIZATION_LIMIT,
};
use crate::literal::{
    convert, hex_tagged, parse_num, text_view, BaseConversionError, DoubleAnswer, DoubleCodec,
};
use crate::postfix::{infix_to_postfix, postfix};
use crate::radix::{bits_of, bits_of_signed, decimal_text, digits_of, write_decimal, write_digits};
use crate::text::{chars_of, string_of};
use crate::token::{parse_expr, texts, tokenized};

verus! {

/// A base in which a number can be shown.
#[derive(Debug, Clone, Copy, PartialEq, Eq, Structural)]
pub enum OutputBase {
    /// Selected by `f`: decimal, with five zeros behind the point.
    Float,
    /// Selected by `2`: binary, behind `b`.
    Binary,
    /// Selected by `8`: octal, behind `Ox`.
    Octal,
    /// Selected by `10`: decimal.
    Decimal,
    /// Selected by `16`: hexadecimal, behind `0x`.
    Hexadecimal,
}

/// The name by which an argument selects the base.
pub open spec fn name_of(base: OutputBase) -> Seq<char> {
    match base {
        OutputBase::Float => seq!['f'],
        OutputBase::Binary => seq!['2'],
        OutputBase::Octal => seq!['8'],
        OutputBase::Decimal => seq!['1', '0'],
        OutputBase::Hexadecimal => seq!['1', '6'],
    }
}

/// `arg` is `=` followed by `name`, and nothing more.
pub open spec fn selects(arg: Seq<char>, name: Seq<char>) -> bool {
    arg == seq!['='] + name
}

/// The base that `arg` selects, if it selects one.
pub open spec fn selected(arg: Seq<char>) -> Option<OutputBase> {
    if selects(arg, name_of(OutputBase::Float)) {
        Some(OutputBase::Float)
    } else if selects(arg, name_of(OutputBase::Binary)) {
        Some(OutputBase::Binary)
    } else if selects(arg, name_of(OutputBase::Octal)) {
        Some(OutputBase::Octal)
    } else if selects(arg, name_of(OutputBase::Decimal)) {
        Some(OutputBase::Decimal)
    } else if selects(arg, name_of(OutputBase::Hexadecimal)) {
        Some(OutputBase::Hexadecimal)
    } else {
        None
    }
}

/// Where the first of `args` that selects a base stands.
pub open spec fn first_selector(args: Seq<Seq<char>>) -> Option<int>
    decreases args.len(),
{
    if args.len() == 0 {
        None
    } else {
        match first_selector(args.drop_last()) {
            Some(i) => Some(i),
            None => if selected(args.last()) is Some {
                Some(args.len() - 1)
            } else {
                None
            },
        }
    }
}

/// The base in which the arguments are to be shown: the one that the first
/// selector among them names.
pub open spec fn forced_base(args: Seq<Seq<char>>) -> Option<OutputBase> {
    match first_selector(args) {
        Some(i) => selected(args[i]),
        None => None,
    }
}

/// The arguments that are converted: all but the first selector.
pub open spec fn expressions(args: Seq<Seq<char>>) -> Seq<Seq<char>> {
    match first_selector(args) {
        Some(i) => args.remove(i),
        None => args,
    }
}

/// The number `v` as it is shown in the base. A negative number has its sign
/// in the two decimal forms, and is shown in every other base as the
/// unsigned number with the same 64 bits.
pub open spec fn shown_in(base: OutputBase, v: int) -> Seq<char> {
    match base {
        OutputBase::Float => decimal_text(v) + seq!['.', '0', '0', '0', '0', '0'],
        OutputBase::Binary => seq!['b'] + digits_of(bits_of(v), 2),
        OutputBase::Octal => seq!['O', 'x'] + digits_of(bits_of(v), 8),
        OutputBase::Decimal => decimal_text(v),
        OutputBase::Hexadecimal => hex_tagged(bits_of(v)),
    }
}

/// Why an argument is not shown.
#[derive(Debug, Clone, Copy, PartialEq, Eq, Structural)]
pub enum BatchError {
    /// The converter refused the argument.
    Conversion(BaseConversionError),
    /// What the converter made of the argument did not come to a number.
    NotANumber,
}

/// The words for an error.
pub open spec fn batch_message_of(error: BatchError) -> Seq<char> {
    match error {
        BatchError::Conversion(BaseConversionError::ParseIntError) => "Error: Failed to parse input"@,
        BatchError::Conversion(BaseConversionError::InvalidInputFormat)
            => "Error: Invalid input format"@,
        BatchError::NotANumber => "Failed to convert expression result"@,
    }
}

/// What is shown for the argument `input`. It is converted once, floating
/// point answering `first`. Without a base, the result of that conversion is
/// shown as it is. With one, the result is brought to a number, floating
/// point answering `later`, and the number is shown in the base.
pub open spec fn shown(
    input: Seq<char>,
    base: Option<OutputBase>,
    first: DoubleAnswer,
    later: Seq<DoubleAnswer>,
) -> Result<Seq<char>, BatchError> {
    match convert(input, first) {
        Err(error) => Err(BatchError::Conversion(error)),
        Ok(text) => match base {
            None => Ok(text),
            Some(base) => match normal_value(text, later) {
                Some(v) => Ok(shown_in(base, v)),
                None => Err(BatchError::NotANumber),
            },
        },
    }
}

/// The characters of what is shown, or the error.
pub open spec fn shown_view(r: Result<String, BatchError>) -> Result<Seq<char>, BatchError> {
    match r {
        Ok(text) => Ok(text@),
        Err(error) => Err(error),
    }
}

/// `result` is what may be shown for `input`: what [`shown`] gives for some
/// answers of floating point.
pub open spec fn may_show(
    input: Seq<char>,
    base: Option<OutputBase>,
    result: Result<Seq<char>, BatchError>,
) -> bool {
    exists|first: DoubleAnswer, later: Seq<DoubleAnswer>|
        later.len() == NORMALIZATION_LIMIT && result == #[trigger] shown(input, base, first, later)
}

impl OutputBase {
    /// The name by which an argument selects the base.
    pub fn name(&self) -> (name: &'static str)
        ensures
            name@ == name_of(*self),
    {
        proof {
            reveal_strlit("f");
            reveal_strlit("2");
            reveal_strlit("8");
            reveal_strlit("10");
            reveal_strlit("16");
        }
        let name = match self {
            OutputBase::Float => "f",
            OutputBase::Binary => "2",
            OutputBase::Octal => "8",
            OutputBase::Decimal => "10",
            OutputBase::Hexadecimal => "16",
        };
        proof {
            assert(name@ =~= name_of(*self));
        }
        name
    }
}

impl BatchError {
    /// The words for the error, as they are shown to the user.
    pub fn message(&self) -> (words: &'static str)
        ensures
            words@ == batch_message_of(*self),
    {
        match self {
            BatchError::Conversion(BaseConversionError::ParseIntError) => "Error: Failed to parse input",
            BatchError::Conversion(BaseConversionError::InvalidInputFormat)
                => "Error: Invalid input format",
            BatchError::NotANumber => "Failed to convert expression result",
        }
    }
}

/// `chars` is `=` and the one character `a`.
fn selects_one(chars: &Vec<char>, a: char) -> (r: bool)
    ensures
        r == selects(chars@, seq![a]),
{
    let r = chars.len() == 2 && chars[0] == '=' && chars[1] == a;
    proof {
        let wanted = seq!['='] + seq![a];
        assert(wanted.len() == 2 && wanted[0] == '=' && wanted[1] == a);
        if r {
            assert(chars@ =~= wanted);
        }
    }
    r
}

/// `chars` is `=` and the two characters `a` and `b`.
fn selects_two(chars: &Vec<char>, a: char, b: char) -> (r: bool)
    ensures
        r == selects(chars@, seq![a, b]),
{
    let r = chars.len() == 3 && chars[0] == '=' && chars[1] == a && chars[2] == b;
    proof {
        let wanted = seq!['='] + seq![a, b];
        assert(wanted.len() == 3 && wanted[0] == '=' && wanted[1] == a && wanted[2] == b);
        if r {
            assert(chars@ =~= wanted);
        }
    }
    r
}

/// The base that `arg` selects, if it selects one: `arg` is `=` followed by
/// one of `f`, `2`, `8`, `10`, `16`, and nothing more.
pub fn selected_base(arg: &str) -> (r: Option<OutputBase>)
    ensures
        r == selected(arg@),
{
    let chars = chars_of(arg);
    if selects_one(&chars, 'f') {
        Some(OutputBase::Float)
    } else if selects_one(&chars, '2') {
        Some(OutputBase::Binary)
    } else if selects_one(&chars, '8') {
        Some(OutputBase::Octal)
    } else if selects_two(&chars, '1', '0') {
        Some(OutputBase::Decimal)
    } else if selects_two(&chars, '1', '6') {
        Some(OutputBase::Hexadecimal)
    } else {
        None
    }
}

/// The first of `args` that selects a base: where it stands, and the base.
pub fn forced_output(args: &Vec<String>) -> (r: Option<(usize, OutputBase)>)
    ensures
        match r {
            Some((i, base)) => first_selector(texts(args@)) == Some(i as int) && selected(
                args@[i as int]@,
            ) == Some(base) && i < args.len(),
            None => first_selector(texts(args@)) is None,
        },
{
    let ghost all = texts(args@);
    let mut i: usize = 0;
    proof {
        assert(all.take(0) =~= Seq::empty());
    }
    while i < args.len()
        invariant
            i <= args.len(),
            all == texts(args@),
            first_selector(all.take(i as int)) is None,
        decreases args.len() - i,
    {
        proof {
            assert(all.take(i + 1).drop_last() =~= all.take(i as int));
            assert(all.take(i + 1).last() == args@[i as int]@);
        }
        match selected_base(args[i].as_str()) {
            Some(base) => {
                proof {
                    lemma_first_selector_stays(all, i + 1);
                }
                return Some((i, base));
            },
            None => {},
        }
        i += 1;
    }
    proof {
        assert(all.take(i as int) =~= all);
    }
    None
}

/// An argument selects a base exactly when it is `=` followed by the name of
/// that base: no two bases share a name.
pub proof fn law_selected_by_name(arg: Seq<char>, base: OutputBase)
    ensures
        selected(arg) == Some(base) <==> arg == seq!['='] + name_of(base),
{
    let float = seq!['='] + name_of(OutputBase::Float);
    let binary = seq!['='] + name_of(OutputBase::Binary);
    let octal = seq!['='] + name_of(OutputBase::Octal);
    let decimal = seq!['='] + name_of(OutputBase::Decimal);
    let hexadecimal = seq!['='] + name_of(OutputBase::Hexadecimal);
    assert(float.len() == 2 && float[1] == 'f');
    assert(binary.len() == 2 && binary[1] == '2');
    assert(octal.len() == 2 && octal[1] == '8');
    assert(decimal.len() == 3 && decimal[2] == '0');
    assert(hexadecimal.len() == 3 && hexadecimal[2] == '6');
}

/// The first selector of a prefix of the arguments is the first selector of
/// all of them.
pub proof fn lemma_first_selector_stays(args: Seq<Seq<char>>, k: int)
    requires
        0 <= k <= args.len(),
        first_selector(args.take(k)) is Some,
    ensures
        first_selector(args) == first_selector(args.take(k)),
    decreases args.len() - k,
{
    if k == args.len() {
        assert(args.take(k) =~= args);
    } else {
        assert(args.drop_last().take(k) =~= args.take(k));
        lemma_first_selector_stays(args.drop_last(), k);
    }
}

/// The first selector is the first argument that selects a base: it stands
/// among the arguments and selects one, no argument before it does, and
/// where there is none, no argument selects a base.
pub proof fn law_first_selector_is_first(args: Seq<Seq<char>>)
    ensures
        first_selector(args) matches Some(i) ==> 0 <= i < args.len() && selected(args[i]) is Some
            && forall|j: int| 0 <= j < i ==> selected(#[trigger] args[j]) is None,
        first_selector(args) is None ==> forall|j: int|
            0 <= j < args.len() ==> selected(#[trigger] args[j]) is None,
    decreases args.len(),
{
    if args.len() > 0 {
        let front = args.drop_last();
        law_first_selector_is_first(front);
        assert forall|j: int| 0 <= j < front.len() implies front[j] == args[j] by {}
        match first_selector(front) {
            Some(i) => {
                assert(front[i] == args[i]);
                assert forall|j: int| 0 <= j < i implies selected(#[trigger] args[j]) is None by {
                    assert(front[j] == args[j]);
                }
            },
            None => {
                assert forall|j: int| 0 <= j < args.len() - 1 implies selected(
                    #[trigger] args[j],
                ) is None by {
                    assert(front[j] == args[j]);
                }
            },
        }
    }
}

/// The name of the base in which the arguments are to be shown: the one that
/// the first of `args` to select a base names. `None` where none of them
/// selects one.
pub fn check_force_output(args: &Vec<String>) -> (r: Option<&'static str>)
    ensures
        match r {
            Some(name) => forced_base(texts(args@)) matches Some(base) && name@ == name_of(base),
            None => forced_base(texts(args@)) is None,
        },
{
    match forced_output(args) {
        Some((_, base)) => Some(base.name()),
        None => None,
    }
}

/// The number `v` as it is shown in the base.
pub fn show_value(v: i64, base: OutputBase) -> (text: String)
    ensures
        text@ == shown_in(base, v as int),
{
    let mut out: Vec<char> = Vec::new();
    match base {
        OutputBase::Float => {
            write_decimal(&mut out, v);
            out.push('.');
            let mut i: usize = 0;
            while i < 5
                invariant
                    i <= 5,
                    out@ == decimal_text(v as int) + seq!['.'] + Seq::new(i as nat, |j: int| '0'),
                decreases 5 - i,
            {
                out.push('0');
                proof {
                    assert(out@ =~= decimal_text(v as int) + seq!['.'] + Seq::new(
                        (i + 1) as nat,
                        |j: int| '0',
                    ));
                }
                i += 1;
            }
        },
        OutputBase::Binary => {
            out.push('b');
            write_digits(&mut out, bits_of_signed(v), 2);
        },
        OutputBase::Octal => {
            out.push('O');
            out.push('x');
            write_digits(&mut out, bits_of_signed(v), 8);
        },
        OutputBase::Decimal => {
            write_decimal(&mut out, v);
        },
        OutputBase::Hexadecimal => {
            out.push('0');
            out.push('x');
            write_digits(&mut out, bits_of_signed(v), 16);
        },
    }
    proof {
        assert(out@ =~= shown_in(base, v as int));
    }
    string_of(&out)
}

/// What is shown for the argument `input`, asking `codec` where a conversion
/// speaks of a double.
///
/// The result is what [`shown`] gives for the argument, the base, and what
/// the codec answered.
pub fn show_argument<C: DoubleCodec>(input: &str, base: Option<OutputBase>, codec: &C) -> (r:
    Result<String, BatchError>)
    ensures
        may_show(input@, base, shown_view(r)),
{
    let ghost idles = Seq::new(
        NORMALIZATION_LIMIT as nat,
        |i: int| DoubleAnswer { text: Seq::empty(), bits: None },
    );
    let converted = parse_num(input, codec);
    let ghost first = choose|answer: DoubleAnswer|
        text_view(converted) == #[trigger] convert(input@, answer);
    match converted {
        Err(error) => {
            proof {
                assert(shown(input@, base, first, idles) == Err::<Seq<char>, BatchError>(
                    BatchError::Conversion(error),
                ));
            }
            Err(BatchError::Conversion(error))
        },
        Ok(text) => {
            match base {
                None => {
                    proof {
                        assert(shown(input@, base, first, idles) == Ok::<Seq<char>, BatchError>(
                            text@,
                        ));
                    }
                    Ok(text)
                },
                Some(base_value) => {
                    let value = normalize(text.as_str(), codec);
                    let ghost later = choose|answers: Seq<DoubleAnswer>|
                        answers.len() == NORMALIZATION_LIMIT && as_int(value)
                            == #[trigger] normal_value(text@, answers);
                    let r = match value {
                        Some(v) => Ok(show_value(v, base_value)),
                        None => Err(BatchError::NotANumber),
                    };
                    proof {
                        assert(shown_view(r) == shown(input@, base, first, later));
                    }
                    r
                },
            }
        },
    }
}

/// Converts the arguments of a run, asking `codec` where a conversion speaks
/// of a double.
///
/// The first argument that selects a base is taken out and decides how the
/// others are shown. The result holds, for each of the others and in their
/// order, what is shown for it.
pub fn convert_arguments<C: DoubleCodec>(args: &Vec<String>, codec: &C) -> (out: Vec<
    Result<String, BatchError>,
>)
    ensures
        out.len() == expressions(texts(args@)).len(),
        forall|k: int|
            0 <= k < out.len() ==> may_show(
                expressions(texts(args@))[k],
                forced_base(texts(args@)),
                shown_view(#[trigger] out[k]),
            ),
{
    let ghost all = texts(args@);
    let ghost inputs = expressions(all);
    let forced = forced_output(args);
    let base = match forced {
        Some((_, base)) => Some(base),
        None => None,
    };
    let skip: usize = match forced {
        Some((at, _)) => at,
        None => args.len(),
    };
    let mut out: Vec<Result<String, BatchError>> = Vec::new();
    let mut i: usize = 0;
    while i < args.len()
        invariant
            i <= args.len(),
            all == texts(args@),
            inputs == expressions(all),
            base == forced_base(all),
            skip <= args.len(),
            skip < args.len() ==> first_selector(all) == Some(skip as int),
            skip == args.len() ==> first_selector(all) is None,
            out.len() == if i <= skip { i as int } else { i - 1 },
            forall|k: int|
                0 <= k < out.len() ==> may_show(inputs[k], base, shown_view(#[trigger] out[k])),
        decreases args.len() - i,
    {
        if i != skip {
            let shown = show_argument(args[i].as_str(), base, codec);
            proof {
                assert(inputs[out.len() as int] == args@[i as int]@);
            }
            out.push(shown);
        }
        i += 1;
    }
    out
}

/// What a line comes to.
#[derive(Debug)]
pub struct Calculation {
    /// The value of the expression, or why it has none.
    pub value: Result<i64, EvalError>,
    /// The literals of the line that the converter refused.
    pub rejected: Vec<String>,
}

/// `value` and `rejected` are what the line comes to where floating point
/// answers `answers` to the scan, one answer for each place of the line and
/// one for its end, and the number tokens come to `values`: the scan refuses
/// `rejected`, and `value` is the value of its tokens put into postfix order.
pub open spec fn calculated(
    line: Seq<char>,
    answers: Seq<DoubleAnswer>,
    values: Seq<Option<int>>,
    value: Result<i64, EvalError>,
    rejected: Seq<Seq<char>>,
) -> bool {
    let scan = tokenized(line, answers);
    &&& answers.len() == line.len() + 1
    &&& rejected == scan.rejected
    &&& values_fit(postfix(scan.tokens), values)
    &&& value == evaluated(postfix(scan.tokens), values)
}

/// Calculates the expression that `line` holds: the line is cut into tokens,
/// the tokens are put into postfix order, and the postfix expression is
/// evaluated. `codec` is asked where a literal speaks of a double.
pub fn calculate<C: DoubleCodec>(line: &str, codec: &C) -> (out: Calculation)
    ensures
        exists|answers: Seq<DoubleAnswer>, values: Seq<Option<int>>|
            #[trigger] calculated(line@, answers, values, out.value, texts(out.rejected@)),
{
    let scanned = parse_expr(line, codec);
    let ghost answers = choose|answers: Seq<DoubleAnswer>|
        answers.len() == line@.len() + 1 && scanned@ == #[trigger] tokenized(line@, answers);
    let ordered = infix_to_postfix(scanned.tokens);
    let ghost tokens = crate::token::models(ordered@);
    let value = eval_expr(ordered, codec);
    let ghost values = choose|values: Seq<Option<int>>|
        values_fit(tokens, values) && value == #[trigger] evaluated(tokens, values);
    let out = Calculation { value, rejected: scanned.rejected };
    proof {
        let scan = tokenized(line@, answers);
        assert(tokens == postfix(scan.tokens));
        assert(calculated(line@, answers, values, out.value, texts(out.rejected@)));
    }
    out
}

} // verus!
