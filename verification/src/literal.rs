//! The literal converter: one literal in, the same number in another base out.
//!
//! A literal says by its first or last characters which base it is written in.
//! The rules are tried in a fixed order and the first that fits is applied,
//! whatever the rest of the literal holds. Two of the rules speak of doubles;
//! the library does no floating point of its own and asks a [`DoubleCodec`].

use vstd::prelude::*;
use crate::radix::{
    all_digits, bits_of, bits_of_signed, decimal_text, digits_of, digits_value, is_digit,
    lemma_decimal_round_trip, lemma_digits_round_trip, parse_signed, parse_unsigned, read_signed,
    read_unsigned, write_decimal, write_digits,
};
use crate::text::{chars_of, string_of};

verus! {

/// Why a literal could not be converted.
#[derive(Debug, Clone, Copy, PartialEq, Eq, Structural)]
pub enum BaseConversionError {
    /// The digits are not digits of the base, there are none, or the number
    /// does not fit in 64 bits.
    ParseIntError,
    /// The literal fits no rule. Every literal fits the last rule, so no
    /// conversion gives this.
    InvalidInputFormat,
}

/// The rules of the converter, in the order in which they are tried.
#[derive(Debug, Clone, Copy, PartialEq, Eq, Structural)]
pub enum Rule {
    /// `0x` and hexadecimal digits: written out in decimal.
    HexToDecimal,
    /// `b` and decimal digits: written out in binary, with `b` behind.
    DecimalToBinary,
    /// `Fx` and the 64 bits of a double in hexadecimal: the double in decimal.
    BitsToDouble,
    /// `Bx` and hexadecimal digits: written out in binary.
    HexToBinary,
    /// `Ox` and hexadecimal digits: written out in octal.
    HexToOctal,
    /// Binary digits and `d`: written out in decimal.
    BinaryToDecimal,
    /// A double in decimal and `f`: its 64 bits in hexadecimal, behind `0x`.
    DoubleToBits,
    /// Octal digits and `o`: written out in hexadecimal, behind `0x`.
    OctalToHex,
    /// Binary digits and `b`: written out in hexadecimal, behind `0x`.
    BinaryToHex,
    /// Anything else is read as decimal digits: written out in hexadecimal,
    /// behind `0x`.
    DecimalToHex,
}

/// What floating point has to say about one literal: `text` is the decimal
/// text of the double whose bits the literal gives, `bits` the 64 bits of the
/// double that the literal writes in decimal, if it writes one. A rule reads
/// the part that it needs and no rule reads both.
pub struct DoubleAnswer {
    pub text: Seq<char>,
    pub bits: Option<u64>,
}

/// Floating point, as far as the converter needs it.
pub trait DoubleCodec {
    /// The decimal text of the double that has the 64 bits `bits`.
    fn text_of_bits(&self, bits: u64) -> String;

    /// The 64 bits of the double that `text` writes in decimal, or `None`
    /// where it writes none.
    fn bits_of_text(&self, text: &str) -> Option<u64>;
}

/// `s` begins with the two characters `a` and `b`.
pub open spec fn begins_with(s: Seq<char>, a: char, b: char) -> bool {
    s.len() >= 2 && s[0] == a && s[1] == b
}

/// `s` ends with the character `c`.
pub open spec fn ends_with(s: Seq<char>, c: char) -> bool {
    s.len() >= 1 && s.last() == c
}

/// The rule that applies to the literal `s`: the first that fits.
pub open spec fn rule_of(s: Seq<char>) -> Rule {
    if begins_with(s, '0', 'x') {
        Rule::HexToDecimal
    } else if s.len() >= 1 && s[0] == 'b' {
        Rule::DecimalToBinary
    } else if begins_with(s, 'F', 'x') {
        Rule::BitsToDouble
    } else if begins_with(s, 'B', 'x') {
        Rule::HexToBinary
    } else if begins_with(s, 'O', 'x') {
        Rule::HexToOctal
    } else if ends_with(s, 'd') {
        Rule::BinaryToDecimal
    } else if ends_with(s, 'f') {
        Rule::DoubleToBits
    } else if ends_with(s, 'o') {
        Rule::OctalToHex
    } else if ends_with(s, 'b') {
        Rule::BinaryToHex
    } else {
        Rule::DecimalToHex
    }
}

/// `n` in hexadecimal behind `0x`: the form in which most rules hand a
/// number on.
pub open spec fn hex_tagged(n: nat) -> Seq<char> {
    seq!['0', 'x'] + digits_of(n, 16)
}

/// The digits of the literal `s`, without the marker of its rule.
pub open spec fn payload(s: Seq<char>) -> Seq<char> {
    match rule_of(s) {
        Rule::HexToDecimal | Rule::BitsToDouble | Rule::HexToBinary | Rule::HexToOctal => s.skip(2),
        Rule::DecimalToBinary => s.skip(1),
        Rule::BinaryToDecimal | Rule::DoubleToBits | Rule::OctalToHex | Rule::BinaryToHex
            => s.drop_last(),
        Rule::DecimalToHex => s,
    }
}

/// The base in which the digits of a literal of the rule are read.
pub open spec fn source_radix(rule: Rule) -> nat {
    match rule {
        Rule::HexToDecimal | Rule::BitsToDouble | Rule::HexToBinary | Rule::HexToOctal => 16,
        Rule::DecimalToBinary | Rule::DoubleToBits | Rule::DecimalToHex => 10,
        Rule::BinaryToDecimal | Rule::BinaryToHex => 2,
        Rule::OctalToHex => 8,
    }
}

/// How a rule writes out the signed 64-bit number `v` that it has read. A
/// negative number is written in decimal with its sign, and in every other
/// base as the unsigned number with the same 64 bits.
pub open spec fn written(rule: Rule, v: int) -> Seq<char> {
    match rule {
        Rule::HexToDecimal | Rule::BinaryToDecimal => decimal_text(v),
        Rule::DecimalToBinary => digits_of(bits_of(v), 2).push('b'),
        Rule::HexToBinary => digits_of(bits_of(v), 2),
        Rule::HexToOctal => digits_of(bits_of(v), 8),
        _ => hex_tagged(bits_of(v)),
    }
}

/// What the converter makes of the literal `s`, floating point answering
/// `answer`. Only the two rules of doubles read the answer.
pub open spec fn convert(s: Seq<char>, answer: DoubleAnswer) -> Result<
    Seq<char>,
    BaseConversionError,
> {
    let rule = rule_of(s);
    match rule {
        Rule::BitsToDouble => match parse_unsigned(payload(s), 16) {
            Some(_) => Ok(answer.text),
            None => Err(BaseConversionError::ParseIntError),
        },
        Rule::DoubleToBits => match answer.bits {
            Some(b) => Ok(hex_tagged(b as nat)),
            None => Err(BaseConversionError::ParseIntError),
        },
        _ => match parse_signed(payload(s), source_radix(rule)) {
            Some(v) => Ok(written(rule, v)),
            None => Err(BaseConversionError::ParseIntError),
        },
    }
}

/// What a literal asks of floating point before it can be converted.
#[derive(Debug)]
pub enum DoubleWork {
    /// Nothing: integers are enough, or the literal is already known to fail.
    Nothing,
    /// The decimal text of the double that has these 64 bits.
    TextOfBits(u64),
    /// The 64 bits of the double that this text writes in decimal.
    BitsOfText(String),
}

/// What a literal asks of floating point, as a plain value: a text by the
/// characters that it holds.
pub enum DoubleWorkModel {
    Nothing,
    TextOfBits(u64),
    BitsOfText(Seq<char>),
}

impl View for DoubleWork {
    type V = DoubleWorkModel;

    open spec fn view(&self) -> DoubleWorkModel {
        match self {
            DoubleWork::Nothing => DoubleWorkModel::Nothing,
            DoubleWork::TextOfBits(bits) => DoubleWorkModel::TextOfBits(*bits),
            DoubleWork::BitsOfText(text) => DoubleWorkModel::BitsOfText(text@),
        }
    }
}

/// What the literal `s` asks of floating point. A literal that gives the
/// bits of a double asks for the text of that double, unless its digits
/// cannot be read; one that writes a double in decimal asks for its bits;
/// every other literal asks nothing.
pub open spec fn work_of(s: Seq<char>) -> DoubleWorkModel {
    match rule_of(s) {
        Rule::BitsToDouble => match parse_unsigned(payload(s), 16) {
            Some(n) => DoubleWorkModel::TextOfBits(n as u64),
            None => DoubleWorkModel::Nothing,
        },
        Rule::DoubleToBits => DoubleWorkModel::BitsOfText(payload(s)),
        _ => DoubleWorkModel::Nothing,
    }
}

/// The characters of a conversion's result, or its error.
pub open spec fn text_view(r: Result<String, BaseConversionError>) -> Result<
    Seq<char>,
    BaseConversionError,
> {
    match r {
        Ok(s) => Ok(s@),
        Err(e) => Err(e),
    }
}

/// The rule that applies to the literal `chars`.
pub fn classify(chars: &Vec<char>) -> (rule: Rule)
    ensures
        rule == rule_of(chars@),
{
    let n = chars.len();
    if n >= 2 && chars[0] == '0' && chars[1] == 'x' {
        Rule::HexToDecimal
    } else if n >= 1 && chars[0] == 'b' {
        Rule::DecimalToBinary
    } else if n >= 2 && chars[0] == 'F' && chars[1] == 'x' {
        Rule::BitsToDouble
    } else if n >= 2 && chars[0] == 'B' && chars[1] == 'x' {
        Rule::HexToBinary
    } else if n >= 2 && chars[0] == 'O' && chars[1] == 'x' {
        Rule::HexToOctal
    } else if n >= 1 && chars[n - 1] == 'd' {
        Rule::BinaryToDecimal
    } else if n >= 1 && chars[n - 1] == 'f' {
        Rule::DoubleToBits
    } else if n >= 1 && chars[n - 1] == 'o' {
        Rule::OctalToHex
    } else if n >= 1 && chars[n - 1] == 'b' {
        Rule::BinaryToHex
    } else {
        Rule::DecimalToHex
    }
}

/// Where the digits of a literal of the rule begin and end in `chars`.
fn payload_bounds(chars: &Vec<char>, rule: Rule) -> (r: (usize, usize))
    requires
        rule == rule_of(chars@),
    ensures
        r.0 <= r.1 <= chars.len(),
        chars@.subrange(r.0 as int, r.1 as int) == payload(chars@),
{
    let n = chars.len();
    let r = match rule {
        Rule::HexToDecimal | Rule::BitsToDouble | Rule::HexToBinary | Rule::HexToOctal => (2, n),
        Rule::DecimalToBinary => (1, n),
        Rule::BinaryToDecimal | Rule::DoubleToBits | Rule::OctalToHex | Rule::BinaryToHex => (
            0,
            n - 1,
        ),
        Rule::DecimalToHex => (0, n),
    };
    proof {
        assert(chars@.subrange(r.0 as int, r.1 as int) =~= payload(chars@));
    }
    r
}

/// `n` in hexadecimal behind `0x`.
fn write_hex_tagged(n: u64) -> (out: Vec<char>)
    ensures
        out@ == hex_tagged(n as nat),
{
    let mut out: Vec<char> = Vec::new();
    out.push('0');
    out.push('x');
    write_digits(&mut out, n, 16);
    proof {
        assert(out@ =~= hex_tagged(n as nat));
    }
    out
}

/// Writes out the number `v` as the rule does.
fn write_as(rule: Rule, v: i64) -> (out: Vec<char>)
    ensures
        out@ == written(rule, v as int),
{
    let mut out: Vec<char> = Vec::new();
    match rule {
        Rule::HexToDecimal | Rule::BinaryToDecimal => {
            write_decimal(&mut out, v);
        },
        Rule::DecimalToBinary => {
            write_digits(&mut out, bits_of_signed(v), 2);
            out.push('b');
        },
        Rule::HexToBinary => {
            write_digits(&mut out, bits_of_signed(v), 2);
        },
        Rule::HexToOctal => {
            write_digits(&mut out, bits_of_signed(v), 8);
        },
        _ => {
            out = write_hex_tagged(bits_of_signed(v));
        },
    }
    proof {
        assert(out@ =~= written(rule, v as int));
    }
    out
}

/// The base in which the digits of a literal of the rule are read.
fn radix_of(rule: Rule) -> (radix: u32)
    ensures
        radix as nat == source_radix(rule),
        2 <= radix <= 16,
{
    match rule {
        Rule::HexToDecimal | Rule::BitsToDouble | Rule::HexToBinary | Rule::HexToOctal => 16,
        Rule::DecimalToBinary | Rule::DoubleToBits | Rule::DecimalToHex => 10,
        Rule::BinaryToDecimal | Rule::BinaryToHex => 2,
        Rule::OctalToHex => 8,
    }
}

/// Converts a literal of a rule that needs integers only.
fn convert_integer(chars: &Vec<char>, rule: Rule) -> (r: Result<String, BaseConversionError>)
    requires
        rule == rule_of(chars@),
        rule != Rule::BitsToDouble,
        rule != Rule::DoubleToBits,
    ensures
        forall|answer: DoubleAnswer| text_view(r) == #[trigger] convert(chars@, answer),
{
    let (start, end) = payload_bounds(chars, rule);
    match read_signed(chars, start, end, radix_of(rule)) {
        Some(v) => Ok(string_of(&write_as(rule, v))),
        None => Err(BaseConversionError::ParseIntError),
    }
}

/// What the literal asks of floating point. Where this is a question, the
/// literal's conversion is decided by the answer; where it is
/// [`DoubleWork::Nothing`], no answer is read.
pub fn double_work(input: &str) -> (work: DoubleWork)
    ensures
        work@ == work_of(input@),
{
    let chars = chars_of(input);
    let rule = classify(&chars);
    match rule {
        Rule::BitsToDouble => {
            let (start, end) = payload_bounds(&chars, rule);
            match read_unsigned(&chars, start, end, 16) {
                Some(bits) => DoubleWork::TextOfBits(bits),
                None => DoubleWork::Nothing,
            }
        },
        Rule::DoubleToBits => {
            let mut text = chars;
            text.pop();
            proof {
                assert(text@ =~= payload(input@));
            }
            DoubleWork::BitsOfText(string_of(&text))
        },
        _ => DoubleWork::Nothing,
    }
}

/// Converts the literal `input`, floating point having answered `text` where
/// the literal gives the bits of a double and `bits` where it writes a double
/// in decimal. The answer that the literal's rule does not ask for is not
/// read.
pub fn parse_num_answered(input: &str, text: &str, bits: Option<u64>) -> (r: Result<
    String,
    BaseConversionError,
>)
    ensures
        text_view(r) == convert(input@, DoubleAnswer { text: text@, bits }),
{
    let chars = chars_of(input);
    let rule = classify(&chars);
    match rule {
        Rule::BitsToDouble => {
            let (start, end) = payload_bounds(&chars, rule);
            match read_unsigned(&chars, start, end, 16) {
                Some(_) => Ok(string_of(&chars_of(text))),
                None => Err(BaseConversionError::ParseIntError),
            }
        },
        Rule::DoubleToBits => {
            match bits {
                Some(b) => Ok(string_of(&write_hex_tagged(b))),
                None => Err(BaseConversionError::ParseIntError),
            }
        },
        _ => convert_integer(&chars, rule),
    }
}

/// Converts the literal `input` by the first rule that fits it, asking
/// `codec` where that rule speaks of a double.
///
/// The result is what [`convert`] gives for the literal and for what the codec
/// answered. A literal that asks nothing of floating point is converted the
/// same way whatever the codec is. The error is always
/// [`BaseConversionError::ParseIntError`].
pub fn parse_num<C: DoubleCodec>(input: &str, codec: &C) -> (r: Result<String, BaseConversionError>)
    ensures
        exists|answer: DoubleAnswer| text_view(r) == #[trigger] convert(input@, answer),
        work_of(input@) is Nothing ==> forall|answer: DoubleAnswer|
            text_view(r) == #[trigger] convert(input@, answer),
        r matches Err(e) ==> e == BaseConversionError::ParseIntError,
{
    match double_work(input) {
        DoubleWork::Nothing => {
            let r = parse_num_answered(input, "", None);
            proof {
                assert(text_view(r) == convert(input@, DoubleAnswer { text: ""@, bits: None }));
                assert forall|answer: DoubleAnswer|
                    text_view(r) == #[trigger] convert(input@, answer) by {
                    lemma_answer_not_read(input@, DoubleAnswer { text: ""@, bits: None }, answer);
                }
            }
            r
        },
        DoubleWork::TextOfBits(bits) => {
            let text = codec.text_of_bits(bits);
            let r = parse_num_answered(input, text.as_str(), None);
            proof {
                assert(text_view(r) == convert(input@, DoubleAnswer { text: text@, bits: None }));
            }
            r
        },
        DoubleWork::BitsOfText(text) => {
            let bits = codec.bits_of_text(text.as_str());
            let r = parse_num_answered(input, "", bits);
            proof {
                assert(text_view(r) == convert(input@, DoubleAnswer { text: ""@, bits }));
            }
            r
        },
    }
}

/// A literal that asks nothing of floating point is converted the same way
/// whatever floating point says.
pub proof fn lemma_answer_not_read(s: Seq<char>, a: DoubleAnswer, b: DoubleAnswer)
    requires
        work_of(s) is Nothing,
    ensures
        convert(s, a) == convert(s, b),
{
}

/// A literal of `0x` and signed hexadecimal digits is converted to the
/// decimal text of the number that the digits write.
pub proof fn lemma_signed_hex_literal(h: Seq<char>, v: int, answer: DoubleAnswer)
    requires
        parse_signed(h, 16) == Some(v),
    ensures
        convert(seq!['0', 'x'] + h, answer) == Ok::<Seq<char>, BaseConversionError>(
            decimal_text(v),
        ),
{
    let literal = seq!['0', 'x'] + h;
    assert(literal[0] == '0' && literal[1] == 'x');
    assert(literal.skip(2) =~= h);
}

/// A hexadecimal literal is converted to the decimal text of its value:
/// where `h` holds hexadecimal digits, at least one, and their value fits in
/// a signed 64-bit number, the literal `0x` followed by `h` is converted to
/// that value written in decimal, whatever floating point says.
pub proof fn law_hex_literal_in_decimal(h: Seq<char>, answer: DoubleAnswer)
    requires
        h.len() > 0,
        all_digits(h, 16),
        digits_value(h, 16) <= i64::MAX,
    ensures
        convert(seq!['0', 'x'] + h, answer) == Ok::<Seq<char>, BaseConversionError>(
            decimal_text(digits_value(h, 16) as int),
        ),
{
    assert(is_digit(h[0], 16));
    lemma_signed_hex_literal(h, digits_value(h, 16) as int, answer);
}

/// Decimal to hexadecimal and back: a number from zero to the largest signed
/// 64-bit number, written in decimal, is converted to `0x` and its
/// hexadecimal digits, and that literal is converted to the decimal text
/// again.
pub proof fn law_decimal_hex_round_trip(n: int, first: DoubleAnswer, second: DoubleAnswer)
    requires
        0 <= n <= i64::MAX,
    ensures
        convert(decimal_text(n), first) == Ok::<Seq<char>, BaseConversionError>(
            hex_tagged(n as nat),
        ),
        convert(hex_tagged(n as nat), second) == Ok::<Seq<char>, BaseConversionError>(
            decimal_text(n),
        ),
{
    let decimal = decimal_text(n);
    lemma_digits_round_trip(n as nat, 10);
    lemma_decimal_round_trip(n);
    assert(is_digit(decimal[0], 10));
    assert(is_digit(decimal.last(), 10));
    if decimal.len() >= 2 {
        assert(is_digit(decimal[1], 10));
    }
    assert(rule_of(decimal) == Rule::DecimalToHex);

    let digits = digits_of(n as nat, 16);
    lemma_digits_round_trip(n as nat, 16);
    assert(is_digit(digits[0], 16));
    law_hex_literal_in_decimal(digits, second);
}

/// A negative number does not come back: written in decimal it is converted
/// to `0x` and the hexadecimal digits of its 64 bits, and the converter
/// refuses that literal, whose digits write too large a number.
pub proof fn law_negative_decimal_is_not_read_back(
    n: int,
    first: DoubleAnswer,
    second: DoubleAnswer,
)
    requires
        i64::MIN <= n < 0,
    ensures
        convert(decimal_text(n), first) == Ok::<Seq<char>, BaseConversionError>(
            hex_tagged(bits_of(n)),
        ),
        convert(hex_tagged(bits_of(n)), second) is Err,
{
    let decimal = decimal_text(n);
    let digits = digits_of((-n) as nat, 10);
    lemma_digits_round_trip((-n) as nat, 10);
    lemma_decimal_round_trip(n);
    assert(decimal[0] == '-');
    assert(decimal[1] == digits[0]);
    assert(decimal.last() == digits.last());
    assert(is_digit(digits[0], 10));
    assert(is_digit(digits.last(), 10));
    assert(rule_of(decimal) == Rule::DecimalToHex);

    let tagged = hex_tagged(bits_of(n));
    let hex = digits_of(bits_of(n), 16);
    lemma_digits_round_trip(bits_of(n), 16);
    assert(tagged[0] == '0' && tagged[1] == 'x');
    assert(tagged.skip(2) =~= hex);
    assert(is_digit(hex[0], 16));
}

} // verus!
