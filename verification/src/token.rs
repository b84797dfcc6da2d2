//! Tokens, and the scan that cuts a line into them.
//!
//! The scan goes through the line once, from the left. White space is passed
//! over. Each of `+ - * / ( )` is a token by itself. Every other character
//! joins the literal that is being collected, which is handed to the
//! converter when a symbol or the end of the line is reached: what the
//! converter makes of it becomes a number token, and a literal that it
//! refuses is set aside and leaves no token.

use vstd::prelude::*;
use crate::literal::{convert, parse_num, text_view, DoubleAnswer, DoubleCodec};
use crate::text::{chars_of, string_of};

verus! {

/// One token of an expression.
#[derive(Debug, PartialEq, Eq)]
pub enum Token {
    /// A number, as the converter handed it on: never the literal as typed.
    Number(String),
    Plus,
    Minus,
    Star,
    Slash,
    LParen,
    RParen,
}

/// A token as a plain value: a number by the characters that it holds.
pub enum TokenModel {
    Number(Seq<char>),
    Plus,
    Minus,
    Star,
    Slash,
    LParen,
    RParen,
}

impl View for Token {
    type V = TokenModel;

    open spec fn view(&self) -> TokenModel {
        match self {
            Token::Number(text) => TokenModel::Number(text@),
            Token::Plus => TokenModel::Plus,
            Token::Minus => TokenModel::Minus,
            Token::Star => TokenModel::Star,
            Token::Slash => TokenModel::Slash,
            Token::LParen => TokenModel::LParen,
            Token::RParen => TokenModel::RParen,
        }
    }
}

impl Clone for Token {
    fn clone(&self) -> (copy: Self)
        ensures
            copy == *self,
    {
        match self {
            Token::Number(text) => Token::Number(text.clone()),
            Token::Plus => Token::Plus,
            Token::Minus => Token::Minus,
            Token::Star => Token::Star,
            Token::Slash => Token::Slash,
            Token::LParen => Token::LParen,
            Token::RParen => Token::RParen,
        }
    }
}

/// The tokens of `tokens` as plain values.
pub open spec fn models(tokens: Seq<Token>) -> Seq<TokenModel> {
    tokens.map_values(|t: Token| t@)
}

/// The characters of each string of `strings`.
pub open spec fn texts(strings: Seq<String>) -> Seq<Seq<char>> {
    strings.map_values(|s: String| s@)
}

/// `c` is white space: one of the characters that Unicode lists as
/// `White_Space`.
pub open spec fn is_white_space(c: char) -> bool {
    let code = c as int;
    ||| 0x09 <= code <= 0x0d
    ||| code == 0x20
    ||| code == 0x85
    ||| code == 0xa0
    ||| code == 0x1680
    ||| 0x2000 <= code <= 0x200a
    ||| code == 0x2028
    ||| code == 0x2029
    ||| code == 0x202f
    ||| code == 0x205f
    ||| code == 0x3000
}

/// The token that the character `c` is by itself, if it is one.
pub open spec fn symbol_of(c: char) -> Option<TokenModel> {
    if c == '+' {
        Some(TokenModel::Plus)
    } else if c == '-' {
        Some(TokenModel::Minus)
    } else if c == '*' {
        Some(TokenModel::Star)
    } else if c == '/' {
        Some(TokenModel::Slash)
    } else if c == '(' {
        Some(TokenModel::LParen)
    } else if c == ')' {
        Some(TokenModel::RParen)
    } else {
        None
    }
}

/// How far a scan has come: the tokens made, the literals refused, and the
/// characters of the literal that is being collected.
pub struct Scan {
    pub tokens: Seq<TokenModel>,
    pub rejected: Seq<Seq<char>>,
    pub pending: Seq<char>,
}

/// The scan after the collected literal, if there is one, was handed to the
/// converter, floating point answering `answer`.
pub open spec fn flushed(scan: Scan, answer: DoubleAnswer) -> Scan {
    if scan.pending.len() == 0 {
        scan
    } else {
        match convert(scan.pending, answer) {
            Ok(number) => Scan {
                tokens: scan.tokens.push(TokenModel::Number(number)),
                rejected: scan.rejected,
                pending: Seq::empty(),
            },
            Err(_) => Scan {
                tokens: scan.tokens,
                rejected: scan.rejected.push(scan.pending),
                pending: Seq::empty(),
            },
        }
    }
}

/// The scan after the character `c`, which stands for a literal handed on at
/// this character if floating point answers `answer`.
pub open spec fn stepped(scan: Scan, c: char, answer: DoubleAnswer) -> Scan {
    if is_white_space(c) {
        scan
    } else {
        match symbol_of(c) {
            Some(symbol) => {
                let before = flushed(scan, answer);
                Scan {
                    tokens: before.tokens.push(symbol),
                    rejected: before.rejected,
                    pending: before.pending,
                }
            },
            None => Scan {
                tokens: scan.tokens,
                rejected: scan.rejected,
                pending: scan.pending.push(c),
            },
        }
    }
}

/// The scan after all of `line`. `answers[i]` is what floating point says of
/// the literal that is handed on at the character `i` of the line.
pub open spec fn scanned(line: Seq<char>, answers: Seq<DoubleAnswer>) -> Scan
    decreases line.len(),
{
    if line.len() == 0 {
        Scan { tokens: Seq::empty(), rejected: Seq::empty(), pending: Seq::empty() }
    } else {
        stepped(scanned(line.drop_last(), answers), line.last(), answers[line.len() - 1])
    }
}

/// What the scan makes of the whole `line`: the literal collected last is
/// handed on at the end of the line, with the answer `answers[line.len()]`.
pub open spec fn tokenized(line: Seq<char>, answers: Seq<DoubleAnswer>) -> Scan {
    flushed(scanned(line, answers), answers[line.len() as int])
}

/// What the scan of a line gives.
#[derive(Debug)]
pub struct Tokenized {
    /// The tokens, in the order of the line.
    pub tokens: Vec<Token>,
    /// The literals that the converter refused, in the order of the line.
    pub rejected: Vec<String>,
}

impl View for Tokenized {
    type V = Scan;

    open spec fn view(&self) -> Scan {
        Scan { tokens: models(self.tokens@), rejected: texts(self.rejected@), pending: Seq::empty() }
    }
}

/// The scan of a line reads only the answers at the characters of the line.
pub proof fn lemma_scanned_reads_line(line: Seq<char>, a: Seq<DoubleAnswer>, b: Seq<DoubleAnswer>)
    requires
        forall|i: int| 0 <= i < line.len() ==> a[i] == b[i],
    ensures
        scanned(line, a) == scanned(line, b),
    decreases line.len(),
{
    if line.len() > 0 {
        lemma_scanned_reads_line(line.drop_last(), a, b);
    }
}

/// `c` is white space.
pub fn white_space(c: char) -> (r: bool)
    ensures
        r == is_white_space(c),
{
    let code: u32 = c as u32;
    (0x09 <= code && code <= 0x0d) || code == 0x20 || code == 0x85 || code == 0xa0 || code
        == 0x1680 || (0x2000 <= code && code <= 0x200a) || code == 0x2028 || code == 0x2029
        || code == 0x202f || code == 0x205f || code == 0x3000
}

/// The token that the character `c` is by itself, if it is one.
pub fn symbol(c: char) -> (r: Option<Token>)
    ensures
        match r {
            Some(token) => symbol_of(c) == Some(token@),
            None => symbol_of(c) is None,
        },
{
    if c == '+' {
        Some(Token::Plus)
    } else if c == '-' {
        Some(Token::Minus)
    } else if c == '*' {
        Some(Token::Star)
    } else if c == '/' {
        Some(Token::Slash)
    } else if c == '(' {
        Some(Token::LParen)
    } else if c == ')' {
        Some(Token::RParen)
    } else {
        None
    }
}

/// Hands the collected literal, if there is one, to the converter.
fn flush<C: DoubleCodec>(out: &mut Tokenized, pending: &mut Vec<char>, codec: &C)
    ensures
        final(pending)@.len() == 0,
        exists|answer: DoubleAnswer|
            final(out)@ == #[trigger] flushed(
                Scan {
                    tokens: old(out)@.tokens,
                    rejected: old(out)@.rejected,
                    pending: old(pending)@,
                },
                answer,
            ),
{
    let ghost before = Scan {
        tokens: old(out)@.tokens,
        rejected: old(out)@.rejected,
        pending: old(pending)@,
    };
    if pending.len() == 0 {
        proof {
            let answer = DoubleAnswer { text: Seq::empty(), bits: None };
            assert(pending@ =~= Seq::empty());
            assert(out@ == flushed(before, answer));
        }
        return ;
    }
    let literal = string_of(pending);
    let converted = parse_num(literal.as_str(), codec);
    let ghost answer = choose|answer: DoubleAnswer|
        text_view(converted) == #[trigger] convert(literal@, answer);
    match converted {
        Ok(number) => {
            out.tokens.push(Token::Number(number));
            proof {
                assert(models(out.tokens@) =~= before.tokens.push(TokenModel::Number(number@)));
            }
        },
        Err(_) => {
            out.rejected.push(literal);
            proof {
                assert(texts(out.rejected@) =~= before.rejected.push(before.pending));
            }
        },
    }
    pending.clear();
    proof {
        assert(pending@ =~= Seq::empty());
        assert(out@ == flushed(before, answer));
    }
}

/// Cuts `line` into tokens, asking `codec` where a literal speaks of a
/// double.
///
/// The result is what [`tokenized`] gives for the line and for what the codec
/// answered: the tokens in the order of the line, and beside them the
/// literals that the converter refused, which leave no token.
pub fn parse_expr<C: DoubleCodec>(line: &str, codec: &C) -> (out: Tokenized)
    ensures
        exists|answers: Seq<DoubleAnswer>|
            answers.len() == line@.len() + 1 && out@ == #[trigger] tokenized(line@, answers),
{
    let chars = chars_of(line);
    let mut out = Tokenized { tokens: Vec::new(), rejected: Vec::new() };
    let mut pending: Vec<char> = Vec::new();
    let ghost mut answers: Seq<DoubleAnswer> = Seq::empty();
    let ghost idle = DoubleAnswer { text: Seq::empty(), bits: None };
    let mut i: usize = 0;
    proof {
        assert(models(out.tokens@) =~= Seq::empty());
        assert(texts(out.rejected@) =~= Seq::empty());
    }
    while i < chars.len()
        invariant
            i <= chars.len(),
            answers.len() == i,
            scanned(chars@.take(i as int), answers) == (Scan {
                tokens: out@.tokens,
                rejected: out@.rejected,
                pending: pending@,
            }),
        decreases chars.len() - i,
    {
        let c = chars[i];
        let ghost seen = chars@.take(i as int);
        let ghost next = chars@.take(i + 1);
        let ghost before = scanned(seen, answers);
        let ghost mut answer = idle;
        if !white_space(c) {
            match symbol(c) {
                Some(token) => {
                    flush(&mut out, &mut pending, codec);
                    proof {
                        answer = choose|answer: DoubleAnswer|
                            out@ == #[trigger] flushed(before, answer);
                    }
                    let ghost emptied = out@;
                    out.tokens.push(token);
                    proof {
                        assert(pending@ =~= Seq::empty());
                        assert(models(out.tokens@) =~= emptied.tokens.push(token@));
                        assert(stepped(before, c, answer) == (Scan {
                            tokens: out@.tokens,
                            rejected: out@.rejected,
                            pending: pending@,
                        }));
                    }
                },
                None => {
                    pending.push(c);
                },
            }
        }
        proof {
            let longer = answers.push(answer);
            assert(next.drop_last() =~= seen);
            assert(next.last() == c);
            lemma_scanned_reads_line(seen, answers, longer);
            assert(scanned(next, longer) == stepped(before, c, answer));
            answers = longer;
        }
        i += 1;
    }
    let ghost before = scanned(chars@, answers);
    proof {
        assert(chars@.take(i as int) =~= chars@);
    }
    flush(&mut out, &mut pending, codec);
    proof {
        let answer = choose|answer: DoubleAnswer| out@ == #[trigger] flushed(before, answer);
        let all = answers.push(answer);
        lemma_scanned_reads_line(chars@, answers, all);
        assert(out@ == tokenized(line@, all));
    }
    out
}

} // verus!
