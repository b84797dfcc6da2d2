//! From infix to postfix order, by the shunting yard.
//!
//! The four operators weigh the same and group to the left, so an operator
//! that arrives sends every operator waiting above the last open parenthesis
//! to the output before it waits itself.

use vstd::prelude::*;
use vstd::std_specs::iter::IteratorSpec;
use crate::token::{models, Token, TokenModel};

verus! {

/// The yard at work: the tokens put out so far, and those that wait, the one
/// that came last at the end.
pub struct Yard {
    pub output: Seq<TokenModel>,
    pub waiting: Seq<TokenModel>,
}

/// The yard after the token that waited last has gone to the output.
pub open spec fn released(yard: Yard) -> Yard {
    Yard { output: yard.output.push(yard.waiting.last()), waiting: yard.waiting.drop_last() }
}

/// The yard after an operator has arrived and before it waits: everything
/// that waited above the last open parenthesis has gone to the output, the
/// one that came last first.
pub open spec fn cleared(yard: Yard) -> Yard
    decreases yard.waiting.len(),
{
    if yard.waiting.len() == 0 || yard.waiting.last() is LParen {
        yard
    } else {
        cleared(released(yard))
    }
}

/// The yard after a closing parenthesis has arrived: everything that waited
/// above the last open parenthesis has gone to the output, and that
/// parenthesis is gone. Where none waits, all that waited has gone to the
/// output and the closing parenthesis is passed over.
pub open spec fn closed(yard: Yard) -> Yard
    decreases yard.waiting.len(),
{
    if yard.waiting.len() == 0 {
        yard
    } else if yard.waiting.last() is LParen {
        Yard { output: yard.output, waiting: yard.waiting.drop_last() }
    } else {
        closed(released(yard))
    }
}

/// The yard after the token `token` has arrived.
pub open spec fn fed(yard: Yard, token: TokenModel) -> Yard {
    match token {
        TokenModel::Number(_) => Yard { output: yard.output.push(token), waiting: yard.waiting },
        TokenModel::LParen => Yard { output: yard.output, waiting: yard.waiting.push(token) },
        TokenModel::RParen => closed(yard),
        _ => {
            let before = cleared(yard);
            Yard { output: before.output, waiting: before.waiting.push(token) }
        },
    }
}

/// The yard after all of `tokens` have arrived, in order.
pub open spec fn yard_after(tokens: Seq<TokenModel>) -> Yard
    decreases tokens.len(),
{
    if tokens.len() == 0 {
        Yard { output: Seq::empty(), waiting: Seq::empty() }
    } else {
        fed(yard_after(tokens.drop_last()), tokens.last())
    }
}

/// `tokens` in postfix order: what the yard has put out when all of them
/// have arrived, followed by what still waits, the one that came last first.
/// An open parenthesis that was never closed still waits then, and so
/// stands in the result.
pub open spec fn postfix(tokens: Seq<TokenModel>) -> Seq<TokenModel> {
    let yard = yard_after(tokens);
    yard.output + yard.waiting.reverse()
}

/// Sends what waits above the last open parenthesis to the output.
fn clear(output: &mut Vec<Token>, waiting: &mut Vec<Token>)
    ensures
        (Yard { output: models(final(output)@), waiting: models(final(waiting)@) }) == cleared(
            Yard { output: models(old(output)@), waiting: models(old(waiting)@) },
        ),
{
    let ghost goal = cleared(Yard { output: models(output@), waiting: models(waiting@) });
    while waiting.len() > 0 && !matches!(waiting[waiting.len() - 1], Token::LParen)
        invariant
            cleared(Yard { output: models(output@), waiting: models(waiting@) }) == goal,
        decreases waiting.len(),
    {
        let ghost yard = Yard { output: models(output@), waiting: models(waiting@) };
        let top = waiting.pop().unwrap();
        output.push(top);
        proof {
            assert(models(waiting@) =~= yard.waiting.drop_last());
            assert(models(output@) =~= yard.output.push(yard.waiting.last()));
        }
    }
}

/// Sends what waits above the last open parenthesis to the output and drops
/// that parenthesis.
fn close(output: &mut Vec<Token>, waiting: &mut Vec<Token>)
    ensures
        (Yard { output: models(final(output)@), waiting: models(final(waiting)@) }) == closed(
            Yard { output: models(old(output)@), waiting: models(old(waiting)@) },
        ),
{
    let ghost goal = closed(Yard { output: models(output@), waiting: models(waiting@) });
    let mut found = false;
    while !found && waiting.len() > 0
        invariant
            found ==> (Yard { output: models(output@), waiting: models(waiting@) }) == goal,
            !found ==> closed(Yard { output: models(output@), waiting: models(waiting@) })
                == goal,
        decreases waiting.len() + if found { 0int } else { 1int },
    {
        let ghost yard = Yard { output: models(output@), waiting: models(waiting@) };
        let top = waiting.pop().unwrap();
        proof {
            assert(models(waiting@) =~= yard.waiting.drop_last());
        }
        if matches!(top, Token::LParen) {
            found = true;
        } else {
            output.push(top);
            proof {
                assert(models(output@) =~= yard.output.push(yard.waiting.last()));
            }
        }
    }
}

/// Puts `tokens`, given in infix order, into postfix order: the result is
/// what [`postfix`] gives.
///
/// Parentheses that match do not reach the result. A closing parenthesis
/// that nothing opened is passed over, and an open parenthesis that nothing
/// closes is put out at the end with the operators that still wait.
pub fn infix_to_postfix(tokens: Vec<Token>) -> (output: Vec<Token>)
    ensures
        models(output@) == postfix(models(tokens@)),
{
    let ghost all = tokens@;
    let mut output: Vec<Token> = Vec::new();
    let mut waiting: Vec<Token> = Vec::new();
    proof {
        assert(models(all.take(0)) =~= Seq::empty());
        assert(models(output@) =~= Seq::empty());
        assert(models(waiting@) =~= Seq::empty());
    }
    for token in it: tokens.into_iter()
        invariant
            it.seq() == all,
            (Yard { output: models(output@), waiting: models(waiting@) }) == yard_after(
                models(all.take(it.index() as int)),
            ),
    {
        let ghost seen = models(all.take(it.index() as int));
        let ghost next = models(all.take(it.index() + 1));
        let ghost yard = yard_after(seen);
        proof {
            assert(next.drop_last() =~= seen);
            assert(next.last() == token@);
        }
        match token {
            Token::Number(_) => {
                output.push(token);
                proof {
                    assert(models(output@) =~= yard.output.push(token@));
                }
            },
            Token::LParen => {
                waiting.push(token);
                proof {
                    assert(models(waiting@) =~= yard.waiting.push(token@));
                }
            },
            Token::RParen => {
                close(&mut output, &mut waiting);
            },
            _ => {
                clear(&mut output, &mut waiting);
                let ghost before = models(waiting@);
                waiting.push(token);
                proof {
                    assert(models(waiting@) =~= before.push(token@));
                }
            },
        }
    }
    proof {
        assert(all.take(all.len() as int) =~= all);
    }
    let ghost goal = postfix(models(all));
    while waiting.len() > 0
        invariant
            models(output@) + models(waiting@).reverse() == goal,
        decreases waiting.len(),
    {
        let ghost yard = Yard { output: models(output@), waiting: models(waiting@) };
        let top = waiting.pop().unwrap();
        output.push(top);
        proof {
            assert(models(waiting@) =~= yard.waiting.drop_last());
            assert(models(output@) =~= yard.output.push(yard.waiting.last()));
            assert(models(output@) + models(waiting@).reverse() =~= yard.output
                + yard.waiting.reverse());
        }
    }
    proof {
        assert(models(output@) + models(waiting@).reverse() =~= models(output@));
    }
    output
}

/// The number tokens of `tokens`, in their order.
pub open spec fn numbers(tokens: Seq<TokenModel>) -> Seq<TokenModel>
    decreases tokens.len(),
{
    if tokens.len() == 0 {
        Seq::empty()
    } else if tokens.last() is Number {
        numbers(tokens.drop_last()).push(tokens.last())
    } else {
        numbers(tokens.drop_last())
    }
}

/// `tokens` holds operators and open parentheses only: what may wait in the
/// yard.
pub open spec fn may_wait(tokens: Seq<TokenModel>) -> bool {
    forall|i: int|
        0 <= i < tokens.len() ==> !((#[trigger] tokens[i]) is Number) && !(tokens[i] is RParen)
}

/// `tokens` holds no closing parenthesis.
pub open spec fn holds_no_closing(tokens: Seq<TokenModel>) -> bool {
    forall|i: int| 0 <= i < tokens.len() ==> !((#[trigger] tokens[i]) is RParen)
}

/// The yard is in order: only operators and open parentheses wait, and no
/// closing parenthesis was put out.
pub open spec fn in_order(yard: Yard) -> bool {
    may_wait(yard.waiting) && holds_no_closing(yard.output)
}

/// Tokens that may wait add no number, in any order.
proof fn lemma_numbers_of_waiting(front: Seq<TokenModel>, back: Seq<TokenModel>)
    requires
        may_wait(back),
    ensures
        numbers(front + back) == numbers(front),
    decreases back.len(),
{
    if back.len() == 0 {
        assert(front + back =~= front);
    } else {
        assert((front + back).drop_last() =~= front + back.drop_last());
        assert((front + back).last() == back[back.len() - 1]);
        assert forall|i: int| 0 <= i < back.drop_last().len() implies !((
        #[trigger] back.drop_last()[i]) is Number) && !(back.drop_last()[i] is RParen) by {
            assert(back.drop_last()[i] == back[i]);
        }
        lemma_numbers_of_waiting(front, back.drop_last());
    }
}

/// Releasing a token keeps the yard in order and its numbers as they are.
proof fn lemma_released(yard: Yard)
    requires
        in_order(yard),
        yard.waiting.len() > 0,
    ensures
        in_order(released(yard)),
        numbers(released(yard).output) == numbers(yard.output),
        released(yard).output.len() + released(yard).waiting.len() == yard.output.len()
            + yard.waiting.len(),
{
    let after = released(yard);
    let top = yard.waiting.last();
    assert(top == yard.waiting[yard.waiting.len() - 1]);
    assert forall|i: int| 0 <= i < after.waiting.len() implies !((
    #[trigger] after.waiting[i]) is Number) && !(after.waiting[i] is RParen) by {
        assert(after.waiting[i] == yard.waiting[i]);
    }
    assert forall|i: int| 0 <= i < after.output.len() implies !((
    #[trigger] after.output[i]) is RParen) by {
        if i < yard.output.len() {
            assert(after.output[i] == yard.output[i]);
        }
    }
    assert(after.output.drop_last() =~= yard.output);
}

/// An arriving operator keeps the yard in order and its numbers as they are,
/// and moves tokens without adding or losing one.
proof fn lemma_cleared(yard: Yard)
    requires
        in_order(yard),
    ensures
        in_order(cleared(yard)),
        numbers(cleared(yard).output) == numbers(yard.output),
        cleared(yard).output.len() + cleared(yard).waiting.len() == yard.output.len()
            + yard.waiting.len(),
    decreases yard.waiting.len(),
{
    if !(yard.waiting.len() == 0 || yard.waiting.last() is LParen) {
        lemma_released(yard);
        lemma_cleared(released(yard));
    }
}

/// A closing parenthesis keeps the yard in order and its numbers as they
/// are, and adds no token.
proof fn lemma_closed(yard: Yard)
    requires
        in_order(yard),
    ensures
        in_order(closed(yard)),
        numbers(closed(yard).output) == numbers(yard.output),
        closed(yard).output.len() + closed(yard).waiting.len() <= yard.output.len()
            + yard.waiting.len(),
    decreases yard.waiting.len(),
{
    if yard.waiting.len() == 0 {
    } else if yard.waiting.last() is LParen {
        let after = closed(yard);
        assert forall|i: int| 0 <= i < after.waiting.len() implies !((
        #[trigger] after.waiting[i]) is Number) && !(after.waiting[i] is RParen) by {
            assert(after.waiting[i] == yard.waiting[i]);
        }
    } else {
        lemma_released(yard);
        lemma_closed(released(yard));
    }
}

/// After any tokens the yard is in order, has put out their numbers in their
/// order, and holds no more tokens than have arrived.
pub proof fn lemma_yard_in_order(tokens: Seq<TokenModel>)
    ensures
        in_order(yard_after(tokens)),
        numbers(yard_after(tokens).output) == numbers(tokens),
        yard_after(tokens).output.len() + yard_after(tokens).waiting.len() <= tokens.len(),
    decreases tokens.len(),
{
    if tokens.len() > 0 {
        let before = yard_after(tokens.drop_last());
        let token = tokens.last();
        let after = yard_after(tokens);
        lemma_yard_in_order(tokens.drop_last());
        match token {
            TokenModel::Number(_) => {
                assert(after.output.drop_last() =~= before.output);
                assert forall|i: int| 0 <= i < after.output.len() implies !((
                #[trigger] after.output[i]) is RParen) by {
                    if i < before.output.len() {
                        assert(after.output[i] == before.output[i]);
                    }
                }
            },
            TokenModel::LParen => {
                assert forall|i: int| 0 <= i < after.waiting.len() implies !((
                #[trigger] after.waiting[i]) is Number) && !(after.waiting[i] is RParen) by {
                    if i < before.waiting.len() {
                        assert(after.waiting[i] == before.waiting[i]);
                    }
                }
            },
            TokenModel::RParen => {
                lemma_closed(before);
            },
            _ => {
                lemma_cleared(before);
                let between = cleared(before);
                assert forall|i: int| 0 <= i < after.waiting.len() implies !((
                #[trigger] after.waiting[i]) is Number) && !(after.waiting[i] is RParen) by {
                    if i < between.waiting.len() {
                        assert(after.waiting[i] == between.waiting[i]);
                    }
                }
            },
        }
    }
}

/// The postfix order keeps the numbers and their order, holds no closing
/// parenthesis, and is no longer than the infix order.
pub proof fn law_postfix_keeps_numbers(tokens: Seq<TokenModel>)
    ensures
        numbers(postfix(tokens)) == numbers(tokens),
        holds_no_closing(postfix(tokens)),
        postfix(tokens).len() <= tokens.len(),
{
    let yard = yard_after(tokens);
    let last = yard.waiting.reverse();
    lemma_yard_in_order(tokens);
    assert forall|i: int| 0 <= i < last.len() implies !((#[trigger] last[i]) is Number) && !(
    last[i] is RParen) by {
        assert(last[i] == yard.waiting[yard.waiting.len() - 1 - i]);
    }
    lemma_numbers_of_waiting(yard.output, last);
    assert forall|i: int| 0 <= i < postfix(tokens).len() implies !((
    #[trigger] postfix(tokens)[i]) is RParen) by {
        if i < yard.output.len() {
            assert(postfix(tokens)[i] == yard.output[i]);
        } else {
            assert(postfix(tokens)[i] == last[i - yard.output.len()]);
        }
    }
}

/// An expression without parentheses in infix order: a first operand, and
/// then each of `rest`, an operator with the operand on its right.
pub open spec fn flat_infix(first: TokenModel, rest: Seq<(TokenModel, TokenModel)>) -> Seq<
    TokenModel,
>
    decreases rest.len(),
{
    if rest.len() == 0 {
        seq![first]
    } else {
        flat_infix(first, rest.drop_last()).push(rest.last().0).push(rest.last().1)
    }
}

/// The same expression in postfix order, the operators applied from left to
/// right: each operator stands behind the operand on its right.
pub open spec fn flat_postfix(first: TokenModel, rest: Seq<(TokenModel, TokenModel)>) -> Seq<
    TokenModel,
>
    decreases rest.len(),
{
    if rest.len() == 0 {
        seq![first]
    } else {
        flat_postfix(first, rest.drop_last()).push(rest.last().1).push(rest.last().0)
    }
}

/// `rest` holds pairs of one of the four operators and a number.
pub open spec fn operators_and_numbers(rest: Seq<(TokenModel, TokenModel)>) -> bool {
    forall|i: int|
        0 <= i < rest.len() ==> {
            let op = (#[trigger] rest[i]).0;
            &&& op is Plus || op is Minus || op is Star || op is Slash
            &&& rest[i].1 is Number
        }
}

/// The yard after an expression without parentheses: everything is put out
/// but the last operator, which waits alone.
proof fn lemma_flat_yard(first: TokenModel, rest: Seq<(TokenModel, TokenModel)>)
    requires
        first is Number,
        operators_and_numbers(rest),
    ensures
        rest.len() == 0 ==> yard_after(flat_infix(first, rest)) == (Yard {
            output: seq![first],
            waiting: Seq::empty(),
        }),
        rest.len() > 0 ==> yard_after(flat_infix(first, rest)) == (Yard {
            output: flat_postfix(first, rest).drop_last(),
            waiting: seq![rest.last().0],
        }),
    decreases rest.len(),
{
    let tokens = flat_infix(first, rest);
    if rest.len() == 0 {
        let nothing = Seq::<TokenModel>::empty();
        assert(tokens.drop_last() =~= nothing);
        assert(tokens.last() == first);
        assert(yard_after(nothing) == (Yard { output: Seq::empty(), waiting: Seq::empty() }));
        assert(yard_after(tokens) == fed(yard_after(nothing), first));
        assert(yard_after(tokens).output =~= seq![first]);
        assert(yard_after(tokens).waiting =~= Seq::empty());
    } else {
        let front = rest.drop_last();
        let op = rest.last().0;
        let number = rest.last().1;
        assert(rest[rest.len() - 1] == rest.last());
        assert forall|i: int| 0 <= i < front.len() implies {
            let op = (#[trigger] front[i]).0;
            &&& op is Plus || op is Minus || op is Star || op is Slash
            &&& front[i].1 is Number
        } by {
            assert(front[i] == rest[i]);
        }
        lemma_flat_yard(first, front);
        let start = yard_after(flat_infix(first, front));
        assert(tokens.drop_last() =~= flat_infix(first, front).push(op));
        assert(tokens.drop_last().drop_last() =~= flat_infix(first, front));
        let middle = yard_after(tokens.drop_last());
        assert(middle == fed(start, op));
        assert(yard_after(tokens) == fed(middle, number));
        if front.len() == 0 {
            assert(cleared(start) == start);
            assert(middle.waiting =~= seq![op]);
            assert(flat_postfix(first, front) =~= seq![first]);
            assert(flat_postfix(first, rest).drop_last() =~= seq![first].push(number));
        } else {
            let before = front.last().0;
            assert(front[front.len() - 1] == front.last());
            assert(start.waiting.last() == before);
            assert(start.waiting.drop_last() =~= Seq::empty());
            assert(released(start).output =~= flat_postfix(first, front));
            assert(cleared(released(start)) == released(start));
            assert(cleared(start) == released(start));
            assert(middle.waiting =~= seq![op]);
            assert(flat_postfix(first, rest).drop_last() =~= flat_postfix(first, front).push(
                number,
            ));
        }
    }
}

/// Without parentheses the four operators weigh the same and apply from left
/// to right: the postfix order of `a op b op c ..` is `a b op c op ..`,
/// whichever operators stand there.
pub proof fn law_operators_apply_left_to_right(
    first: TokenModel,
    rest: Seq<(TokenModel, TokenModel)>,
)
    requires
        first is Number,
        operators_and_numbers(rest),
    ensures
        postfix(flat_infix(first, rest)) == flat_postfix(first, rest),
{
    lemma_flat_yard(first, rest);
    let yard = yard_after(flat_infix(first, rest));
    if rest.len() == 0 {
        assert(yard.output + yard.waiting.reverse() =~= seq![first]);
    } else {
        assert(yard.waiting.reverse() =~= seq![rest.last().0]);
        assert(yard.output + yard.waiting.reverse() =~= flat_postfix(first, rest));
    }
}

} // verus!
