//! Reordering infix tokens into postfix form by operator precedence.

use vstd::prelude::*;
use crate::operation::{operation_of, precedence, Operation};
use crate::token::{is_float, is_number, trim, trimmed};

verus! {

/// The precedence of an operator symbol on the stack.
pub open spec fn rank_of(s: Seq<char>) -> u16 {
    match operation_of(trim(s)) {
        Some(op) => op.rank(),
        None => 0,
    }
}

/// Output and stack after the operator `tok` of precedence `p` meets the stack:
/// operators of equal or higher precedence leave the top of the stack for the
/// output, then `tok` is pushed.
pub open spec fn push_operator(
    post: Seq<Seq<char>>,
    stack: Seq<Seq<char>>,
    tok: Seq<char>,
    p: u16,
) -> (Seq<Seq<char>>, Seq<Seq<char>>)
    decreases stack.len(),
{
    if stack.len() == 0 {
        (post, seq![tok])
    } else if p <= rank_of(stack.last()) {
        push_operator(post.push(stack.last()), stack.drop_last(), tok, p)
    } else {
        (post, stack.push(tok))
    }
}

/// Output and stack after one token, read without the whitespace at its ends: a number
/// goes to the output, an operator meets the stack, anything else is skipped.
pub open spec fn step(post: Seq<Seq<char>>, stack: Seq<Seq<char>>, tok: Seq<char>) -> (
    Seq<Seq<char>>,
    Seq<Seq<char>>,
) {
    if is_float(trim(tok)) {
        (post.push(tok), stack)
    } else {
        match operation_of(trim(tok)) {
            Some(op) => push_operator(post, stack, tok, op.rank()),
            None => (post, stack),
        }
    }
}

/// The postfix output once `tokens` are read from the given output and stack, and
/// the stack is then emptied top first.
pub open spec fn postfix_run(
    tokens: Seq<Seq<char>>,
    post: Seq<Seq<char>>,
    stack: Seq<Seq<char>>,
) -> Seq<Seq<char>>
    decreases tokens.len(),
{
    if tokens.len() == 0 {
        post + stack.reverse()
    } else {
        let (p, s) = step(post, stack, tokens[0]);
        postfix_run(tokens.drop_first(), p, s)
    }
}

/// The postfix form of `tokens`.
pub open spec fn postfix_spec(tokens: Seq<Seq<char>>) -> Seq<Seq<char>> {
    postfix_run(tokens, seq![], seq![])
}

/// Every entry of the stack is an operator symbol.
pub open spec fn all_operators(stack: Seq<Seq<char>>) -> bool {
    forall|k: int| 0 <= k < stack.len() ==> (#[trigger] operation_of(trim(stack[k]))) is Some
}

/// Reorders number and operator tokens into postfix form, each token read without
/// the whitespace at its ends. Tokens that are neither a number nor an operator are
/// left out; the others are kept as they are.
pub fn postfix(string: &Vec<String>) -> (r: Vec<String>)
    ensures
        r.deep_view() == postfix_spec(string.deep_view()),
{
    let ghost tokens = string.deep_view();
    let mut post: Vec<String> = Vec::new();
    let mut stack: Vec<String> = Vec::new();
    let mut i: usize = 0;
    assert(tokens.skip(0) =~= tokens);
    assert(post.deep_view() =~= Seq::<Seq<char>>::empty());
    assert(stack.deep_view() =~= Seq::<Seq<char>>::empty());
    while i < string.len()
        invariant
            tokens == string.deep_view(),
            i <= string.len(),
            all_operators(stack.deep_view()),
            postfix_run(tokens.skip(i as int), post.deep_view(), stack.deep_view())
                == postfix_spec(tokens),
        decreases string.len() - i,
    {
        let c = &string[i];
        let ghost before = (post.deep_view(), stack.deep_view());
        assert(c@ == tokens[i as int]);
        let t = trimmed(c.as_str());
        if is_number(t) {
            post.push(c.clone());
            assert(post.deep_view() =~= before.0.push(c@));
        } else {
            match Operation::from_str(t) {
                Some(op) => {
                    let p = op.precedence();
                    push_onto(&mut post, &mut stack, c, p);
                },
                None => {},
            }
        }
        assert(tokens.skip(i as int).drop_first() =~= tokens.skip(i + 1));
        i = i + 1;
    }
    let ghost mid = post.deep_view();
    let ghost rest = stack.deep_view();
    while stack.len() > 0
        invariant
            post.deep_view() + stack.deep_view().reverse() == mid + rest.reverse(),
        decreases stack.len(),
    {
        let ghost b = (post.deep_view(), stack.deep_view());
        let top = stack.pop().unwrap();
        post.push(top);
        assert(b.1.reverse() =~= seq![b.1.last()] + b.1.drop_last().reverse());
        assert(stack.deep_view() =~= b.1.drop_last());
        assert(post.deep_view() =~= b.0.push(b.1.last()));
    }
    assert(tokens.skip(string.len() as int) =~= Seq::<Seq<char>>::empty());
    assert(stack.deep_view().reverse() =~= Seq::<Seq<char>>::empty());
    assert(post.deep_view() =~= mid + rest.reverse());
    post
}

/// Lets the operator `tok` of precedence `p` meet the stack.
fn push_onto(post: &mut Vec<String>, stack: &mut Vec<String>, tok: &String, p: u16)
    requires
        all_operators(old(stack).deep_view()),
        operation_of(trim(tok@)) is Some,
        p == rank_of(tok@),
    ensures
        all_operators(final(stack).deep_view()),
        (final(post).deep_view(), final(stack).deep_view()) == push_operator(
            old(post).deep_view(),
            old(stack).deep_view(),
            tok@,
            p,
        ),
{
    let ghost target = push_operator(post.deep_view(), stack.deep_view(), tok@, p);
    loop
        invariant_except_break
            push_operator(post.deep_view(), stack.deep_view(), tok@, p) == target,
        invariant
            all_operators(stack.deep_view()),
            operation_of(trim(tok@)) is Some,
        ensures
            all_operators(stack.deep_view()),
            (post.deep_view(), stack.deep_view()) == target,
        decreases stack.len(),
    {
        let ghost b = (post.deep_view(), stack.deep_view());
        if stack.len() == 0 {
            stack.push(tok.clone());
            assert(stack.deep_view() =~= seq![tok@]);
            break;
        }
        let n = stack.len();
        let top_p = match precedence(trimmed(stack[n - 1].as_str())) {
            Some(t) => t,
            None => 0,
        };
        assert(stack[n - 1]@ == b.1.last());
        if p <= top_p {
            let top = stack.pop().unwrap();
            post.push(top);
            assert(stack.deep_view() =~= b.1.drop_last());
            assert(post.deep_view() =~= b.0.push(b.1.last()));
        } else {
            stack.push(tok.clone());
            assert(stack.deep_view() =~= b.1.push(tok@));
            break;
        }
    }
}

} // verus!

verus! {

proof fn lemma_postfix_run_numbers(tokens: Seq<Seq<char>>, post: Seq<Seq<char>>)
    requires
        forall|i: int| 0 <= i < tokens.len() ==> is_float(trim(#[trigger] tokens[i])),
    ensures
        postfix_run(tokens, post, seq![]) == post + tokens,
    decreases tokens.len(),
{
    if tokens.len() == 0 {
        assert(post + Seq::<Seq<char>>::empty().reverse() =~= post + tokens);
    } else {
        let rest = tokens.drop_first();
        assert forall|i: int| 0 <= i < rest.len() implies is_float(trim(#[trigger] rest[i])) by {
            assert(rest[i] == tokens[i + 1]);
        }
        assert(is_float(trim(tokens[0])));
        lemma_postfix_run_numbers(rest, post.push(tokens[0]));
        assert(post.push(tokens[0]) + rest =~= post + tokens);
    }
}

/// Where every token is a number, the postfix form is the tokens in their order.
pub proof fn lemma_postfix_numbers(tokens: Seq<Seq<char>>)
    requires
        forall|i: int| 0 <= i < tokens.len() ==> is_float(trim(#[trigger] tokens[i])),
    ensures
        postfix_spec(tokens) == tokens,
{
    lemma_postfix_run_numbers(tokens, seq![]);
    assert(Seq::<Seq<char>>::empty() + tokens =~= tokens);
}

} // verus!
