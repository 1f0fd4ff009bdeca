//! Expressions: the tokens of a text in source order and in postfix order, and
//! their evaluation into a term.

use vstd::prelude::*;
use crate::operation::{from_char, operation_of, Operation};
use crate::partition::{decides, partition, partition_spec};
use crate::postfix::{postfix, postfix_spec};
use crate::token::{is_float, is_numeric, is_number, is_qualified, is_separator, separates, trim, trimmed};

verus! {

/// A token of an expression: a number, kept as its literal, or an operation.
#[derive(Debug, Clone)]
pub enum ExpressionPart {
    Number(String),
    Operation(Operation),
}

/// What an `ExpressionPart` holds, with the literal as a sequence of characters.
pub enum PartView {
    Number(Seq<char>),
    Operation(Operation),
}

impl DeepView for ExpressionPart {
    type V = PartView;

    open spec fn deep_view(&self) -> PartView {
        match self {
            ExpressionPart::Number(s) => PartView::Number(s@),
            ExpressionPart::Operation(op) => PartView::Operation(*op),
        }
    }
}

/// The value of an expression as a term: a number literal, or an operation applied
/// to a left and a right term.
#[derive(Debug)]
pub enum Term {
    Number(String),
    Apply(Operation, Box<Term>, Box<Term>),
}

/// What a `Term` holds, with each literal as a sequence of characters.
pub enum TermView {
    Number(Seq<char>),
    Apply(Operation, Box<TermView>, Box<TermView>),
}

impl DeepView for Term {
    type V = TermView;

    open spec fn deep_view(&self) -> TermView
        decreases self,
    {
        match self {
            Term::Number(s) => TermView::Number(s@),
            Term::Apply(op, a, b) => TermView::Apply(
                *op,
                Box::new((**a).deep_view()),
                Box::new((**b).deep_view()),
            ),
        }
    }
}

/// The characters at which the text of an expression is split into tokens.
pub open spec fn separator_class() -> spec_fn(char) -> bool {
    |c: char| is_separator(c)
}

/// The tokens of the text of an expression.
pub open spec fn tokens_of(raw: Seq<char>) -> Seq<Seq<char>> {
    partition_spec(raw, separator_class())
}

/// The part that a token stands for, once the whitespace at its ends is taken off:
/// a number literal, an operator symbol, or nothing.
pub open spec fn part_of(t: Seq<char>) -> Option<PartView> {
    let u = trim(t);
    if is_float(u) {
        Some(PartView::Number(u))
    } else {
        match operation_of(u) {
            Some(op) => Some(PartView::Operation(op)),
            None => None,
        }
    }
}

/// The parts of `tokens`, in order, leaving out the tokens that stand for nothing.
pub open spec fn parts_of(tokens: Seq<Seq<char>>) -> Seq<PartView>
    decreases tokens.len(),
{
    if tokens.len() == 0 {
        seq![]
    } else {
        let rest = parts_of(tokens.drop_last());
        match part_of(tokens.last()) {
            Some(p) => rest.push(p),
            None => rest,
        }
    }
}

/// The value stack once the postfix `parts` are read from `stack`, or `None` where
/// an operation finds fewer than two values.
pub open spec fn run_rpn(parts: Seq<PartView>, stack: Seq<TermView>) -> Option<Seq<TermView>>
    decreases parts.len(),
{
    if parts.len() == 0 {
        Some(stack)
    } else {
        match parts[0] {
            PartView::Number(s) => run_rpn(parts.drop_first(), stack.push(TermView::Number(s))),
            PartView::Operation(op) => if stack.len() < 2 {
                None
            } else {
                let n = stack.len();
                run_rpn(
                    parts.drop_first(),
                    stack.take(n - 2).push(
                        TermView::Apply(op, Box::new(stack[n - 2]), Box::new(stack[n - 1])),
                    ),
                )
            },
        }
    }
}

/// The answer of the postfix `parts`: the first value left on the stack, or `None`
/// where an operation lacks operands or nothing is left.
pub open spec fn evaluate(parts: Seq<PartView>) -> Option<TermView> {
    match run_rpn(parts, seq![]) {
        Some(stack) => if stack.len() > 0 {
            Some(stack[0])
        } else {
            None
        },
        None => None,
    }
}

/// The parts of the text `raw` in source order.
pub open spec fn source_parts(raw: Seq<char>) -> Seq<PartView> {
    parts_of(tokens_of(raw))
}

/// The parts of the text `raw` in postfix order.
pub open spec fn postfix_parts(raw: Seq<char>) -> Seq<PartView> {
    parts_of(postfix_spec(tokens_of(raw)))
}

/// The answer of the text `raw`.
pub open spec fn answer_of(raw: Seq<char>) -> Option<TermView> {
    evaluate(postfix_parts(raw))
}

/// `r` holds the term that `v` gives, or is `None` where `v` is.
pub open spec fn holds_term(r: Option<Term>, v: Option<TermView>) -> bool {
    match r {
        Some(t) => v == Some(t.deep_view()),
        None => v is None,
    }
}

/// The part that the token `s` stands for.
fn parse_token(s: &str) -> (r: Option<ExpressionPart>)
    ensures
        match r {
            Some(p) => part_of(s@) == Some(p.deep_view()),
            None => part_of(s@) is None,
        },
{
    let u = trimmed(s);
    if is_number(u) {
        Some(ExpressionPart::Number(String::from_str(u)))
    } else {
        match Operation::from_str(u) {
            Some(op) => Some(ExpressionPart::Operation(op)),
            None => None,
        }
    }
}

/// The parts of the tokens `p`, in order.
fn parse_tokens(p: &Vec<String>) -> (r: Vec<ExpressionPart>)
    ensures
        r.deep_view() == parts_of(p.deep_view()),
{
    let mut parts: Vec<ExpressionPart> = Vec::new();
    let mut i: usize = 0;
    assert(p.deep_view().take(0) =~= Seq::<Seq<char>>::empty());
    assert(parts.deep_view() =~= Seq::<PartView>::empty());
    while i < p.len()
        invariant
            i <= p.len(),
            parts.deep_view() == parts_of(p.deep_view().take(i as int)),
        decreases p.len() - i,
    {
        let ghost before = parts.deep_view();
        assert(p.deep_view().take(i + 1).drop_last() =~= p.deep_view().take(i as int));
        assert(p.deep_view().take(i + 1).last() == p[i as int]@);
        match parse_token(p[i].as_str()) {
            Some(part) => {
                let ghost pv = part.deep_view();
                parts.push(part);
                assert(parts.deep_view() =~= before.push(pv));
            },
            None => {},
        }
        i = i + 1;
    }
    assert(p.deep_view().take(p.len() as int) =~= p.deep_view());
    parts
}

/// An expression: its text, its parts in source order, and its parts in postfix
/// order.
#[derive(Debug, Clone)]
pub struct Expression {
    pub raw: String,
    pub rpn: Vec<ExpressionPart>,
    pub parts: Vec<ExpressionPart>,
}

impl Expression {
    /// Whether the character `c` may be typed into an expression.
    pub fn qualified(c: &char) -> (r: bool)
        ensures
            r == is_qualified(*c),
    {
        is_numeric(*c) || from_char(*c).is_some() || *c == '.'
    }

    /// The expression whose source-order parts are those of the tokens `parts_s`
    /// and whose postfix parts are those of the tokens `rpn_s`.
    pub fn parse_vec(parts_s: &Vec<String>, rpn_s: &Vec<String>, raw: &String) -> (e: Expression)
        ensures
            e.raw@ == raw@,
            e.parts.deep_view() == parts_of(parts_s.deep_view()),
            e.rpn.deep_view() == parts_of(rpn_s.deep_view()),
    {
        Expression { rpn: parse_tokens(rpn_s), parts: parse_tokens(parts_s), raw: raw.clone() }
    }

    /// The expression of the text `expr`.
    pub fn parse_string(expr: &String) -> (e: Expression)
        ensures
            e.raw@ == expr@,
            e.parts.deep_view() == source_parts(expr@),
            e.rpn.deep_view() == postfix_parts(expr@),
            e.rpn.deep_view().to_multiset() == e.parts.deep_view().to_multiset(),
    {
        let tester = |c: char| -> (r: bool)
            ensures
                r == is_separator(c),
            { separates(c) };
        let partitioned_parts = partition(expr.as_str(), &tester);
        assert(decides(tester, separator_class()));
        let rpn = postfix(&partitioned_parts);
        proof {
            crate::pipeline::lemma_postfix_keeps_parts(tokens_of(expr@));
        }
        Expression::parse_vec(&partitioned_parts, &rpn, expr)
    }

    /// The answer of the expression: the term that evaluating its postfix parts
    /// leaves first on the stack, or `None` where an operation lacks operands or
    /// there are no parts.
    pub fn answer(&self) -> (r: Option<Term>)
        ensures
            holds_term(r, evaluate(self.rpn.deep_view())),
    {
        let ghost rpn = self.rpn.deep_view();
        let mut stack: Vec<Term> = Vec::new();
        let mut i: usize = 0;
        assert(rpn.skip(0) =~= rpn);
        assert(stack.deep_view() =~= Seq::<TermView>::empty());
        while i < self.rpn.len()
            invariant
                rpn == self.rpn.deep_view(),
                i <= self.rpn.len(),
                run_rpn(rpn.skip(i as int), stack.deep_view()) == run_rpn(rpn, seq![]),
            decreases self.rpn.len() - i,
        {
            let ghost before = stack.deep_view();
            assert(rpn.skip(i as int)[0] == self.rpn[i as int].deep_view());
            assert(rpn.skip(i as int).drop_first() =~= rpn.skip(i + 1));
            match &self.rpn[i] {
                ExpressionPart::Number(s) => {
                    stack.push(Term::Number(s.clone()));
                    assert(stack.deep_view() =~= before.push(TermView::Number(s@)));
                },
                ExpressionPart::Operation(op) => {
                    if stack.len() < 2 {
                        return None;
                    }
                    let right = stack.pop().unwrap();
                    let left = stack.pop().unwrap();
                    stack.push(Term::Apply(*op, Box::new(left), Box::new(right)));
                    let ghost n = before.len();
                    assert(stack.deep_view() =~= before.take(n - 2).push(
                        TermView::Apply(*op, Box::new(before[n - 2]), Box::new(before[n - 1])),
                    ));
                },
            }
            i = i + 1;
        }
        assert(rpn.skip(i as int) =~= Seq::<PartView>::empty());
        if stack.len() == 0 {
            None
        } else {
            let first = stack.remove(0);
            Some(first)
        }
    }
}

} // verus!
