//! What the whole pipeline, from text to answer, gives on texts of a known shape.

use vstd::prelude::*;
use vstd::multiset::Multiset;
use crate::expression::{
    answer_of, evaluate, part_of, parts_of, postfix_parts, separator_class, source_parts,
    tokens_of, PartView, TermView,
};
use crate::operation::{operation_of, Operation};
use crate::partition::{flush, partition_from};
use crate::postfix::{postfix_run, postfix_spec, push_operator, rank_of, step};
use crate::token::{
    all_digits, is_decimal, is_digit, is_float, is_mantissa, is_separator, is_space, lowered, trim,
    trim_end, trim_start, unsigned,
};

verus! {

/// No character of `x` splits tokens.
pub open spec fn no_separator(x: Seq<char>) -> bool {
    forall|i: int| 0 <= i < x.len() ==> !is_separator(#[trigger] x[i])
}

proof fn lemma_decimal_no_separator(a: Seq<char>)
    requires
        is_decimal(a),
    ensures
        no_separator(a),
        a.len() > 0,
        a[0] != ' ',
        a.last() != ' ',
{
    assert forall|i: int| 0 <= i < a.len() implies !is_separator(#[trigger] a[i]) by {
        assert(is_digit(a[i]) || a[i] == '.');
    }
    assert(is_digit(a[0]) || a[0] == '.');
    assert(is_digit(a[a.len() - 1]) || a[a.len() - 1] == '.');
}

/// A decimal literal is a number literal.
proof fn lemma_decimal_float(a: Seq<char>)
    requires
        is_decimal(a),
    ensures
        is_float(a),
        trim(a) == a,
{
    lemma_decimal_no_separator(a);
    assert(trim_start(a) == a);
    assert(trim_end(a) == a);
    assert(is_digit(a[0]) || a[0] == '.');
    assert(unsigned(a) == a);
    if !all_digits(a) {
        let j = choose|j: int| 0 <= j < a.len() && !is_digit(#[trigger] a[j]);
        assert(a[j] == '.');
        let d = choose|i: int| 0 <= i < a.len() && is_digit(#[trigger] a[i]);
        assert(d != j);
        assert forall|i: int| 0 <= i < a.take(j).len() implies is_digit(#[trigger] a.take(j)[i]) by {
            assert(a.take(j)[i] == a[i]);
            assert(is_digit(a[i]) || a[i] == '.');
        }
        assert forall|i: int| 0 <= i < a.skip(j + 1).len() implies is_digit(
            #[trigger] a.skip(j + 1)[i],
        ) by {
            assert(a.skip(j + 1)[i] == a[j + 1 + i]);
            assert(is_digit(a[j + 1 + i]) || a[j + 1 + i] == '.');
        }
        assert(is_mantissa(a));
    }
}

/// A text of at most one character, and no digit, is no number literal.
proof fn lemma_short_not_float(u: Seq<char>)
    requires
        u.len() <= 1,
        u.len() == 1 ==> !is_digit(u[0]),
    ensures
        !is_float(u),
{
    let v = unsigned(u);
    assert(v.len() <= 1);
    if v.len() == 1 {
        assert(v[0] == u[0]);
    }
    assert(lowered(v).len() == v.len());
    assert(lowered(v) != seq!['i', 'n', 'f']);
    assert(lowered(v) != seq!['n', 'a', 'n']);
    assert(lowered(v) != seq!['i', 'n', 'f', 'i', 'n', 'i', 't', 'y']);
    assert(!is_mantissa(v));
    assert forall|k: int| 0 <= k < v.len() implies !is_mantissa(#[trigger] v.take(k)) by {
        assert(v.take(k).len() == 0);
    }
}

/// A one-character token other than a digit is no number literal once trimmed:
/// trimming leaves it as it is, or empty where it is whitespace.
proof fn lemma_char_not_float(c: char)
    requires
        !is_digit(c),
    ensures
        !is_float(trim(seq![c])),
        !is_space(c) ==> trim(seq![c]) == seq![c],
        is_space(c) ==> trim(seq![c]).len() == 0,
{
    let s = seq![c];
    assert(s[0] == c);
    assert(s.last() == c);
    if is_space(c) {
        let e = Seq::<char>::empty();
        assert(s.drop_first() =~= e);
        assert(trim_start(e) == e);
        assert(trim_start(s) == e);
        assert(trim_end(e) == e);
    } else {
        assert(trim_start(s) == s);
        assert(trim_end(s) == s);
    }
    lemma_short_not_float(trim(s));
}

proof fn lemma_run_absorbs(x: Seq<char>, rest: Seq<char>, run: Seq<char>)
    requires
        no_separator(x),
    ensures
        partition_from(x + rest, separator_class(), run) == partition_from(
            rest,
            separator_class(),
            run + x,
        ),
    decreases x.len(),
{
    if x.len() == 0 {
        assert(x + rest =~= rest);
        assert(run + x =~= run);
    } else {
        assert((x + rest)[0] == x[0]);
        assert(!is_separator(x[0]));
        assert((x + rest).drop_first() =~= x.drop_first() + rest);
        let y = x.drop_first();
        assert forall|i: int| 0 <= i < y.len() implies !is_separator(#[trigger] y[i]) by {
            assert(y[i] == x[i + 1]);
        }
        lemma_run_absorbs(y, rest, run.push(x[0]));
        assert(run.push(x[0]) + y =~= run + x);
    }
}

proof fn lemma_separator_splits(x: Seq<char>, c: char, y: Seq<char>, run: Seq<char>)
    requires
        is_separator(c),
    ensures
        partition_from(x + seq![c] + y, separator_class(), run) == partition_from(
            x,
            separator_class(),
            run,
        ) + seq![seq![c]] + partition_from(y, separator_class(), seq![]),
    decreases x.len(),
{
    let s = separator_class();
    if x.len() == 0 {
        assert(x + seq![c] + y =~= seq![c] + y);
        assert((seq![c] + y).drop_first() =~= y);
    } else {
        let whole = x + seq![c] + y;
        assert(whole[0] == x[0]);
        assert(whole.drop_first() =~= x.drop_first() + seq![c] + y);
        if is_separator(x[0]) {
            lemma_separator_splits(x.drop_first(), c, y, seq![]);
            assert(flush(run) + seq![seq![x[0]]] + (partition_from(x.drop_first(), s, seq![])
                + seq![seq![c]] + partition_from(y, s, seq![])) =~= flush(run) + seq![
                seq![x[0]],
            ] + partition_from(x.drop_first(), s, seq![]) + seq![seq![c]] + partition_from(
                y,
                s,
                seq![],
            ));
        } else {
            lemma_separator_splits(x.drop_first(), c, y, run.push(x[0]));
        }
    }
}

/// The tokens of a number literal `a`, an operator `o` and the text `rest`.
proof fn lemma_tokens_step(a: Seq<char>, o: char, rest: Seq<char>)
    requires
        is_decimal(a),
        operation_of(seq![o]) is Some,
    ensures
        partition_from(a + seq![o] + rest, separator_class(), seq![]) == seq![a, seq![o]]
            + partition_from(rest, separator_class(), seq![]),
{
    lemma_decimal_no_separator(a);
    assert(a + seq![o] + rest =~= a + (seq![o] + rest));
    lemma_run_absorbs(a, seq![o] + rest, seq![]);
    assert(Seq::<char>::empty() + a =~= a);
    assert((seq![o] + rest)[0] == o);
    assert((seq![o] + rest).drop_first() =~= rest);
    assert(is_separator(o));
    assert(flush(a) + seq![seq![o]] =~= seq![a, seq![o]]);
}

/// The tokens of a number literal alone.
proof fn lemma_tokens_last(b: Seq<char>)
    requires
        is_decimal(b),
    ensures
        partition_from(b, separator_class(), seq![]) == seq![b],
{
    lemma_decimal_no_separator(b);
    assert(b + Seq::<char>::empty() =~= b);
    lemma_run_absorbs(b, seq![], seq![]);
    assert(Seq::<char>::empty() + b =~= b);
}

proof fn lemma_number_part(a: Seq<char>)
    requires
        is_decimal(a),
    ensures
        part_of(a) == Some(PartView::Number(a)),
{
    lemma_decimal_float(a);
}

proof fn lemma_operator_part(o: char, op: Operation)
    requires
        operation_of(seq![o]) == Some(op),
    ensures
        part_of(seq![o]) == Some(PartView::Operation(op)),
{
    assert(seq![o][0] == o);
    lemma_char_not_float(o);
}

proof fn lemma_parts_push(tokens: Seq<Seq<char>>, t: Seq<char>)
    ensures
        parts_of(tokens.push(t)) == match part_of(t) {
            Some(p) => parts_of(tokens).push(p),
            None => parts_of(tokens),
        },
{
    assert(tokens.push(t).drop_last() =~= tokens);
}

proof fn lemma_parts_concat(s: Seq<Seq<char>>, t: Seq<Seq<char>>)
    ensures
        parts_of(s + t) == parts_of(s) + parts_of(t),
    decreases t.len(),
{
    if t.len() == 0 {
        assert(s + t =~= s);
        assert(parts_of(s) + parts_of(t) =~= parts_of(s));
    } else {
        let u = t.drop_last();
        lemma_parts_concat(s, u);
        assert(s + t =~= (s + u).push(t.last()));
        assert(t =~= u.push(t.last()));
        lemma_parts_push(s + u, t.last());
        lemma_parts_push(u, t.last());
        match part_of(t.last()) {
            Some(p) => {
                assert(parts_of(s) + parts_of(u).push(p) =~= (parts_of(s) + parts_of(u)).push(p));
            },
            None => {},
        }
    }
}

proof fn lemma_postfix_skips(
    s: Seq<Seq<char>>,
    c: char,
    t: Seq<Seq<char>>,
    post: Seq<Seq<char>>,
    stack: Seq<Seq<char>>,
)
    requires
        is_separator(c),
        operation_of(seq![c]) is None,
    ensures
        postfix_run(s + seq![seq![c]] + t, post, stack) == postfix_run(s + t, post, stack),
    decreases s.len(),
{
    let w = s + seq![seq![c]] + t;
    if s.len() == 0 {
        assert(w =~= seq![seq![c]] + t);
        assert(w[0] == seq![c]);
        assert(w.drop_first() =~= t);
        assert(s + t =~= t);
        lemma_char_not_float(c);
    } else {
        assert(w[0] == s[0]);
        assert((s + t)[0] == s[0]);
        assert(w.drop_first() =~= s.drop_first() + seq![seq![c]] + t);
        assert((s + t).drop_first() =~= s.drop_first() + t);
        let (p, k) = step(post, stack, s[0]);
        lemma_postfix_skips(s.drop_first(), c, t, p, k);
    }
}

/// A character that neither belongs to a number nor is an operator only separates
/// the tokens around it: the parts of `x c y` are those of `x` followed by those of
/// `y`, and its postfix parts and answer are those of the tokens of `x` followed by
/// the tokens of `y`.
pub proof fn lemma_stray_character(x: Seq<char>, c: char, y: Seq<char>)
    requires
        is_separator(c),
        operation_of(seq![c]) is None,
    ensures
        source_parts(x + seq![c] + y) == source_parts(x) + source_parts(y),
        postfix_parts(x + seq![c] + y) == parts_of(postfix_spec(tokens_of(x) + tokens_of(y))),
        answer_of(x + seq![c] + y) == evaluate(parts_of(postfix_spec(tokens_of(x) + tokens_of(y)))),
{
    lemma_separator_splits(x, c, y, seq![]);
    let tx = tokens_of(x);
    let ty = tokens_of(y);
    assert(tokens_of(x + seq![c] + y) == tx + seq![seq![c]] + ty);
    let sc = seq![c];
    lemma_char_not_float(c);
    assert(part_of(sc) is None);
    lemma_parts_concat(tx + seq![sc], ty);
    lemma_parts_concat(tx, seq![sc]);
    lemma_parts_concat(tx, ty);
    assert(seq![sc] =~= Seq::<Seq<char>>::empty().push(sc));
    lemma_parts_push(Seq::<Seq<char>>::empty(), sc);
    assert(parts_of(seq![sc]) =~= Seq::<PartView>::empty());
    assert(parts_of(tx) + Seq::<PartView>::empty() =~= parts_of(tx));
    lemma_postfix_skips(tx, c, ty, seq![], seq![]);
}

proof fn lemma_parts_all(tokens: Seq<Seq<char>>)
    requires
        forall|i: int| 0 <= i < tokens.len() ==> (#[trigger] part_of(tokens[i])) is Some,
    ensures
        parts_of(tokens).len() == tokens.len(),
        forall|i: int| 0 <= i < tokens.len() ==> Some(#[trigger] parts_of(tokens)[i]) == part_of(tokens[i]),
    decreases tokens.len(),
{
    if tokens.len() > 0 {
        let u = tokens.drop_last();
        assert forall|i: int| 0 <= i < u.len() implies (#[trigger] part_of(u[i])) is Some by {
            assert(u[i] == tokens[i]);
        }
        lemma_parts_all(u);
        assert(part_of(tokens[tokens.len() - 1]) is Some);
        assert forall|i: int| 0 <= i < tokens.len() implies Some(#[trigger] parts_of(tokens)[i]) == part_of(tokens[i]) by {
            if i < u.len() {
                assert(u[i] == tokens[i]);
            }
        }
    }
}

/// The tokens of `a o1 b o2 c`, and the parts of the operators.
proof fn lemma_two_operations_tokens(
    a: Seq<char>,
    o1: char,
    b: Seq<char>,
    o2: char,
    c: Seq<char>,
    op1: Operation,
    op2: Operation,
)
    requires
        is_decimal(a),
        is_decimal(b),
        is_decimal(c),
        operation_of(seq![o1]) == Some(op1),
        operation_of(seq![o2]) == Some(op2),
    ensures
        tokens_of(a + seq![o1] + b + seq![o2] + c) == seq![a, seq![o1], b, seq![o2], c],
        source_parts(a + seq![o1] + b + seq![o2] + c) == seq![
            PartView::Number(a),
            PartView::Operation(op1),
            PartView::Number(b),
            PartView::Operation(op2),
            PartView::Number(c),
        ],
{
    let raw = a + seq![o1] + b + seq![o2] + c;
    assert(raw =~= a + seq![o1] + (b + seq![o2] + c));
    lemma_tokens_step(a, o1, b + seq![o2] + c);
    lemma_tokens_step(b, o2, c);
    lemma_tokens_last(c);
    let t = seq![a, seq![o1], b, seq![o2], c];
    assert(tokens_of(raw) =~= t);
    lemma_number_part(a);
    lemma_number_part(b);
    lemma_number_part(c);
    lemma_operator_part(o1, op1);
    lemma_operator_part(o2, op2);
    assert forall|i: int| 0 <= i < t.len() implies (#[trigger] part_of(t[i])) is Some by {}
    lemma_parts_all(t);
    assert(parts_of(t) =~= seq![
        PartView::Number(a),
        PartView::Operation(op1),
        PartView::Number(b),
        PartView::Operation(op2),
        PartView::Number(c),
    ]);
}

/// An operator token is no number literal.
proof fn lemma_operator_not_number(o: char)
    requires
        operation_of(seq![o]) is Some,
    ensures
        !is_float(trim(seq![o])),
        trim(seq![o]) == seq![o],
        rank_of(seq![o]) == operation_of(seq![o])->0.rank(),
{
    assert(seq![o][0] == o);
    lemma_char_not_float(o);
}

/// A number literal, an operator and a number literal give the operator applied to
/// the two numbers.
pub proof fn lemma_single_operation(a: Seq<char>, o: char, b: Seq<char>, op: Operation)
    requires
        is_decimal(a),
        is_decimal(b),
        operation_of(seq![o]) == Some(op),
    ensures
        source_parts(a + seq![o] + b) == seq![
            PartView::Number(a),
            PartView::Operation(op),
            PartView::Number(b),
        ],
        postfix_parts(a + seq![o] + b) == seq![
            PartView::Number(a),
            PartView::Number(b),
            PartView::Operation(op),
        ],
        answer_of(a + seq![o] + b) == Some(
            TermView::Apply(op, Box::new(TermView::Number(a)), Box::new(TermView::Number(b))),
        ),
{
    let so = seq![o];
    lemma_tokens_step(a, o, b);
    lemma_tokens_last(b);
    let t = seq![a, so, b];
    assert(tokens_of(a + so + b) =~= t);
    lemma_number_part(a);
    lemma_number_part(b);
    lemma_operator_part(o, op);
    lemma_operator_not_number(o);
    lemma_decimal_float(a);
    lemma_decimal_float(b);
    assert forall|i: int| 0 <= i < t.len() implies (#[trigger] part_of(t[i])) is Some by {}
    lemma_parts_all(t);
    assert(parts_of(t) =~= seq![
        PartView::Number(a),
        PartView::Operation(op),
        PartView::Number(b),
    ]);
    let e = Seq::<Seq<char>>::empty();
    assert(t.drop_first() =~= seq![so, b]);
    assert(postfix_run(t, e, e) == postfix_run(seq![so, b], seq![a], e));
    assert(seq![so, b].drop_first() =~= seq![b]);
    assert(push_operator(seq![a], e, so, op.rank()) == (seq![a], seq![so]));
    assert(postfix_run(seq![so, b], seq![a], e) == postfix_run(seq![b], seq![a], seq![so]));
    assert(seq![b].drop_first() =~= e);
    assert(seq![b][0] == b);
    assert(seq![a].push(b) =~= seq![a, b]);
    assert(postfix_run(seq![b], seq![a], seq![so]) == postfix_run(e, seq![a, b], seq![so]));
    assert(seq![a, b] + seq![so].reverse() =~= seq![a, b, so]);
    let r = seq![a, b, so];
    assert(postfix_spec(t) == r);
    assert forall|i: int| 0 <= i < r.len() implies (#[trigger] part_of(r[i])) is Some by {}
    lemma_parts_all(r);
    let na = TermView::Number(a);
    let nb = TermView::Number(b);
    let pr = seq![PartView::Number(a), PartView::Number(b), PartView::Operation(op)];
    assert(parts_of(r) =~= pr);
    let es = Seq::<TermView>::empty();
    assert(pr.drop_first() =~= seq![PartView::Number(b), PartView::Operation(op)]);
    assert(crate::expression::run_rpn(pr, es) == crate::expression::run_rpn(
        seq![PartView::Number(b), PartView::Operation(op)],
        seq![na],
    ));
    assert(seq![PartView::Number(b), PartView::Operation(op)].drop_first() =~= seq![
        PartView::Operation(op),
    ]);
    assert(es.push(na).push(nb) =~= seq![na, nb]);
    let app = TermView::Apply(op, Box::new(na), Box::new(nb));
    assert(seq![na, nb].take(0).push(app) =~= seq![app]);
    assert(seq![PartView::Operation(op)].drop_first() =~= Seq::<PartView>::empty());
    assert(es.push(na) =~= seq![na]);
    assert(seq![na].push(nb) =~= seq![na, nb]);
    assert(crate::expression::run_rpn(
        seq![PartView::Number(b), PartView::Operation(op)],
        seq![na],
    ) == crate::expression::run_rpn(seq![PartView::Operation(op)], seq![na, nb]));
    assert(crate::expression::run_rpn(seq![PartView::Operation(op)], seq![na, nb])
        == crate::expression::run_rpn(Seq::<PartView>::empty(), seq![app]));
    assert(evaluate(pr) == Some(app));
    assert(postfix_parts(a + so + b) == pr);
}

/// The postfix tokens of `a o1 b o2 c`: the first operator is emitted before the
/// last number where its precedence is at least that of the second.
proof fn lemma_two_operations_postfix(
    a: Seq<char>,
    o1: char,
    b: Seq<char>,
    o2: char,
    c: Seq<char>,
    op1: Operation,
    op2: Operation,
)
    requires
        is_decimal(a),
        is_decimal(b),
        is_decimal(c),
        operation_of(seq![o1]) == Some(op1),
        operation_of(seq![o2]) == Some(op2),
    ensures
        op2.rank() <= op1.rank() ==> postfix_spec(seq![a, seq![o1], b, seq![o2], c]) == seq![
            a,
            b,
            seq![o1],
            c,
            seq![o2],
        ],
        op2.rank() > op1.rank() ==> postfix_spec(seq![a, seq![o1], b, seq![o2], c]) == seq![
            a,
            b,
            c,
            seq![o2],
            seq![o1],
        ],
{
    let s1 = seq![o1];
    let s2 = seq![o2];
    let e = Seq::<Seq<char>>::empty();
    lemma_operator_not_number(o1);
    lemma_operator_not_number(o2);
    lemma_decimal_float(a);
    lemma_decimal_float(b);
    lemma_decimal_float(c);
    let t = seq![a, s1, b, s2, c];
    assert(t.drop_first() =~= seq![s1, b, s2, c]);
    assert(postfix_run(t, e, e) == postfix_run(seq![s1, b, s2, c], seq![a], e));
    assert(push_operator(seq![a], e, s1, op1.rank()) == (seq![a], seq![s1]));
    assert(seq![s1, b, s2, c].drop_first() =~= seq![b, s2, c]);
    assert(postfix_run(seq![s1, b, s2, c], seq![a], e) == postfix_run(
        seq![b, s2, c],
        seq![a],
        seq![s1],
    ));
    assert(seq![b, s2, c].drop_first() =~= seq![s2, c]);
    assert(seq![a].push(b) =~= seq![a, b]);
    assert(postfix_run(seq![b, s2, c], seq![a], seq![s1]) == postfix_run(
        seq![s2, c],
        seq![a, b],
        seq![s1],
    ));
    assert(seq![s2, c].drop_first() =~= seq![c]);
    assert(seq![c].drop_first() =~= e);
    assert(seq![s1].last() == s1);
    if op2.rank() <= op1.rank() {
        assert(seq![s1].drop_last() =~= e);
        assert(seq![a, b].push(s1) =~= seq![a, b, s1]);
        assert(push_operator(seq![a, b, s1], e, s2, op2.rank()) == (seq![a, b, s1], seq![s2]));
        assert(push_operator(seq![a, b], seq![s1], s2, op2.rank()) == (seq![a, b, s1], seq![s2]));
        assert(postfix_run(seq![s2, c], seq![a, b], seq![s1]) == postfix_run(
            seq![c],
            seq![a, b, s1],
            seq![s2],
        ));
        assert(seq![a, b, s1].push(c) =~= seq![a, b, s1, c]);
        assert(postfix_run(seq![c], seq![a, b, s1], seq![s2]) == postfix_run(
            e,
            seq![a, b, s1, c],
            seq![s2],
        ));
        assert(seq![a, b, s1, c] + seq![s2].reverse() =~= seq![a, b, s1, c, s2]);
    } else {
        assert(seq![s1].push(s2) =~= seq![s1, s2]);
        assert(push_operator(seq![a, b], seq![s1], s2, op2.rank()) == (seq![a, b], seq![s1, s2]));
        assert(postfix_run(seq![s2, c], seq![a, b], seq![s1]) == postfix_run(
            seq![c],
            seq![a, b],
            seq![s1, s2],
        ));
        assert(seq![a, b].push(c) =~= seq![a, b, c]);
        assert(postfix_run(seq![c], seq![a, b], seq![s1, s2]) == postfix_run(
            e,
            seq![a, b, c],
            seq![s1, s2],
        ));
        assert(seq![a, b, c] + seq![s1, s2].reverse() =~= seq![a, b, c, s2, s1]);
    }
}

/// Two operations of equal precedence are applied from left to right: `a o1 b o2 c`
/// gives `(a o1 b) o2 c`.
pub proof fn lemma_equal_precedence_left_to_right(
    a: Seq<char>,
    o1: char,
    b: Seq<char>,
    o2: char,
    c: Seq<char>,
    op1: Operation,
    op2: Operation,
)
    requires
        is_decimal(a),
        is_decimal(b),
        is_decimal(c),
        operation_of(seq![o1]) == Some(op1),
        operation_of(seq![o2]) == Some(op2),
        op1.rank() == op2.rank(),
    ensures
        answer_of(a + seq![o1] + b + seq![o2] + c) == Some(
            TermView::Apply(
                op2,
                Box::new(
                    TermView::Apply(
                        op1,
                        Box::new(TermView::Number(a)),
                        Box::new(TermView::Number(b)),
                    ),
                ),
                Box::new(TermView::Number(c)),
            ),
        ),
{
    let raw = a + seq![o1] + b + seq![o2] + c;
    lemma_two_operations_tokens(a, o1, b, o2, c, op1, op2);
    lemma_two_operations_postfix(a, o1, b, o2, c, op1, op2);
    let r = seq![a, b, seq![o1], c, seq![o2]];
    assert(postfix_spec(tokens_of(raw)) == r);
    lemma_number_part(a);
    lemma_number_part(b);
    lemma_number_part(c);
    lemma_operator_part(o1, op1);
    lemma_operator_part(o2, op2);
    assert forall|i: int| 0 <= i < r.len() implies (#[trigger] part_of(r[i])) is Some by {}
    lemma_parts_all(r);
    let na = PartView::Number(a);
    let nb = PartView::Number(b);
    let nc = PartView::Number(c);
    let p1 = PartView::Operation(op1);
    let p2 = PartView::Operation(op2);
    let pr = seq![na, nb, p1, nc, p2];
    assert(parts_of(r) =~= pr);
    let ta = TermView::Number(a);
    let tb = TermView::Number(b);
    let tc = TermView::Number(c);
    let a1 = TermView::Apply(op1, Box::new(ta), Box::new(tb));
    let a2 = TermView::Apply(op2, Box::new(a1), Box::new(tc));
    let es = Seq::<TermView>::empty();
    assert(pr.drop_first() =~= seq![nb, p1, nc, p2]);
    assert(seq![nb, p1, nc, p2].drop_first() =~= seq![p1, nc, p2]);
    assert(seq![p1, nc, p2].drop_first() =~= seq![nc, p2]);
    assert(seq![nc, p2].drop_first() =~= seq![p2]);
    assert(seq![p2].drop_first() =~= Seq::<PartView>::empty());
    assert(es.push(ta) =~= seq![ta]);
    assert(seq![ta].push(tb) =~= seq![ta, tb]);
    assert(seq![ta, tb].take(0).push(a1) =~= seq![a1]);
    assert(seq![a1].push(tc) =~= seq![a1, tc]);
    assert(seq![a1, tc].take(0).push(a2) =~= seq![a2]);
    assert(crate::expression::run_rpn(pr, es) == crate::expression::run_rpn(
        seq![nb, p1, nc, p2],
        seq![ta],
    ));
    assert(crate::expression::run_rpn(seq![nb, p1, nc, p2], seq![ta])
        == crate::expression::run_rpn(seq![p1, nc, p2], seq![ta, tb]));
    assert(crate::expression::run_rpn(seq![p1, nc, p2], seq![ta, tb])
        == crate::expression::run_rpn(seq![nc, p2], seq![a1]));
    assert(crate::expression::run_rpn(seq![nc, p2], seq![a1]) == crate::expression::run_rpn(
        seq![p2],
        seq![a1, tc],
    ));
    assert(crate::expression::run_rpn(seq![p2], seq![a1, tc]) == crate::expression::run_rpn(
        Seq::<PartView>::empty(),
        seq![a2],
    ));
    assert(evaluate(pr) == Some(a2));
}

/// An operation of higher precedence after one of lower precedence is applied
/// first: `a o1 b o2 c` gives `a o1 (b o2 c)`.
pub proof fn lemma_higher_precedence_first(
    a: Seq<char>,
    o1: char,
    b: Seq<char>,
    o2: char,
    c: Seq<char>,
    op1: Operation,
    op2: Operation,
)
    requires
        is_decimal(a),
        is_decimal(b),
        is_decimal(c),
        operation_of(seq![o1]) == Some(op1),
        operation_of(seq![o2]) == Some(op2),
        op1.rank() < op2.rank(),
    ensures
        answer_of(a + seq![o1] + b + seq![o2] + c) == Some(
            TermView::Apply(
                op1,
                Box::new(TermView::Number(a)),
                Box::new(
                    TermView::Apply(
                        op2,
                        Box::new(TermView::Number(b)),
                        Box::new(TermView::Number(c)),
                    ),
                ),
            ),
        ),
{
    let raw = a + seq![o1] + b + seq![o2] + c;
    lemma_two_operations_tokens(a, o1, b, o2, c, op1, op2);
    lemma_two_operations_postfix(a, o1, b, o2, c, op1, op2);
    let r = seq![a, b, c, seq![o2], seq![o1]];
    assert(postfix_spec(tokens_of(raw)) == r);
    lemma_number_part(a);
    lemma_number_part(b);
    lemma_number_part(c);
    lemma_operator_part(o1, op1);
    lemma_operator_part(o2, op2);
    assert forall|i: int| 0 <= i < r.len() implies (#[trigger] part_of(r[i])) is Some by {}
    lemma_parts_all(r);
    let na = PartView::Number(a);
    let nb = PartView::Number(b);
    let nc = PartView::Number(c);
    let p1 = PartView::Operation(op1);
    let p2 = PartView::Operation(op2);
    let pr = seq![na, nb, nc, p2, p1];
    assert(parts_of(r) =~= pr);
    let ta = TermView::Number(a);
    let tb = TermView::Number(b);
    let tc = TermView::Number(c);
    let a2 = TermView::Apply(op2, Box::new(tb), Box::new(tc));
    let a1 = TermView::Apply(op1, Box::new(ta), Box::new(a2));
    let es = Seq::<TermView>::empty();
    assert(pr.drop_first() =~= seq![nb, nc, p2, p1]);
    assert(seq![nb, nc, p2, p1].drop_first() =~= seq![nc, p2, p1]);
    assert(seq![nc, p2, p1].drop_first() =~= seq![p2, p1]);
    assert(seq![p2, p1].drop_first() =~= seq![p1]);
    assert(seq![p1].drop_first() =~= Seq::<PartView>::empty());
    assert(es.push(ta) =~= seq![ta]);
    assert(seq![ta].push(tb) =~= seq![ta, tb]);
    assert(seq![ta, tb].push(tc) =~= seq![ta, tb, tc]);
    assert(seq![ta, tb, tc].take(1).push(a2) =~= seq![ta, a2]);
    assert(seq![ta, a2].take(0).push(a1) =~= seq![a1]);
    assert(crate::expression::run_rpn(pr, es) == crate::expression::run_rpn(
        seq![nb, nc, p2, p1],
        seq![ta],
    ));
    assert(crate::expression::run_rpn(seq![nb, nc, p2, p1], seq![ta])
        == crate::expression::run_rpn(seq![nc, p2, p1], seq![ta, tb]));
    assert(crate::expression::run_rpn(seq![nc, p2, p1], seq![ta, tb])
        == crate::expression::run_rpn(seq![p2, p1], seq![ta, tb, tc]));
    assert(crate::expression::run_rpn(seq![p2, p1], seq![ta, tb, tc])
        == crate::expression::run_rpn(seq![p1], seq![ta, a2]));
    assert(crate::expression::run_rpn(seq![p1], seq![ta, a2]) == crate::expression::run_rpn(
        Seq::<PartView>::empty(),
        seq![a1],
    ));
    assert(evaluate(pr) == Some(a1));
}

/// The parts of `x`, counted without order.
pub open spec fn part_count(x: Seq<Seq<char>>) -> Multiset<PartView> {
    parts_of(x).to_multiset()
}

proof fn lemma_count_empty(x: Seq<Seq<char>>)
    requires
        parts_of(x).len() == 0,
    ensures
        part_count(x) == Multiset::<PartView>::empty(),
{
    vstd::seq_lib::to_multiset_len(parts_of(x));
    vstd::multiset::lemma_multiset_empty_len(part_count(x));
}

proof fn lemma_count_concat(x: Seq<Seq<char>>, y: Seq<Seq<char>>)
    ensures
        part_count(x + y) == part_count(x).add(part_count(y)),
{
    lemma_parts_concat(x, y);
    vstd::seq_lib::lemma_multiset_commutative(parts_of(x), parts_of(y));
}

proof fn lemma_count_reverse(stack: Seq<Seq<char>>)
    ensures
        part_count(stack.reverse()) == part_count(stack),
    decreases stack.len(),
{
    if stack.len() > 0 {
        let l = stack.last();
        let d = stack.drop_last();
        assert(stack.reverse() =~= seq![l] + d.reverse());
        assert(stack =~= d + seq![l]);
        lemma_count_reverse(d);
        lemma_count_concat(seq![l], d.reverse());
        lemma_count_concat(d, seq![l]);
        assert(part_count(seq![l]).add(part_count(d)) =~= part_count(d).add(part_count(seq![l])));
    }
}

proof fn lemma_count_push_operator(
    post: Seq<Seq<char>>,
    stack: Seq<Seq<char>>,
    tok: Seq<char>,
    p: u16,
)
    ensures
        part_count(push_operator(post, stack, tok, p).0).add(
            part_count(push_operator(post, stack, tok, p).1),
        ) == part_count(post).add(part_count(stack)).add(part_count(seq![tok])),
    decreases stack.len(),
{
    if stack.len() == 0 {
        assert(parts_of(stack) =~= Seq::<PartView>::empty());
        lemma_count_empty(stack);
        assert(part_count(post).add(part_count(seq![tok])) =~= part_count(post).add(
            part_count(stack),
        ).add(part_count(seq![tok])));
    } else if p <= rank_of(stack.last()) {
        let l = stack.last();
        let d = stack.drop_last();
        lemma_count_push_operator(post.push(l), d, tok, p);
        assert(post.push(l) =~= post + seq![l]);
        assert(stack =~= d + seq![l]);
        lemma_count_concat(post, seq![l]);
        lemma_count_concat(d, seq![l]);
        assert(part_count(post).add(part_count(seq![l])).add(part_count(d)).add(
            part_count(seq![tok]),
        ) =~= part_count(post).add(part_count(d).add(part_count(seq![l]))).add(
            part_count(seq![tok]),
        ));
    } else {
        assert(stack.push(tok) =~= stack + seq![tok]);
        lemma_count_concat(stack, seq![tok]);
        assert(part_count(post).add(part_count(stack).add(part_count(seq![tok])))
            =~= part_count(post).add(part_count(stack)).add(part_count(seq![tok])));
    }
}

proof fn lemma_count_postfix_run(
    tokens: Seq<Seq<char>>,
    post: Seq<Seq<char>>,
    stack: Seq<Seq<char>>,
)
    ensures
        part_count(postfix_run(tokens, post, stack)) == part_count(post).add(
            part_count(stack),
        ).add(part_count(tokens)),
    decreases tokens.len(),
{
    if tokens.len() == 0 {
        lemma_count_concat(post, stack.reverse());
        lemma_count_reverse(stack);
        assert(parts_of(tokens) =~= Seq::<PartView>::empty());
        lemma_count_empty(tokens);
        assert(part_count(post).add(part_count(stack)) =~= part_count(post).add(
            part_count(stack),
        ).add(part_count(tokens)));
    } else {
        let t = tokens[0];
        let rest = tokens.drop_first();
        assert(tokens =~= seq![t] + rest);
        lemma_count_concat(seq![t], rest);
        let (p2, s2) = step(post, stack, t);
        lemma_count_postfix_run(rest, p2, s2);
        assert(seq![t] =~= Seq::<Seq<char>>::empty().push(t));
        lemma_parts_push(Seq::<Seq<char>>::empty(), t);
        if is_float(trim(t)) {
            assert(post.push(t) =~= post + seq![t]);
            lemma_count_concat(post, seq![t]);
            assert(part_count(post).add(part_count(seq![t])).add(part_count(stack)).add(
                part_count(rest),
            ) =~= part_count(post).add(part_count(stack)).add(
                part_count(seq![t]).add(part_count(rest)),
            ));
        } else {
            match operation_of(trim(t)) {
                Some(op) => {
                    lemma_count_push_operator(post, stack, t, op.rank());
                    assert(part_count(post).add(part_count(stack)).add(part_count(seq![t])).add(
                        part_count(rest),
                    ) =~= part_count(post).add(part_count(stack)).add(
                        part_count(seq![t]).add(part_count(rest)),
                    ));
                },
                None => {
                    assert(part_of(t) is None);
                    assert(parts_of(seq![t]) =~= Seq::<PartView>::empty());
                    lemma_count_empty(seq![t]);
                    assert(part_count(post).add(part_count(stack)).add(part_count(rest))
                        =~= part_count(post).add(part_count(stack)).add(
                        part_count(seq![t]).add(part_count(rest)),
                    ));
                },
            }
        }
    }
}

/// The postfix form reorders the tokens and never adds or drops one that stands
/// for a part: its parts are those of the tokens, counted without order.
pub proof fn lemma_postfix_keeps_parts(tokens: Seq<Seq<char>>)
    ensures
        part_count(postfix_spec(tokens)) == part_count(tokens),
{
    let e = Seq::<Seq<char>>::empty();
    lemma_count_postfix_run(tokens, e, e);
    assert(parts_of(e) =~= Seq::<PartView>::empty());
    lemma_count_empty(e);
    assert(part_count(e).add(part_count(e)).add(part_count(tokens)) =~= part_count(tokens));
}

/// Whether `x` and `y` meet at a token boundary: one of them is empty, `x` ends
/// with a separator, or `y` starts with one.
pub open spec fn at_boundary(x: Seq<char>, y: Seq<char>) -> bool {
    x.len() == 0 || y.len() == 0 || is_separator(x.last()) || is_separator(y[0])
}

proof fn lemma_tokens_at_boundary(x: Seq<char>, y: Seq<char>)
    requires
        at_boundary(x, y),
    ensures
        tokens_of(x + y) == tokens_of(x) + tokens_of(y),
{
    let e = Seq::<char>::empty();
    let none = Seq::<Seq<char>>::empty();
    assert(tokens_of(e) == none);
    if x.len() == 0 {
        assert(x + y =~= y);
        assert(none + tokens_of(y) =~= tokens_of(y));
    } else if y.len() == 0 {
        assert(x + y =~= x);
        assert(tokens_of(x) + none =~= tokens_of(x));
    } else if is_separator(x.last()) {
        let d = x.last();
        let xs = x.drop_last();
        assert(x =~= xs + seq![d] + e);
        assert(x + y =~= xs + seq![d] + y);
        lemma_separator_splits(xs, d, y, seq![]);
        lemma_separator_splits(xs, d, e, seq![]);
        assert(partition_from(e, separator_class(), seq![]) == none);
        let a = partition_from(xs, separator_class(), seq![]);
        assert(a + seq![seq![d]] + none =~= a + seq![seq![d]]);
    } else {
        let d = y[0];
        let ys = y.drop_first();
        assert(y =~= e + seq![d] + ys);
        assert(x + y =~= x + seq![d] + ys);
        lemma_separator_splits(x, d, ys, seq![]);
        lemma_separator_splits(e, d, ys, seq![]);
        assert(partition_from(e, separator_class(), seq![]) == none);
        let b = partition_from(ys, separator_class(), seq![]);
        assert(none + seq![seq![d]] + b =~= seq![seq![d]] + b);
        assert(tokens_of(x) + seq![seq![d]] + b =~= tokens_of(x) + (seq![seq![d]] + b));
    }
}

/// A character that neither belongs to a number nor is an operator, typed where
/// two tokens meet, changes neither the parts, nor the postfix parts, nor the
/// answer.
pub proof fn lemma_stray_character_removed(x: Seq<char>, c: char, y: Seq<char>)
    requires
        is_separator(c),
        operation_of(seq![c]) is None,
        at_boundary(x, y),
    ensures
        source_parts(x + seq![c] + y) == source_parts(x + y),
        postfix_parts(x + seq![c] + y) == postfix_parts(x + y),
        answer_of(x + seq![c] + y) == answer_of(x + y),
{
    lemma_stray_character(x, c, y);
    lemma_tokens_at_boundary(x, y);
    lemma_parts_concat(tokens_of(x), tokens_of(y));
}

} // verus!
