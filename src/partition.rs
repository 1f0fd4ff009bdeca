//! Splitting text into tokens at separator characters.

use vstd::prelude::*;

verus! {

/// Whether the spec predicate `sep` gives every answer that `tester` may give.
pub open spec fn decides<F: Fn(char) -> bool>(tester: F, sep: spec_fn(char) -> bool) -> bool {
    forall|c: char, b: bool| #[trigger] tester.ensures((c,), b) ==> b == sep(c)
}

/// The pending run of non-separator characters as a token, unless it is empty.
pub open spec fn flush(run: Seq<char>) -> Seq<Seq<char>> {
    if run.len() == 0 {
        seq![]
    } else {
        seq![run]
    }
}

/// The tokens of `text` when `run` is the run of non-separators read just before it.
pub open spec fn partition_from(
    text: Seq<char>,
    sep: spec_fn(char) -> bool,
    run: Seq<char>,
) -> Seq<Seq<char>>
    decreases text.len(),
{
    if text.len() == 0 {
        flush(run)
    } else if sep(text[0]) {
        flush(run) + seq![seq![text[0]]] + partition_from(text.drop_first(), sep, seq![])
    } else {
        partition_from(text.drop_first(), sep, run.push(text[0]))
    }
}

/// The tokens of `text`: each maximal run of non-separators, and each separator on
/// its own, in the order of the text.
pub open spec fn partition_spec(text: Seq<char>, sep: spec_fn(char) -> bool) -> Seq<Seq<char>> {
    partition_from(text, sep, seq![])
}

/// Splits `text` into its maximal runs of characters on which `tester` is false,
/// and single characters on which it is true. No empty token is produced.
pub fn partition<F: Fn(char) -> bool>(text: &str, tester: &F) -> (r: Vec<String>)
    requires
        forall|c: char| tester.requires((c,)),
    ensures
        forall|sep: spec_fn(char) -> bool|
            decides(*tester, sep) ==> r.deep_view() == partition_spec(text@, sep),
{
    let n = text.unicode_len();
    let mut result: Vec<String> = Vec::new();
    let mut last: usize = 0;
    let mut i: usize = 0;
    proof {
        assert(text@.skip(0) =~= text@);
        assert(text@.subrange(0, 0) =~= Seq::<char>::empty());
        assert(result.deep_view() =~= Seq::<Seq<char>>::empty());
        assert forall|sep: spec_fn(char) -> bool| decides(*tester, sep) implies result.deep_view()
            + partition_from(text@.skip(0), sep, text@.subrange(0, 0)) == partition_spec(
            text@,
            sep,
        ) by {
            assert(result.deep_view() + partition_from(text@, sep, seq![]) =~= partition_spec(
                text@,
                sep,
            ));
        }
    }
    while i < n
        invariant
            n == text@.len(),
            last <= i <= n,
            forall|c: char| tester.requires((c,)),
            forall|sep: spec_fn(char) -> bool|
                decides(*tester, sep) ==> result.deep_view() + partition_from(
                    text@.skip(i as int),
                    sep,
                    text@.subrange(last as int, i as int),
                ) == partition_spec(text@, sep),
        decreases n - i,
    {
        let c = text.get_char(i);
        let is_sep = tester(c);
        let ghost before = result.deep_view();
        let ghost run = text@.subrange(last as int, i as int);
        if is_sep {
            if last != i {
                let token = String::from_str(text.substring_char(last, i));
                result.push(token);
            }
            assert(result.deep_view() =~= before + flush(run));
            let single = String::from_str(text.substring_char(i, i + 1));
            assert(single@ =~= seq![c]);
            result.push(single);
            assert(result.deep_view() =~= before + flush(run) + seq![seq![c]]);
        }
        proof {
            let rest = text@.skip(i as int);
            assert(rest[0] == c);
            assert(rest.drop_first() =~= text@.skip(i + 1));
            if !is_sep {
                assert(run.push(c) =~= text@.subrange(last as int, i + 1));
            } else {
                assert(text@.subrange(i + 1, i + 1) =~= Seq::<char>::empty());
            }
            assert forall|sep: spec_fn(char) -> bool| decides(*tester, sep) implies result.deep_view()
                + partition_from(
                text@.skip(i + 1),
                sep,
                text@.subrange(if is_sep { i + 1 } else { last as int }, i + 1),
            ) == partition_spec(text@, sep) by {
                assert(tester.ensures((c,), is_sep));
                assert(is_sep == sep(c));
                assert(before + partition_from(rest, sep, run) == partition_spec(text@, sep));
                if is_sep {
                    assert(before + partition_from(rest, sep, run) =~= result.deep_view()
                        + partition_from(text@.skip(i + 1), sep, seq![]));
                }
            }
        }
        if is_sep {
            last = i + 1;
        }
        i = i + 1;
    }
    let ghost before = result.deep_view();
    let ghost run = text@.subrange(last as int, n as int);
    if last < n {
        let token = String::from_str(text.substring_char(last, n));
        result.push(token);
    }
    proof {
        assert(result.deep_view() =~= before + flush(run));
        assert(text@.skip(n as int) =~= Seq::<char>::empty());
    }
    result
}

} // verus!

verus! {

proof fn lemma_partition_from_flatten(text: Seq<char>, sep: spec_fn(char) -> bool, run: Seq<char>)
    ensures
        partition_from(text, sep, run).flatten() == run + text,
    decreases text.len(),
{
    if text.len() == 0 {
        if run.len() > 0 {
            seq![run].lemma_flatten_one_element();
        }
        assert(run + text =~= run);
    } else if sep(text[0]) {
        let rest = partition_from(text.drop_first(), sep, seq![]);
        lemma_partition_from_flatten(text.drop_first(), sep, seq![]);
        if run.len() > 0 {
            seq![run].lemma_flatten_one_element();
        }
        seq![seq![text[0]]].lemma_flatten_one_element();
        vstd::seq_lib::lemma_flatten_concat(flush(run), seq![seq![text[0]]]);
        vstd::seq_lib::lemma_flatten_concat(flush(run) + seq![seq![text[0]]], rest);
        assert(seq![] + text.drop_first() =~= text.drop_first());
        assert(flush(run).flatten() == run);
        assert(run + seq![text[0]] + text.drop_first() =~= run + text);
    } else {
        lemma_partition_from_flatten(text.drop_first(), sep, run.push(text[0]));
        assert(run.push(text[0]) + text.drop_first() =~= run + text);
    }
}

/// Joining the tokens of `text` gives `text` back: no character is lost, none is
/// added, and the order is kept.
pub proof fn lemma_partition_concat(text: Seq<char>, sep: spec_fn(char) -> bool)
    ensures
        partition_spec(text, sep).flatten() == text,
{
    lemma_partition_from_flatten(text, sep, seq![]);
    assert(seq![] + text =~= text);
}

/// Partitioning the concatenation of the tokens of `text` gives the same tokens.
pub proof fn lemma_partition_idempotent(text: Seq<char>, sep: spec_fn(char) -> bool)
    ensures
        partition_spec(partition_spec(text, sep).flatten(), sep) == partition_spec(text, sep),
{
    lemma_partition_concat(text, sep);
}

} // verus!
