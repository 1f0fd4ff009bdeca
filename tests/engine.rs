use rcalc::expression::{Expression, ExpressionPart, Term};
use rcalc::operation::{precedence, Operation};
use rcalc::partition::partition;
use rcalc::postfix::postfix;

fn separator(c: char) -> bool {
    !(c.is_numeric() || [' ', '.', '(', ')'].contains(&c))
}

fn strings(v: &[&str]) -> Vec<String> {
    v.iter().map(|s| s.to_string()).collect()
}

fn eval(op: Operation, a: f64, b: f64) -> f64 {
    match op {
        Operation::Add => a + b,
        Operation::Subtract => a - b,
        Operation::Multiply => a * b,
        Operation::Divide => a / b,
        Operation::Power => a.powf(b),
    }
}

fn value(t: &Term) -> f64 {
    match t {
        Term::Number(s) => s.parse::<f64>().unwrap(),
        Term::Apply(op, a, b) => eval(*op, value(a), value(b)),
    }
}

fn answer(text: &str) -> Option<f64> {
    Expression::parse_string(&text.to_string()).answer().map(|t| value(&t))
}

fn describe(p: &ExpressionPart) -> String {
    match p {
        ExpressionPart::Number(s) => s.clone(),
        ExpressionPart::Operation(op) => op.to_str().to_string(),
    }
}

fn parts(text: &str) -> Vec<String> {
    Expression::parse_string(&text.to_string()).parts.iter().map(describe).collect()
}

#[test]
fn partition_splits_at_operators() {
    assert_eq!(partition("3+4", &separator), strings(&["3", "+", "4"]));
    assert_eq!(partition("12*(3)-7.5", &separator), strings(&["12", "*", "(3)", "-", "7.5"]));
    assert_eq!(partition("+-", &separator), strings(&["+", "-"]));
}

#[test]
fn partition_of_empty_text_is_empty() {
    assert!(partition("", &separator).is_empty());
}

#[test]
fn partition_keeps_spaces_in_runs() {
    assert_eq!(partition(" 1 + 2 ", &separator), strings(&[" 1 ", "+", " 2 "]));
}

#[test]
fn partition_again_gives_same_tokens() {
    for text in ["3+4*2", "10--3", "a1b2", " 7 ^ (2)", "", "+"] {
        let first = partition(text, &separator);
        let joined: String = first.concat();
        assert_eq!(joined, text);
        assert_eq!(partition(&joined, &separator), first);
    }
}

#[test]
fn partition_with_other_tester() {
    assert_eq!(partition("a,b,,c", &|c: char| c == ','), strings(&["a", ",", "b", ",", ",", "c"]));
}

#[test]
fn postfix_of_numbers_is_identity() {
    let tokens = strings(&["1", "2.5", "30"]);
    assert_eq!(postfix(&tokens), tokens);
}

#[test]
fn postfix_orders_by_precedence() {
    assert_eq!(postfix(&strings(&["2", "+", "3", "*", "4"])), strings(&["2", "3", "4", "*", "+"]));
    assert_eq!(postfix(&strings(&["10", "-", "3", "-", "2"])), strings(&["10", "3", "-", "2", "-"]));
    assert_eq!(postfix(&strings(&["2", "^", "3", "^", "2"])), strings(&["2", "3", "^", "2", "^"]));
    assert_eq!(postfix(&strings(&["2", "*", "3", "+", "4"])), strings(&["2", "3", "*", "4", "+"]));
}

#[test]
fn postfix_skips_other_tokens() {
    assert_eq!(postfix(&strings(&["1", "a", "+", "(2)", "2"])), strings(&["1", "2", "+"]));
    assert_eq!(postfix(&strings(&[" 1", "+"])), strings(&[" 1", "+"]));
}

#[test]
fn precedence_table() {
    assert_eq!(precedence("^"), Some(3));
    assert_eq!(precedence("*"), Some(2));
    assert_eq!(precedence("/"), Some(2));
    assert_eq!(precedence("+"), Some(1));
    assert_eq!(precedence("-"), Some(1));
    assert_eq!(precedence("x"), None);
    assert_eq!(precedence("++"), None);
}

#[test]
fn operation_symbols() {
    assert_eq!(Operation::from_str("+"), Some(Operation::Add));
    assert_eq!(Operation::from_str("-"), Some(Operation::Subtract));
    assert_eq!(Operation::from_str("*"), Some(Operation::Multiply));
    assert_eq!(Operation::from_str("/"), Some(Operation::Divide));
    assert_eq!(Operation::from_str("^"), Some(Operation::Power));
    assert_eq!(Operation::from_str("x"), None);
    assert_eq!(Operation::from_str(""), None);
    assert_eq!(Operation::Multiply.to_str(), "\u{d7}");
    assert_eq!(Operation::Divide.to_str(), "\u{f7}");
    assert_eq!(Operation::Power.to_str(), "^");
}

#[test]
fn single_operations() {
    assert_eq!(answer("3+4"), Some(7.0));
    assert_eq!(answer("10-4"), Some(6.0));
    assert_eq!(answer("6*7"), Some(42.0));
    assert_eq!(answer("10/2"), Some(5.0));
    assert_eq!(answer("2^3"), Some(8.0));
    assert_eq!(answer("1.5+.5"), Some(2.0));
}

#[test]
fn single_operation_term() {
    let e = Expression::parse_string(&"3+4".to_string());
    match e.answer() {
        Some(Term::Apply(Operation::Add, a, b)) => {
            assert!(matches!(*a, Term::Number(ref s) if s == "3"));
            assert!(matches!(*b, Term::Number(ref s) if s == "4"));
        }
        other => panic!("unexpected answer {:?}", other),
    }
}

#[test]
fn equal_precedence_left_to_right() {
    assert_eq!(answer("10-3-2"), Some(5.0));
    assert_eq!(answer("8/2*4"), Some(16.0));
}

#[test]
fn precedence_ordering() {
    assert_eq!(answer("2+3*4"), Some(14.0));
    assert_eq!(answer("2*3+4"), Some(10.0));
    assert_eq!(answer("2*3^2"), Some(18.0));
}

#[test]
fn power_is_left_to_right() {
    assert_eq!(answer("2^3^2"), Some(64.0));
}

#[test]
fn empty_text_has_no_answer() {
    let e = Expression::parse_string(&String::new());
    assert!(e.answer().is_none());
    assert!(e.parts.is_empty());
    assert!(e.rpn.is_empty());
    assert_eq!(e.raw, "");
}

#[test]
fn trailing_operator_has_no_answer() {
    assert_eq!(answer("5+"), None);
    assert_eq!(parts("5+"), strings(&["5", "+"]));
    assert_eq!(answer("+"), None);
    assert_eq!(answer("*3"), None);
}

#[test]
fn stray_characters_are_left_out() {
    assert_eq!(parts("3a+4"), strings(&["3", "+", "4"]));
    assert_eq!(answer("3a+4"), Some(7.0));
    assert_eq!(parts("2+x3"), strings(&["2", "+", "3"]));
    assert_eq!(answer("2+x3"), Some(5.0));
    assert_eq!(parts("(1)+2"), strings(&["+", "2"]));
}

#[test]
fn extra_values_report_the_first() {
    assert_eq!(answer("3+4a5"), Some(3.0));
}

#[test]
fn malformed_numbers_are_dropped() {
    assert_eq!(parts("1.2.3+4"), strings(&["+", "4"]));
    assert_eq!(parts(".+4"), strings(&["+", "4"]));
}

#[test]
fn non_ascii_numerals_stay_in_runs() {
    assert_eq!(partition("3\u{663}4+1", &separator), strings(&["3\u{663}4", "+", "1"]));
    assert_eq!(parts("3\u{663}4+1"), strings(&["+", "1"]));
}

#[test]
fn division_by_zero_is_infinite() {
    assert_eq!(answer("1/0"), Some(f64::INFINITY));
}

#[test]
fn qualified_characters() {
    assert!(Expression::qualified(&'5'));
    assert!(Expression::qualified(&'\u{663}'));
    assert!(Expression::qualified(&'+'));
    assert!(Expression::qualified(&'^'));
    assert!(Expression::qualified(&'.'));
    assert!(!Expression::qualified(&'a'));
    assert!(!Expression::qualified(&' '));
    assert!(!Expression::qualified(&'('));
}

#[test]
fn parse_vec_trims_spaces() {
    let e = Expression::parse_vec(&strings(&[" 3 ", "+", "4"]), &strings(&["3", "4", "+"]), &"x".to_string());
    let p: Vec<String> = e.parts.iter().map(describe).collect();
    assert_eq!(p, strings(&["3", "+", "4"]));
    assert_eq!(e.raw, "x");
    assert_eq!(e.answer().map(|t| value(&t)), Some(7.0));
}

#[test]
fn spaces_around_numbers_keep_them() {
    assert_eq!(postfix(&strings(&["3 ", "+", " 4"])), strings(&["3 ", " 4", "+"]));
    assert_eq!(parts("3 + 4"), strings(&["3", "+", "4"]));
    assert_eq!(answer("3 + 4"), Some(7.0));
    let e = Expression::parse_string(&"3 + 4 * 2".to_string());
    let mut p: Vec<String> = e.parts.iter().map(describe).collect();
    let mut r: Vec<String> = e.rpn.iter().map(describe).collect();
    assert_eq!(r, strings(&["3", "4", "2", "\u{d7}", "+"]));
    p.sort();
    r.sort();
    assert_eq!(p, r);
    assert_eq!(answer("3 + 4 * 2"), Some(11.0));
}

#[test]
fn float_literals_are_numbers() {
    let tokens = strings(&["1e5", "-3", "+2.5", "inf", "NaN", "Infinity", "1.", ".5", "2E-3", "1.e5"]);
    assert_eq!(postfix(&tokens), tokens);
    assert_eq!(postfix(&strings(&["1e5", "+", "-3"])), strings(&["1e5", "-3", "+"]));
    let e = Expression::parse_vec(&strings(&["1e5", "*", "-3"]), &strings(&["1e5", "-3", "*"]), &String::new());
    let p: Vec<String> = e.parts.iter().map(describe).collect();
    assert_eq!(p, strings(&["1e5", "\u{d7}", "-3"]));
    assert_eq!(e.answer().map(|t| value(&t)), Some(-300000.0));
}

#[test]
fn malformed_float_literals_are_dropped() {
    let tokens = strings(&[".", "e5", "1e", "1e+", "--1", "1.2.3", "in", "nanx", "1 2", "+"]);
    assert_eq!(postfix(&tokens), strings(&["+"]));
}

#[test]
fn parse_vec_trims_all_whitespace() {
    let tokens = strings(&["\t3", "\n+\r", "4\u{b}", "\u{c}*", "\u{a0}2\u{2003}"]);
    let e = Expression::parse_vec(&tokens, &strings(&[]), &String::new());
    let p: Vec<String> = e.parts.iter().map(describe).collect();
    assert_eq!(p, strings(&["3", "+", "4", "\u{d7}", "2"]));
    assert!(e.rpn.is_empty());
    let e = Expression::parse_vec(&strings(&["\t", "x\t"]), &strings(&[]), &String::new());
    assert!(e.parts.is_empty());
}

#[test]
fn postfix_reads_tokens_without_whitespace() {
    assert_eq!(postfix(&strings(&["\t1", "+ ", "2\r"])), strings(&["\t1", "2\r", "+ "]));
    assert_eq!(postfix(&strings(&["\u{2003}1", "\u{85}"])), strings(&["\u{2003}1"]));
}

#[test]
fn stray_character_at_boundary_changes_nothing() {
    for (with, without) in [("3+a4", "3+4"), ("3a+4", "3+4"), ("x2*5", "2*5"), ("2*5\t", "2*5"), ("7-2?^2", "7-2^2")] {
        let a = Expression::parse_string(&with.to_string());
        let b = Expression::parse_string(&without.to_string());
        let pa: Vec<String> = a.parts.iter().map(describe).collect();
        let pb: Vec<String> = b.parts.iter().map(describe).collect();
        let ra: Vec<String> = a.rpn.iter().map(describe).collect();
        let rb: Vec<String> = b.rpn.iter().map(describe).collect();
        assert_eq!(pa, pb);
        assert_eq!(ra, rb);
        assert_eq!(answer(with), answer(without));
    }
}
