use calculator::grammar::BinOp;
use calculator::session::{Outcome, Session};
use calculator::token::CalcError;

fn number(s: &String) -> f64 {
    s.parse().unwrap()
}

fn combine(op: BinOp, a: f64, b: f64) -> f64 {
    match op {
        BinOp::Add => a + b,
        BinOp::Sub => a - b,
        BinOp::Mul => a * b,
        BinOp::Div => a / b,
    }
}

fn negate(a: f64) -> f64 {
    -a
}

fn run(session: &mut Session<f64>, line: &str) -> Result<Outcome<f64>, CalcError> {
    session.process_line(line, &number, &combine, &negate)
}

fn value(session: &mut Session<f64>, line: &str) -> f64 {
    match run(session, line) {
        Ok(Outcome::Print(v)) => v,
        other => panic!("line {:?} gave {:?}", line, other),
    }
}

fn eval_line(line: &str) -> f64 {
    let mut session = Session::new(0.0);
    value(&mut session, line)
}

#[test]
fn precedence_of_products_over_sums() {
    assert_eq!(eval_line("2 + 3 * 4"), 14.0);
    assert_eq!(eval_line("( 2 + 3 ) * 4"), 20.0);
}

#[test]
fn operators_group_to_the_left() {
    assert_eq!(eval_line("10 - 3 - 2"), 5.0);
    assert_eq!(eval_line("8 / 2 / 2"), 2.0);
}

#[test]
fn nested_brackets() {
    assert_eq!(eval_line("3 + 4 * ( 2 - 1 )"), 7.0);
    assert_eq!(eval_line("( ( 1 + 2 ) * ( 3 + 4 ) ) / 7"), 3.0);
}

#[test]
fn memory_round_trip() {
    let mut s = Session::new(0.0);
    assert_eq!(value(&mut s, "5"), 5.0);
    assert_eq!(s.previous(), 5.0);
    assert_eq!(format!("{}", 5.0f64), "5");
    assert_eq!(value(&mut s, "memA+"), 5.0);
    assert_eq!(s.memory().get("A"), 5.0);
    assert_eq!(s.previous(), 5.0);
    assert_eq!(value(&mut s, "memA"), 5.0);
    assert_eq!(value(&mut s, "memA + 1"), 6.0);
}

#[test]
fn unwritten_slot_reads_as_zero() {
    assert_eq!(eval_line("memZ"), 0.0);
}

#[test]
fn accumulate_negative_into_new_slot() {
    let mut s = Session::new(0.0);
    assert_eq!(value(&mut s, "5"), 5.0);
    assert_eq!(value(&mut s, "memA-"), -5.0);
    assert_eq!(s.memory().get("A"), -5.0);
    assert_eq!(s.previous(), 5.0);
}

#[test]
fn accumulate_negative_into_written_slot() {
    let mut s = Session::new(0.0);
    assert_eq!(value(&mut s, "10"), 10.0);
    assert_eq!(value(&mut s, "memA+"), 10.0);
    assert_eq!(value(&mut s, "5"), 5.0);
    assert_eq!(value(&mut s, "memA-"), 5.0);
}

#[test]
fn accumulate_twice_adds_twice() {
    let mut s = Session::new(0.0);
    assert_eq!(value(&mut s, "2.5"), 2.5);
    assert_eq!(value(&mut s, "memX+"), 2.5);
    assert_eq!(value(&mut s, "memX+"), 5.0);
    assert_eq!(value(&mut s, "memX * 2"), 10.0);
}

#[test]
fn unclosed_bracket_is_a_parse_error() {
    let mut s = Session::new(0.0);
    assert!(matches!(run(&mut s, "( 1 + 2"), Err(CalcError::Parse)));
}

#[test]
fn two_numbers_without_operator_is_a_parse_error() {
    let mut s = Session::new(0.0);
    assert!(matches!(run(&mut s, "1 2"), Err(CalcError::Parse)));
}

#[test]
fn dangling_operator_is_a_parse_error() {
    let mut s = Session::new(0.0);
    assert!(matches!(run(&mut s, "1 +"), Err(CalcError::Parse)));
    assert!(matches!(run(&mut s, "* 2"), Err(CalcError::Parse)));
    assert!(matches!(run(&mut s, ")"), Err(CalcError::Parse)));
}

#[test]
fn accumulate_inside_an_expression_is_a_parse_error() {
    let mut s = Session::new(0.0);
    assert!(matches!(run(&mut s, "1 + memA+"), Err(CalcError::Parse)));
    assert!(matches!(run(&mut s, "memA+ 1"), Err(CalcError::Parse)));
    assert_eq!(s.memory().get("A"), 0.0);
}

#[test]
fn malformed_literal_is_a_tokenize_error() {
    let mut s = Session::new(0.0);
    match run(&mut s, "1.2.3") {
        Err(CalcError::Tokenize(w)) => assert_eq!(w, "1.2.3"),
        other => panic!("unexpected {:?}", other),
    }
}

#[test]
fn first_bad_word_is_reported() {
    let mut s = Session::new(0.0);
    match run(&mut s, "1 + abc + x") {
        Err(CalcError::Tokenize(w)) => assert_eq!(w, "abc"),
        other => panic!("unexpected {:?}", other),
    }
}

#[test]
fn refused_line_changes_nothing() {
    let mut s = Session::new(0.0);
    assert_eq!(value(&mut s, "7"), 7.0);
    assert!(run(&mut s, "7 +").is_err());
    assert!(run(&mut s, "7 ?").is_err());
    assert_eq!(s.previous(), 7.0);
}

#[test]
fn division_by_zero_is_infinite() {
    let v = eval_line("1 / 0");
    assert!(v.is_infinite() && v > 0.0);
    assert!(eval_line("0 / 0").is_nan());
}

#[test]
fn empty_line_stops() {
    let mut s = Session::new(0.0);
    assert_eq!(value(&mut s, "3"), 3.0);
    assert!(matches!(run(&mut s, ""), Ok(Outcome::Stop)));
    assert_eq!(s.previous(), 3.0);
}

#[test]
fn whitespace_only_line_prints_nothing() {
    let mut s = Session::new(0.0);
    assert!(matches!(run(&mut s, "   \t "), Ok(Outcome::Quiet)));
}

#[test]
fn runs_of_whitespace_separate_tokens() {
    assert_eq!(eval_line("  1\t+   2  "), 3.0);
}

#[test]
fn previous_result_follows_expressions_only() {
    let mut s = Session::new(0.0);
    assert_eq!(value(&mut s, "4"), 4.0);
    assert_eq!(value(&mut s, "memB+"), 4.0);
    assert_eq!(s.previous(), 4.0);
    assert_eq!(value(&mut s, "memB * memB"), 16.0);
    assert_eq!(s.previous(), 16.0);
}
