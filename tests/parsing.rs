use calculator::eval::{eval_expression, evaluate_tree};
use calculator::grammar::{BinOp, Expr};
use calculator::literal::is_float_literal_chars;
use calculator::memory::Memory;
use calculator::parser::parse_expression;
use calculator::token::{split_words, CalcError, Token};

fn literal(s: &str) -> bool {
    is_float_literal_chars(&s.chars().collect())
}

fn tokens(line: &str) -> Vec<Token> {
    Token::split(line).unwrap()
}

fn number(s: &String) -> f64 {
    s.parse().unwrap()
}

fn combine(op: BinOp, a: f64, b: f64) -> f64 {
    match op {
        BinOp::Add => a + b,
        BinOp::Sub => a - b,
        BinOp::Mul => a * b,
        BinOp::Div => a / b,
    }
}

#[test]
fn words_are_runs_of_non_whitespace() {
    assert_eq!(split_words("a b"), vec!["a", "b"]);
    assert_eq!(split_words("  ab\t\tc d \n"), vec!["ab", "c", "d"]);
    assert_eq!(split_words("x\u{3000}y"), vec!["x", "y"]);
    assert!(split_words("").is_empty());
    assert!(split_words(" \t ").is_empty());
}

#[test]
fn operator_words() {
    assert!(matches!(Token::parse("("), Ok(Token::LParen)));
    assert!(matches!(Token::parse(")"), Ok(Token::RParen)));
    assert!(matches!(Token::parse("+"), Ok(Token::Plus)));
    assert!(matches!(Token::parse("-"), Ok(Token::Minus)));
    assert!(matches!(Token::parse("*"), Ok(Token::Asterisk)));
    assert!(matches!(Token::parse("/"), Ok(Token::Slash)));
}

#[test]
fn memory_words() {
    match Token::parse("memA") {
        Ok(Token::MemoryRef(n)) => assert_eq!(n, "A"),
        other => panic!("unexpected {:?}", other),
    }
    match Token::parse("memTotal+") {
        Ok(Token::MemoryPlus(n)) => assert_eq!(n, "Total"),
        other => panic!("unexpected {:?}", other),
    }
    match Token::parse("memx-") {
        Ok(Token::MemoryMinus(n)) => assert_eq!(n, "x"),
        other => panic!("unexpected {:?}", other),
    }
    match Token::parse("mem++") {
        Ok(Token::MemoryPlus(n)) => assert_eq!(n, "+"),
        other => panic!("unexpected {:?}", other),
    }
}

#[test]
fn memory_word_without_a_name_is_refused() {
    assert!(matches!(Token::parse("mem"), Err(CalcError::Tokenize(_))));
    assert!(matches!(Token::parse("mem+"), Err(CalcError::Tokenize(_))));
    assert!(matches!(Token::parse("mem-"), Err(CalcError::Tokenize(_))));
}

#[test]
fn number_words() {
    match Token::parse("-2.5e3") {
        Ok(Token::Number(s)) => assert_eq!(s, "-2.5e3"),
        other => panic!("unexpected {:?}", other),
    }
    assert!(matches!(Token::parse("1.2.3"), Err(CalcError::Tokenize(_))));
    assert!(matches!(Token::parse("abc"), Err(CalcError::Tokenize(_))));
}

#[test]
fn literal_grammar() {
    for ok in [
        "0", "42", "+7", "-7", "3.", ".5", "1.25", "1e9", "1E9", "2.5e-3", "2.5E+3", ".5e1",
        "inf", "-inf", "Infinity", "+INFINITY", "nan", "NaN", "-nan",
    ] {
        assert!(literal(ok), "{}", ok);
        assert!(ok.parse::<f64>().is_ok(), "{}", ok);
    }
    for bad in [
        "", ".", "+", "-", "1.2.3", "1e", "1e+", "e5", ".e5", "1..2", "--1", "1-", "0x10", "in",
        "infinit", "nana", "1 ", "\u{661}",
    ] {
        assert!(!literal(bad), "{}", bad);
        assert!(bad.parse::<f64>().is_err(), "{}", bad);
    }
}

#[test]
fn split_reports_first_bad_word() {
    match Token::split("1 + ? + !") {
        Err(CalcError::Tokenize(w)) => assert_eq!(w, "?"),
        other => panic!("unexpected {:?}", other),
    }
    assert_eq!(tokens("1 + 2").len(), 3);
}

#[test]
fn tree_follows_precedence() {
    let t = tokens("1 - 2 * 3 - 4");
    match parse_expression(&t) {
        Ok(Expr::Binary(BinOp::Sub, l, r)) => {
            assert!(matches!(*r, Expr::Number(ref s) if s == "4"));
            match *l {
                Expr::Binary(BinOp::Sub, ll, lr) => {
                    assert!(matches!(*ll, Expr::Number(ref s) if s == "1"));
                    assert!(matches!(*lr, Expr::Binary(BinOp::Mul, _, _)));
                }
                other => panic!("unexpected {:?}", other),
            }
        }
        other => panic!("unexpected {:?}", other),
    }
}

#[test]
fn brackets_make_a_group() {
    let t = tokens("( memA )");
    match parse_expression(&t) {
        Ok(Expr::Group(x)) => assert!(matches!(*x, Expr::Slot(ref n) if n == "A")),
        other => panic!("unexpected {:?}", other),
    }
}

#[test]
fn parse_errors() {
    for bad in ["( 1 + 2", "1 2", "1 +", "( )", "1 ) ", "memA+", "+ 1", "1 * * 2"] {
        let t = tokens(bad);
        assert!(matches!(parse_expression(&t), Err(CalcError::Parse)), "{}", bad);
    }
    assert!(matches!(parse_expression(&[]), Err(CalcError::Parse)));
}

#[test]
fn evaluate_with_memory() {
    let mut m: Memory<f64> = Memory::new(0.0);
    assert_eq!(m.accumulate("A", 3.0, &combine), 3.0);
    assert_eq!(m.accumulate("A", 4.0, &combine), 7.0);
    assert_eq!(m.get("A"), 7.0);
    assert_eq!(m.get("B"), 0.0);
    let t = tokens("memA * 2 - memB");
    assert_eq!(eval_expression(&t, &m, &number, &combine).unwrap(), 14.0);
    let e = parse_expression(&tokens("( memA - 1 ) / 3")).unwrap();
    assert_eq!(evaluate_tree(&e, &m, &number, &combine), 2.0);
}

#[test]
fn slot_names_are_case_sensitive() {
    let mut m: Memory<f64> = Memory::new(0.0);
    m.accumulate("a", 1.0, &combine);
    assert_eq!(m.get("a"), 1.0);
    assert_eq!(m.get("A"), 0.0);
}
