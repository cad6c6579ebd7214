//! Evaluation of expression trees against a memory store.
//!
//! The numeric domain is the caller's: `number` reads a literal and
//! `combine` applies a binary operator. What is verified here is the order
//! in which they are applied, which follows the tree, and where each operand
//! comes from.
use vstd::prelude::*;

use crate::grammar::{is_sum, render, BinOp, Expr};
use crate::memory::{slot_value, Memory};
use crate::parser::parse_expression;
use crate::token::{CalcError, Token};

verus! {

/// `v` is a value that `e` evaluates to, with slots read from `mem`.
pub open spec fn evaluates_to<V, N: Fn(&String) -> V, F: Fn(BinOp, V, V) -> V>(
    e: Expr,
    mem: Map<Seq<char>, V>,
    blank: V,
    number: N,
    combine: F,
    v: V,
) -> bool
    decreases e,
{
    match e {
        Expr::Number(s) => number.ensures((&s,), v),
        Expr::Slot(n) => v == slot_value(mem, n@, blank),
        Expr::Group(x) => evaluates_to(*x, mem, blank, number, combine, v),
        Expr::Binary(op, l, r) => exists|a: V, b: V|
            {
                &&& evaluates_to(*l, mem, blank, number, combine, a)
                &&& evaluates_to(*r, mem, blank, number, combine, b)
                &&& #[trigger] combine.ensures((op, a, b), v)
            },
    }
}

/// The tokens form one expression, grouped as the tree `e`.
pub open spec fn parses_to(tokens: Seq<Token>, e: Expr) -> bool {
    is_sum(e) && render(e) == tokens
}

/// Evaluates a tree, reading slots from `memory`.
pub fn evaluate_tree<V: Copy, N: Fn(&String) -> V, F: Fn(BinOp, V, V) -> V>(
    e: &Expr,
    memory: &Memory<V>,
    number: &N,
    combine: &F,
) -> (r: V)
    requires
        memory.wf(),
        forall|s: String| number.requires((&s,)),
        forall|op: BinOp, a: V, b: V| combine.requires((op, a, b)),
    ensures
        evaluates_to(*e, memory@, memory.blank_value(), *number, *combine, r),
    decreases e,
{
    match e {
        Expr::Number(s) => number(s),
        Expr::Slot(n) => memory.get(n.as_str()),
        Expr::Group(x) => evaluate_tree(x, memory, number, combine),
        Expr::Binary(op, l, r) => {
            let a = evaluate_tree(l, memory, number, combine);
            let b = evaluate_tree(r, memory, number, combine);
            let v = combine(*op, a, b);
            assert(evaluates_to(**l, memory@, memory.blank_value(), *number, *combine, a));
            assert(evaluates_to(**r, memory@, memory.blank_value(), *number, *combine, b));
            v
        },
    }
}

/// Parses the tokens as one expression and evaluates it.
///
/// The result is `Ok` exactly when the tokens form an expression, every one
/// of them consumed, and is then the value of that expression; otherwise it
/// is a parse error.
pub fn eval_expression<V: Copy, N: Fn(&String) -> V, F: Fn(BinOp, V, V) -> V>(
    tokens: &[Token],
    memory: &Memory<V>,
    number: &N,
    combine: &F,
) -> (r: Result<V, CalcError>)
    requires
        memory.wf(),
        forall|s: String| number.requires((&s,)),
        forall|op: BinOp, a: V, b: V| combine.requires((op, a, b)),
    ensures
        r is Ok <==> exists|e: Expr| parses_to(tokens@, e),
        r matches Err(err) ==> err is Parse,
        forall|e: Expr|
            parses_to(tokens@, e) ==> (r matches Ok(v) && evaluates_to(
                e,
                memory@,
                memory.blank_value(),
                *number,
                *combine,
                v,
            )),
{
    match parse_expression(tokens) {
        Ok(e) => {
            assert(parses_to(tokens@, e));
            Ok(evaluate_tree(&e, memory, number, combine))
        },
        Err(err) => Err(err),
    }
}

} // verus!
