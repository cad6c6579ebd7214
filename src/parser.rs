//! Recursive-descent parsing of a token sequence into an expression tree.
//!
//! Each level takes the tokens and a start index and returns the tree it
//! read with the index just past it. Each is proved sound (what it returns
//! spans the tokens it consumed and has the shape of its level) and
//! complete (whatever tree of its level spans tokens from the start index,
//! and may end there, is what it returns).
use vstd::prelude::*;

use crate::grammar::{
    at_level, below_level, is_additive, is_primary, is_product, is_sum, level_token, lemma_primary_first,
    lemma_render_nonempty, lemma_spine_base, lemma_spine_render, lemma_spine_step, next_on_spine,
    on_spine, op_token, render, spans, spine_base, stops, BinOp, Expr,
};
use crate::token::{CalcError, Token};

verus! {

/// The operator of the given level at `idx`, if one stands there.
fn operator_at(tokens: &[Token], idx: usize, additive: bool) -> (r: Option<BinOp>)
    ensures
        r is Some <==> (idx < tokens@.len() && level_token(tokens@[idx as int], additive)),
        r matches Some(op) ==> op_token(op) == tokens@[idx as int] && is_additive(op) == additive,
{
    if idx >= tokens.len() {
        return None;
    }
    match &tokens[idx] {
        Token::Plus if additive => Some(BinOp::Add),
        Token::Minus if additive => Some(BinOp::Sub),
        Token::Asterisk if !additive => Some(BinOp::Mul),
        Token::Slash if !additive => Some(BinOp::Div),
        _ => None,
    }
}

/// `primary := Number | MemoryRef | '(' sum ')'`
fn parse_primary(tokens: &[Token], i: usize) -> (r: Result<(Expr, usize), CalcError>)
    requires
        i <= tokens@.len(),
    ensures
        match r {
            Ok((e, k)) => is_primary(e) && spans(tokens@, i as int, k as int, e),
            Err(err) => err is Parse,
        },
        forall|e: Expr, j: int|
            is_primary(e) && #[trigger] spans(tokens@, i as int, j, e) ==> r == Ok::<
                (Expr, usize),
                CalcError,
            >((e, j as usize)),
    decreases tokens@.len() - i, 0int,
{
    proof {
        assert forall|e: Expr, j: int|
            is_primary(e) && #[trigger] spans(tokens@, i as int, j, e) implies i < tokens@.len()
            && tokens@[i as int] == render(e)[0] by {
            lemma_render_nonempty(e);
            assert(tokens@.subrange(i as int, j)[0] == tokens@[i as int]);
        }
    }
    if i >= tokens.len() {
        return Err(CalcError::Parse);
    }
    match &tokens[i] {
        Token::Number(s) => {
            let e = Expr::Number(s.clone());
            assert(tokens@.subrange(i as int, i + 1) =~= render(e));
            proof {
                assert forall|e2: Expr, j: int|
                    is_primary(e2) && #[trigger] spans(tokens@, i as int, j, e2) implies e2 == e
                    && j == i + 1 by {
                    lemma_primary_first(e2);
                }
            }
            Ok((e, i + 1))
        },
        Token::MemoryRef(n) => {
            let e = Expr::Slot(n.clone());
            assert(tokens@.subrange(i as int, i + 1) =~= render(e));
            proof {
                assert forall|e2: Expr, j: int|
                    is_primary(e2) && #[trigger] spans(tokens@, i as int, j, e2) implies e2 == e
                    && j == i + 1 by {
                    lemma_primary_first(e2);
                }
            }
            Ok((e, i + 1))
        },
        Token::LParen => {
            let inner = parse_sum(tokens, i + 1);
            proof {
                // A bracketed tree is a sum followed by its closing bracket,
                // which the sum parser stops at.
                assert forall|e2: Expr, j: int|
                    is_primary(e2) && #[trigger] spans(tokens@, i as int, j, e2) implies e2 matches Expr::Group(
                        x,
                    ) && inner == Ok::<(Expr, usize), CalcError>((*x, (j - 1) as usize))
                    && tokens@[j - 1] == Token::RParen by {
                    lemma_primary_first(e2);
                    if let Expr::Group(x) = e2 {
                        let rx = render(*x);
                        assert(render(e2) == seq![Token::LParen] + rx + seq![Token::RParen]);
                        assert(tokens@.subrange(i + 1, j - 1) =~= rx) by {
                            assert forall|q: int| 0 <= q < rx.len() implies tokens@.subrange(
                                i + 1,
                                j - 1,
                            )[q] == rx[q] by {
                                assert(tokens@.subrange(i + 1, j - 1)[q] == tokens@.subrange(
                                    i as int,
                                    j,
                                )[q + 1]);
                                assert(render(e2)[q + 1] == rx[q]);
                            }
                        }
                        assert(tokens@[j - 1] == tokens@.subrange(i as int, j)[j - 1 - i]);
                        assert(spans(tokens@, i + 1, j - 1, *x));
                    }
                }
            }
            match inner {
                Ok((x, k)) => {
                    if k < tokens.len() {
                        if let Token::RParen = &tokens[k] {
                            let ghost rx = render(x);
                            let e = Expr::Group(Box::new(x));
                            assert(tokens@.subrange(i as int, k + 1) =~= render(e)) by {
                                assert(tokens@.subrange(i as int, k + 1) =~= seq![Token::LParen]
                                    + tokens@.subrange(i + 1, k as int) + seq![Token::RParen]);
                            }
                            proof {
                                assert forall|e2: Expr, j: int|
                                    is_primary(e2) && #[trigger] spans(tokens@, i as int, j, e2) implies e2
                                    == e && j == k + 1 by {
                                    lemma_primary_first(e2);
                                }
                            }
                            return Ok((e, k + 1));
                        }
                    }
                    proof {
                        assert forall|e2: Expr, j: int|
                            is_primary(e2) && #[trigger] spans(tokens@, i as int, j, e2) implies false by {
                            lemma_primary_first(e2);
                        }
                    }
                    Err(CalcError::Parse)
                },
                Err(err) => {
                    proof {
                        assert forall|e2: Expr, j: int|
                            is_primary(e2) && #[trigger] spans(tokens@, i as int, j, e2) implies false by {
                            lemma_primary_first(e2);
                        }
                    }
                    Err(err)
                },
            }
        },
        _ => {
            proof {
                assert forall|e2: Expr, j: int|
                    is_primary(e2) && #[trigger] spans(tokens@, i as int, j, e2) implies false by {
                    lemma_primary_first(e2);
                }
            }
            Err(CalcError::Parse)
        },
    }
}

/// `product := primary (('*' | '/') primary)*`, grouped to the left.
fn parse_product(tokens: &[Token], i: usize) -> (r: Result<(Expr, usize), CalcError>)
    requires
        i <= tokens@.len(),
    ensures
        match r {
            Ok((e, k)) => is_product(e) && spans(tokens@, i as int, k as int, e),
            Err(err) => err is Parse,
        },
        forall|e: Expr, j: int|
            is_product(e) && #[trigger] spans(tokens@, i as int, j, e) && stops(tokens@, j, false)
                ==> r == Ok::<(Expr, usize), CalcError>((e, j as usize)),
    decreases tokens@.len() - i, 1int,
{
    let first = parse_primary(tokens, i);
    let (mut acc, mut idx) = match first {
        Ok(p) => p,
        Err(err) => {
            proof {
                assert forall|e: Expr, j: int|
                    is_product(e) && #[trigger] spans(tokens@, i as int, j, e) && stops(
                        tokens@,
                        j,
                        false,
                    ) implies false by {
                    lemma_base_found(tokens@, i as int, e, j, false);
                }
            }
            return Err(err);
        },
    };
    proof {
        assert forall|e: Expr, j: int|
            is_product(e) && #[trigger] spans(tokens@, i as int, j, e) && stops(
                tokens@,
                j,
                false,
            ) implies on_spine(e, acc, false) by {
            lemma_base_found(tokens@, i as int, e, j, false);
        }
    }
    let n = tokens.len();
    proof {
        lemma_render_nonempty(acc);
    }
    loop
        invariant
            n == tokens@.len(),
            i < idx <= tokens@.len(),
            is_product(acc),
            spans(tokens@, i as int, idx as int, acc),
            forall|e: Expr, j: int|
                is_product(e) && #[trigger] spans(tokens@, i as int, j, e) && stops(
                    tokens@,
                    j,
                    false,
                ) ==> on_spine(e, acc, false),
        decreases tokens@.len() - idx,
    {
        match operator_at(tokens, idx, false) {
            None => {
                proof {
                    lemma_spine_end(tokens@, i as int, idx as int, acc, false);
                }
                return Ok((acc, idx));
            },
            Some(op) => {
                let next = parse_primary(tokens, idx + 1);
                match next {
                    Ok((rhs, k)) => {
                        let ghost old_acc = acc;
                        acc = Expr::Binary(op, Box::new(acc), Box::new(rhs));
                        proof {
                            lemma_extend_spans(tokens@, i as int, idx as int, k as int, op, old_acc, rhs);
                            assert forall|e: Expr, j: int|
                                is_product(e) && #[trigger] spans(tokens@, i as int, j, e) && stops(
                                    tokens@,
                                    j,
                                    false,
                                ) implies on_spine(e, acc, false) by {
                                lemma_spine_step(tokens@, i as int, idx as int, old_acc, e, j, false);
                                if let Expr::Binary(op2, l2, r2) = next_on_spine(e, old_acc) {
                                    assert(spans(tokens@, idx + 1, idx + 1 + render(*r2).len(), *r2));
                                }
                            }
                        }
                        idx = k;
                    },
                    Err(err) => {
                        proof {
                            assert forall|e: Expr, j: int|
                                is_product(e) && #[trigger] spans(tokens@, i as int, j, e) && stops(
                                    tokens@,
                                    j,
                                    false,
                                ) implies false by {
                                lemma_spine_step(tokens@, i as int, idx as int, acc, e, j, false);
                                if let Expr::Binary(op2, l2, r2) = next_on_spine(e, acc) {
                                    assert(spans(tokens@, idx + 1, idx + 1 + render(*r2).len(), *r2));
                                }
                            }
                        }
                        return Err(err);
                    },
                }
            },
        }
    }
}

/// `sum := product (('+' | '-') product)*`, grouped to the left.
fn parse_sum(tokens: &[Token], i: usize) -> (r: Result<(Expr, usize), CalcError>)
    requires
        i <= tokens@.len(),
    ensures
        match r {
            Ok((e, k)) => is_sum(e) && spans(tokens@, i as int, k as int, e),
            Err(err) => err is Parse,
        },
        forall|e: Expr, j: int|
            is_sum(e) && #[trigger] spans(tokens@, i as int, j, e) && stops(tokens@, j, true)
                ==> r == Ok::<(Expr, usize), CalcError>((e, j as usize)),
    decreases tokens@.len() - i, 2int,
{
    let first = parse_product(tokens, i);
    let (mut acc, mut idx) = match first {
        Ok(p) => p,
        Err(err) => {
            proof {
                assert forall|e: Expr, j: int|
                    is_sum(e) && #[trigger] spans(tokens@, i as int, j, e) && stops(
                        tokens@,
                        j,
                        true,
                    ) implies false by {
                    lemma_base_found(tokens@, i as int, e, j, true);
                    let b = spine_base(e, true);
                    assert(spans(tokens@, i as int, i + render(b).len(), b));
                }
            }
            return Err(err);
        },
    };
    proof {
        assert forall|e: Expr, j: int|
            is_sum(e) && #[trigger] spans(tokens@, i as int, j, e) && stops(
                tokens@,
                j,
                true,
            ) implies on_spine(e, acc, true) by {
            lemma_base_found(tokens@, i as int, e, j, true);
            let b = spine_base(e, true);
            assert(spans(tokens@, i as int, i + render(b).len(), b));
        }
    }
    let n = tokens.len();
    proof {
        lemma_render_nonempty(acc);
    }
    loop
        invariant
            n == tokens@.len(),
            i < idx <= tokens@.len(),
            is_sum(acc),
            spans(tokens@, i as int, idx as int, acc),
            forall|e: Expr, j: int|
                is_sum(e) && #[trigger] spans(tokens@, i as int, j, e) && stops(tokens@, j, true)
                    ==> on_spine(e, acc, true),
        decreases tokens@.len() - idx,
    {
        match operator_at(tokens, idx, true) {
            None => {
                proof {
                    lemma_spine_end(tokens@, i as int, idx as int, acc, true);
                }
                return Ok((acc, idx));
            },
            Some(op) => {
                let next = parse_product(tokens, idx + 1);
                match next {
                    Ok((rhs, k)) => {
                        let ghost old_acc = acc;
                        acc = Expr::Binary(op, Box::new(acc), Box::new(rhs));
                        proof {
                            lemma_extend_spans(tokens@, i as int, idx as int, k as int, op, old_acc, rhs);
                            assert forall|e: Expr, j: int|
                                is_sum(e) && #[trigger] spans(tokens@, i as int, j, e) && stops(
                                    tokens@,
                                    j,
                                    true,
                                ) implies on_spine(e, acc, true) by {
                                lemma_spine_step(tokens@, i as int, idx as int, old_acc, e, j, true);
                                if let Expr::Binary(op2, l2, r2) = next_on_spine(e, old_acc) {
                                    assert(spans(tokens@, idx + 1, idx + 1 + render(*r2).len(), *r2));
                                }
                            }
                        }
                        idx = k;
                    },
                    Err(err) => {
                        proof {
                            assert forall|e: Expr, j: int|
                                is_sum(e) && #[trigger] spans(tokens@, i as int, j, e) && stops(
                                    tokens@,
                                    j,
                                    true,
                                ) implies false by {
                                lemma_spine_step(tokens@, i as int, idx as int, acc, e, j, true);
                                if let Expr::Binary(op2, l2, r2) = next_on_spine(e, acc) {
                                    assert(spans(tokens@, idx + 1, idx + 1 + render(*r2).len(), *r2));
                                }
                            }
                        }
                        return Err(err);
                    },
                }
            },
        }
    }
}

/// The leftmost operand of a tree of one level spans the first tokens, and
/// the parser of the level below, started at the same place, may stop where
/// it ends.
proof fn lemma_base_found(tokens: Seq<Token>, i: int, e: Expr, j: int, additive: bool)
    requires
        at_level(e, additive),
        spans(tokens, i, j, e),
        stops(tokens, j, additive),
    ensures
        ({
            let b = spine_base(e, additive);
            let end = i + render(b).len();
            &&& on_spine(e, b, additive)
            &&& below_level(b, additive)
            &&& spans(tokens, i, end, b)
            &&& additive ==> stops(tokens, end, false)
        }),
{
    lemma_spine_base(e, additive);
    let b = spine_base(e, additive);
    lemma_spine_render(e, b, additive);
    let end = i + render(b).len();
    assert(tokens.subrange(i, end) =~= render(e).take(render(b).len() as int)) by {
        assert forall|q: int| 0 <= q < render(b).len() implies tokens.subrange(i, end)[q]
            == render(e).take(render(b).len() as int)[q] by {
            assert(tokens.subrange(i, end)[q] == tokens.subrange(i, j)[q]);
        }
    }
    if b != e {
        assert(tokens[end] == tokens.subrange(i, j)[render(b).len() as int]);
    }
}

/// A node of a spine that no operator of its level follows is the whole tree.
proof fn lemma_spine_end(tokens: Seq<Token>, i: int, idx: int, acc: Expr, additive: bool)
    requires
        spans(tokens, i, idx, acc),
        !(idx < tokens.len() && level_token(tokens[idx], additive)),
        forall|e: Expr, j: int|
            at_level(e, additive) && #[trigger] spans(tokens, i, j, e) && stops(tokens, j, additive)
                ==> on_spine(e, acc, additive),
    ensures
        forall|e: Expr, j: int|
            at_level(e, additive) && #[trigger] spans(tokens, i, j, e) && stops(tokens, j, additive)
                ==> e == acc && j == idx,
{
    assert forall|e: Expr, j: int|
        at_level(e, additive) && #[trigger] spans(tokens, i, j, e) && stops(
            tokens,
            j,
            additive,
        ) implies e == acc && j == idx by {
        lemma_spine_render(e, acc, additive);
        if e != acc {
            assert(tokens[idx] == tokens.subrange(i, j)[render(acc).len() as int]);
        }
        assert(tokens.subrange(i, j).len() == tokens.subrange(i, idx).len());
    }
}

/// Appending an operator and the operand after it extends what a tree spans.
proof fn lemma_extend_spans(
    tokens: Seq<Token>,
    i: int,
    idx: int,
    k: int,
    op: BinOp,
    acc: Expr,
    rhs: Expr,
)
    requires
        spans(tokens, i, idx, acc),
        idx < tokens.len(),
        tokens[idx] == op_token(op),
        spans(tokens, idx + 1, k, rhs),
    ensures
        spans(tokens, i, k, Expr::Binary(op, Box::new(acc), Box::new(rhs))),
{
    assert(tokens.subrange(i, k) =~= tokens.subrange(i, idx) + seq![op_token(op)]
        + tokens.subrange(idx + 1, k));
}

/// Parses a whole line of tokens as one expression.
///
/// The result is `Ok` exactly when the tokens are the rendering of a sum,
/// and then holds that tree: every token is consumed, and no other grouping
/// of the tokens is possible.
pub fn parse_expression(tokens: &[Token]) -> (r: Result<Expr, CalcError>)
    ensures
        match r {
            Ok(e) => is_sum(e) && render(e) == tokens@,
            Err(err) => err is Parse,
        },
        forall|e: Expr| is_sum(e) && render(e) == tokens@ ==> r == Ok::<Expr, CalcError>(e),
{
    let parsed = parse_sum(tokens, 0);
    proof {
        assert(tokens@.subrange(0, tokens@.len() as int) =~= tokens@);
        assert forall|e: Expr| is_sum(e) && render(e) == tokens@ implies parsed == Ok::<
            (Expr, usize),
            CalcError,
        >((e, tokens@.len() as usize)) by {
            assert(spans(tokens@, 0, tokens@.len() as int, e));
        }
    }
    match parsed {
        Ok((e, k)) => {
            if k == tokens.len() {
                Ok(e)
            } else {
                Err(CalcError::Parse)
            }
        },
        Err(err) => Err(err),
    }
}

} // verus!
