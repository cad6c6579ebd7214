//! Expression trees and the grammar that relates them to token sequences.
//!
//! ```text
//! sum     := product (('+' | '-') product)*
//! product := primary (('*' | '/') primary)*
//! primary := Number | MemoryRef | '(' sum ')'
//! ```
//!
//! A tree stands for the tokens that `render` writes it as; the shape
//! predicates `is_sum`, `is_product` and `is_primary` say that the tree
//! groups those tokens as the grammar does: by precedence, and to the left.
use vstd::prelude::*;

use crate::token::Token;

verus! {

#[derive(Debug, Clone, Copy, PartialEq, Eq, Structural)]
pub enum BinOp {
    Add,
    Sub,
    Mul,
    Div,
}

/// A parsed expression.
#[derive(Debug)]
pub enum Expr {
    Number(String),
    Slot(String),
    /// A parenthesised sub-expression.
    Group(Box<Expr>),
    Binary(BinOp, Box<Expr>, Box<Expr>),
}

pub open spec fn is_additive(op: BinOp) -> bool {
    op is Add || op is Sub
}

pub open spec fn op_token(op: BinOp) -> Token {
    match op {
        BinOp::Add => Token::Plus,
        BinOp::Sub => Token::Minus,
        BinOp::Mul => Token::Asterisk,
        BinOp::Div => Token::Slash,
    }
}

/// The operator tokens of one precedence level.
pub open spec fn level_token(t: Token, additive: bool) -> bool {
    if additive {
        t is Plus || t is Minus
    } else {
        t is Asterisk || t is Slash
    }
}

/// The tokens that a tree is written as.
pub open spec fn render(e: Expr) -> Seq<Token>
    decreases e,
{
    match e {
        Expr::Number(s) => seq![Token::Number(s)],
        Expr::Slot(n) => seq![Token::MemoryRef(n)],
        Expr::Group(x) => seq![Token::LParen] + render(*x) + seq![Token::RParen],
        Expr::Binary(op, l, r) => render(*l) + seq![op_token(op)] + render(*r),
    }
}

pub open spec fn is_sum(e: Expr) -> bool
    decreases e, 2int,
{
    match e {
        Expr::Binary(op, l, r) if is_additive(op) => is_sum(*l) && is_product(*r),
        _ => is_product(e),
    }
}

pub open spec fn is_product(e: Expr) -> bool
    decreases e, 1int,
{
    match e {
        Expr::Binary(op, l, r) => !is_additive(op) && is_product(*l) && is_primary(*r),
        _ => is_primary(e),
    }
}

pub open spec fn is_primary(e: Expr) -> bool
    decreases e, 0int,
{
    match e {
        Expr::Number(_) => true,
        Expr::Slot(_) => true,
        Expr::Group(x) => is_sum(*x),
        Expr::Binary(..) => false,
    }
}

/// A sum when `additive`, else a product.
pub open spec fn at_level(e: Expr, additive: bool) -> bool {
    if additive {
        is_sum(e)
    } else {
        is_product(e)
    }
}

/// What the operands on the right of a level are: products for a sum,
/// primaries for a product.
pub open spec fn below_level(e: Expr, additive: bool) -> bool {
    if additive {
        is_product(e)
    } else {
        is_primary(e)
    }
}

/// `e` spans `tokens[i..j]`.
pub open spec fn spans(tokens: Seq<Token>, i: int, j: int, e: Expr) -> bool {
    &&& 0 <= i <= j <= tokens.len()
    &&& tokens.subrange(i, j) == render(e)
}

/// A sum (when `additive`) or a product may end before position `j`: no
/// operator that would extend it stands there.
pub open spec fn stops(tokens: Seq<Token>, j: int, additive: bool) -> bool {
    j >= tokens.len() || (!level_token(tokens[j], false) && (additive ==> !level_token(
        tokens[j],
        true,
    )))
}

/// `x` lies on the left spine of `e` at one level: `e` is `x` combined, from
/// the left, with operands by operators of that level.
pub open spec fn on_spine(e: Expr, x: Expr, additive: bool) -> bool
    decreases e,
{
    if e == x {
        true
    } else {
        match e {
            Expr::Binary(op, l, _) => is_additive(op) == additive && on_spine(*l, x, additive),
            _ => false,
        }
    }
}

/// The node of the spine of `e` whose left operand is `x`.
pub open spec fn next_on_spine(e: Expr, x: Expr) -> Expr
    decreases e,
{
    match e {
        Expr::Binary(_, l, _) => if *l == x {
            e
        } else {
            next_on_spine(*l, x)
        },
        _ => e,
    }
}

/// The leftmost operand of the spine of `e` at one level.
pub open spec fn spine_base(e: Expr, additive: bool) -> Expr
    decreases e,
{
    match e {
        Expr::Binary(op, l, _) if is_additive(op) == additive => spine_base(*l, additive),
        _ => e,
    }
}

pub proof fn lemma_render_nonempty(e: Expr)
    ensures
        render(e).len() > 0,
    decreases e,
{
    match e {
        Expr::Group(x) => lemma_render_nonempty(*x),
        Expr::Binary(_, l, r) => lemma_render_nonempty(*l),
        _ => {},
    }
}

/// A tree's first token tells what kind of primary it is.
pub proof fn lemma_primary_first(e: Expr)
    requires
        is_primary(e),
    ensures
        render(e)[0] == match e {
            Expr::Number(s) => Token::Number(s),
            Expr::Slot(n) => Token::MemoryRef(n),
            _ => Token::LParen,
        },
        e is Group ==> render(e).len() >= 2 && render(e).last() == Token::RParen,
{
    if let Expr::Group(x) = e {
        lemma_render_nonempty(*x);
    }
}

/// Along a spine, the rendering of each node begins the rendering of the
/// whole, and the token after it is an operator of that level.
pub proof fn lemma_spine_render(e: Expr, x: Expr, additive: bool)
    requires
        on_spine(e, x, additive),
    ensures
        render(x).len() <= render(e).len(),
        render(e).take(render(x).len() as int) == render(x),
        e != x ==> render(x).len() < render(e).len() && level_token(
            render(e)[render(x).len() as int],
            additive,
        ),
    decreases e,
{
    if e != x {
        if let Expr::Binary(op, l, r) = e {
            lemma_spine_render(*l, x, additive);
            let rl = render(*l);
            assert(render(e) == rl + seq![op_token(op)] + render(*r));
            assert(render(e).take(rl.len() as int) =~= rl);
            assert(render(e).take(render(x).len() as int) =~= rl.take(render(x).len() as int));
            assert(render(e)[rl.len() as int] == op_token(op));
            if *l != x {
                assert(render(e)[render(x).len() as int] == rl[render(x).len() as int]);
            }
        }
    } else {
        assert(render(e).take(render(x).len() as int) =~= render(x));
    }
}

/// Past a node `x` of the spine of `e`, the next node has `x` on its left.
pub proof fn lemma_next_on_spine(e: Expr, x: Expr, additive: bool)
    requires
        on_spine(e, x, additive),
        e != x,
    ensures
        on_spine(e, next_on_spine(e, x), additive),
        next_on_spine(e, x) matches Expr::Binary(op, l, _) && *l == x && is_additive(op)
            == additive,
    decreases e,
{
    if let Expr::Binary(op, l, _) = e {
        if *l != x {
            lemma_next_on_spine(*l, x, additive);
        }
    }
}

/// Every node of the spine of a well-formed tree is well-formed.
pub proof fn lemma_spine_well_formed(e: Expr, x: Expr, additive: bool)
    requires
        on_spine(e, x, additive),
        at_level(e, additive),
    ensures
        at_level(x, additive),
    decreases e,
{
    if e != x {
        if let Expr::Binary(op, l, _) = e {
            lemma_spine_well_formed(*l, x, additive);
        }
    }
}

pub proof fn lemma_spine_base(e: Expr, additive: bool)
    requires
        at_level(e, additive),
    ensures
        on_spine(e, spine_base(e, additive), additive),
        below_level(spine_base(e, additive), additive),
    decreases e,
{
    if let Expr::Binary(op, l, _) = e {
        if is_additive(op) == additive {
            lemma_spine_base(*l, additive);
        }
    }
}

/// One step along a spine, as a parser meets it: past a node `acc` that is
/// followed by an operator of the level, the tree goes on with that operator
/// and an operand of the level below, which a parser of that level finds.
pub proof fn lemma_spine_step(
    tokens: Seq<Token>,
    i: int,
    idx: int,
    acc: Expr,
    e: Expr,
    j: int,
    additive: bool,
)
    requires
        spans(tokens, i, idx, acc),
        spans(tokens, i, j, e),
        at_level(e, additive),
        on_spine(e, acc, additive),
        stops(tokens, j, additive),
        idx < tokens.len(),
        level_token(tokens[idx], additive),
    ensures
        next_on_spine(e, acc) matches Expr::Binary(op, l, r) && {
            let end = idx + 1 + render(*r).len();
            &&& *l == acc
            &&& is_additive(op) == additive
            &&& op_token(op) == tokens[idx]
            &&& below_level(*r, additive)
            &&& spans(tokens, idx + 1, end, *r)
            &&& additive ==> stops(tokens, end, false)
        },
        on_spine(e, next_on_spine(e, acc), additive),
{
    if e == acc {
        assert(tokens.subrange(i, j).len() == tokens.subrange(i, idx).len());
    }
    lemma_next_on_spine(e, acc, additive);
    let n = next_on_spine(e, acc);
    lemma_spine_render(e, n, additive);
    lemma_spine_well_formed(e, n, additive);
    if let Expr::Binary(op, l, r) = n {
        let re = render(e);
        let ra = render(acc);
        let rr = render(*r);
        let end = idx + 1 + rr.len();
        assert(render(n) == ra + seq![op_token(op)] + rr);
        assert(idx == i + ra.len());
        assert(re.take(render(n).len() as int)[ra.len() as int] == re[ra.len() as int]);
        assert(tokens[idx] == tokens.subrange(i, j)[ra.len() as int]);
        assert(tokens.subrange(idx + 1, end) =~= rr) by {
            assert forall|q: int| 0 <= q < rr.len() implies tokens.subrange(idx + 1, end)[q]
                == rr[q] by {
                assert(tokens.subrange(idx + 1, end)[q] == tokens.subrange(i, j)[ra.len() + 1 + q]);
                assert(re.take(render(n).len() as int)[ra.len() + 1 + q] == re[ra.len() + 1 + q]);
                assert(render(n)[ra.len() + 1 + q] == rr[q]);
            }
        }
        if n != e {
            assert(tokens[end] == tokens.subrange(i, j)[render(n).len() as int]);
        }
    }
}

} // verus!
