//! One calculator session: the memory store, the previous result, and what
//! each input line does to them.
use vstd::prelude::*;

use crate::eval::{eval_expression, evaluates_to, parses_to};
use crate::grammar::{BinOp, Expr};
use crate::memory::Memory;
use crate::token::{
    all_valid_words, first_invalid_word, tokens_of_words, words, CalcError, Token,
};

verus! {

/// What a line asks of the caller.
#[derive(Debug)]
pub enum Outcome<V> {
    /// The line was empty: the session is over.
    Stop,
    /// The line held only whitespace: nothing to print.
    Quiet,
    /// Print this value.
    Print(V),
}

/// The memory store and the previous result of a running session.
pub struct Session<V> {
    memory: Memory<V>,
    previous: V,
}

/// Adding `delta` to slot `name` of `m` gives the value `v` and the contents `m2`.
pub open spec fn accumulated<V, F: Fn(BinOp, V, V) -> V>(
    m: Map<Seq<char>, V>,
    name: Seq<char>,
    delta: V,
    combine: F,
    v: V,
    m2: Map<Seq<char>, V>,
) -> bool {
    &&& m2 == m.insert(name, v)
    &&& if m.contains_key(name) {
        combine.ensures((BinOp::Add, m[name], delta), v)
    } else {
        v == delta
    }
}

/// A line of tokens `tokens`, met with slot contents `mem` and previous
/// result `prev`, gives `r` and leaves `mem2` and `prev2`.
///
/// A line that starts with `mem<name>+` or `mem<name>-` adds the previous
/// result to the slot, or its negation, and must hold nothing else; any
/// other line is one expression, whose value becomes the previous result.
/// A refused line changes nothing.
pub open spec fn steps_to<V, N: Fn(&String) -> V, F: Fn(BinOp, V, V) -> V, G: Fn(V) -> V>(
    mem: Map<Seq<char>, V>,
    blank: V,
    prev: V,
    tokens: Seq<Token>,
    number: N,
    combine: F,
    negate: G,
    r: Result<Outcome<V>, CalcError>,
    mem2: Map<Seq<char>, V>,
    prev2: V,
) -> bool {
    let unchanged = mem2 == mem && prev2 == prev;
    if tokens.len() == 0 {
        r matches Ok(Outcome::Quiet) && unchanged
    } else {
        match tokens[0] {
            Token::MemoryPlus(n) => if tokens.len() > 1 {
                r matches Err(CalcError::Parse) && unchanged
            } else {
                r matches Ok(Outcome::Print(v)) && accumulated(mem, n@, prev, combine, v, mem2)
                    && prev2 == prev
            },
            Token::MemoryMinus(n) => if tokens.len() > 1 {
                r matches Err(CalcError::Parse) && unchanged
            } else {
                r matches Ok(Outcome::Print(v)) && prev2 == prev && exists|d: V|
                    #[trigger] negate.ensures((prev,), d) && accumulated(
                        mem,
                        n@,
                        d,
                        combine,
                        v,
                        mem2,
                    )
            },
            _ => if exists|e: Expr| parses_to(tokens, e) {
                r matches Ok(Outcome::Print(v)) && mem2 == mem && prev2 == v && forall|e: Expr|
                    parses_to(tokens, e) ==> evaluates_to(e, mem, blank, number, combine, v)
            } else {
                r matches Err(CalcError::Parse) && unchanged
            },
        }
    }
}

impl<V: Copy> Session<V> {
    /// The contents of the memory slots.
    pub closed spec fn memory_view(&self) -> Map<Seq<char>, V> {
        self.memory@
    }

    /// The value that unwritten slots read as.
    pub closed spec fn blank(&self) -> V {
        self.memory.blank_value()
    }

    pub closed spec fn previous_value(&self) -> V {
        self.previous
    }

    pub closed spec fn wf(&self) -> bool {
        self.memory.wf()
    }

    /// A new session: no slot written, and `zero` as the previous result and
    /// as the value of unwritten slots.
    pub fn new(zero: V) -> (r: Self)
        ensures
            r.wf(),
            r.memory_view() == Map::<Seq<char>, V>::empty(),
            r.blank() == zero,
            r.previous_value() == zero,
    {
        Session { memory: Memory::new(zero), previous: zero }
    }

    /// The result of the last expression line.
    pub fn previous(&self) -> (r: V)
        ensures
            r == self.previous_value(),
    {
        self.previous
    }

    /// The memory store.
    pub fn memory(&self) -> (r: &Memory<V>)
        ensures
            r.wf() == self.wf(),
            r@ == self.memory_view(),
            r.blank_value() == self.blank(),
    {
        &self.memory
    }

    /// Carries out one line of tokens.
    pub fn step<N: Fn(&String) -> V, F: Fn(BinOp, V, V) -> V, G: Fn(V) -> V>(
        &mut self,
        tokens: &[Token],
        number: &N,
        combine: &F,
        negate: &G,
    ) -> (r: Result<Outcome<V>, CalcError>)
        requires
            old(self).wf(),
            forall|s: String| number.requires((&s,)),
            forall|op: BinOp, a: V, b: V| combine.requires((op, a, b)),
            forall|a: V| negate.requires((a,)),
        ensures
            final(self).wf(),
            final(self).blank() == old(self).blank(),
            steps_to(
                old(self).memory_view(),
                old(self).blank(),
                old(self).previous_value(),
                tokens@,
                *number,
                *combine,
                *negate,
                r,
                final(self).memory_view(),
                final(self).previous_value(),
            ),
    {
        if tokens.len() == 0 {
            return Ok(Outcome::Quiet);
        }
        match &tokens[0] {
            Token::MemoryPlus(n) => {
                if tokens.len() > 1 {
                    return Err(CalcError::Parse);
                }
                let v = self.memory.accumulate(n.as_str(), self.previous, combine);
                Ok(Outcome::Print(v))
            },
            Token::MemoryMinus(n) => {
                if tokens.len() > 1 {
                    return Err(CalcError::Parse);
                }
                let d = negate(self.previous);
                let v = self.memory.accumulate(n.as_str(), d, combine);
                Ok(Outcome::Print(v))
            },
            _ => {
                match eval_expression(tokens, &self.memory, number, combine) {
                    Ok(v) => {
                        self.previous = v;
                        Ok(Outcome::Print(v))
                    },
                    Err(err) => Err(err),
                }
            },
        }
    }

    /// Carries out one input line: an empty line ends the session, a line
    /// whose words do not all stand for tokens is refused with the first
    /// such word, and the tokens of any other line are carried out as by
    /// `step`. A refused line changes nothing.
    pub fn process_line<N: Fn(&String) -> V, F: Fn(BinOp, V, V) -> V, G: Fn(V) -> V>(
        &mut self,
        line: &str,
        number: &N,
        combine: &F,
        negate: &G,
    ) -> (r: Result<Outcome<V>, CalcError>)
        requires
            old(self).wf(),
            forall|s: String| number.requires((&s,)),
            forall|op: BinOp, a: V, b: V| combine.requires((op, a, b)),
            forall|a: V| negate.requires((a,)),
        ensures
            final(self).wf(),
            final(self).blank() == old(self).blank(),
            line@.len() == 0 ==> r matches Ok(Outcome::Stop),
            line@.len() > 0 && !all_valid_words(words(line@)) ==> (r matches Err(
                CalcError::Tokenize(w),
            ) && first_invalid_word(words(line@), w@)),
            !(line@.len() > 0 && all_valid_words(words(line@))) ==> final(self).memory_view()
                == old(self).memory_view() && final(self).previous_value()
                == old(self).previous_value(),
            line@.len() > 0 && all_valid_words(words(line@)) ==> exists|ts: Seq<Token>|
                tokens_of_words(ts, words(line@)) && #[trigger] steps_to(
                    old(self).memory_view(),
                    old(self).blank(),
                    old(self).previous_value(),
                    ts,
                    *number,
                    *combine,
                    *negate,
                    r,
                    final(self).memory_view(),
                    final(self).previous_value(),
                ),
    {
        if line.unicode_len() == 0 {
            return Ok(Outcome::Stop);
        }
        match Token::split(line) {
            Ok(tokens) => self.step(tokens.as_slice(), number, combine, negate),
            Err(err) => Err(err),
        }
    }
}

} // verus!
