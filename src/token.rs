//! Splitting a line into tokens.
use vstd::prelude::*;

use crate::literal::{
    is_exponent, is_float_literal, is_float_literal_chars, is_mantissa, is_sign, unsigned_part,
};

verus! {

/// One token of an input line.
#[derive(Debug)]
pub enum Token {
    /// A numeric literal, kept as written.
    Number(String),
    /// `mem<name>`: the value of a slot.
    MemoryRef(String),
    /// `mem<name>+`: add the previous result to a slot.
    MemoryPlus(String),
    /// `mem<name>-`: subtract the previous result from a slot.
    MemoryMinus(String),
    Plus,
    Minus,
    Asterisk,
    Slash,
    LParen,
    RParen,
}

/// Why a line was refused.
#[derive(Debug)]
pub enum CalcError {
    /// This word is neither an operator, nor a slot, nor a numeric literal.
    Tokenize(String),
    /// The tokens do not form one expression.
    Parse,
}

/// Whether the character has Unicode's `White_Space` property.
pub uninterp spec fn white_space(c: char) -> bool;

/// Relies on `char::is_whitespace`: whether `c` has the `White_Space` property,
/// which depends on `c` alone.
#[verifier::external_body]
fn is_space(c: char) -> (r: bool)
    ensures
        r == white_space(c),
{
    c.is_whitespace()
}

/// The maximal runs of non-whitespace characters of `s`, in order.
pub open spec fn words(s: Seq<char>) -> Seq<Seq<char>>
    decreases s.len(),
{
    if s.len() == 0 {
        seq![]
    } else {
        let before = words(s.drop_last());
        let c = s.last();
        if white_space(c) {
            before
        } else if s.len() >= 2 && !white_space(s[s.len() - 2]) {
            // `c` continues the last word
            before.update(before.len() - 1, before.last().push(c))
        } else {
            before.push(seq![c])
        }
    }
}

pub open spec fn views(ws: Seq<String>) -> Seq<Seq<char>> {
    ws.map_values(|w: String| w@)
}

pub open spec fn mem_prefix() -> Seq<char> {
    seq!['m', 'e', 'm']
}

/// The text that a token is written as.
pub open spec fn spelling(t: Token) -> Seq<char> {
    match t {
        Token::Number(s) => s@,
        Token::MemoryRef(n) => mem_prefix() + n@,
        Token::MemoryPlus(n) => mem_prefix() + n@.push('+'),
        Token::MemoryMinus(n) => mem_prefix() + n@.push('-'),
        Token::Plus => seq!['+'],
        Token::Minus => seq!['-'],
        Token::Asterisk => seq!['*'],
        Token::Slash => seq!['/'],
        Token::LParen => seq!['('],
        Token::RParen => seq![')'],
    }
}

/// `t` is the token that the word `w` stands for.
pub open spec fn token_of_word(t: Token, w: Seq<char>) -> bool {
    &&& spelling(t) == w
    &&& match t {
        Token::Number(s) => is_float_literal(s@),
        Token::MemoryRef(n) => n@.len() > 0 && !is_sign(n@.last()),
        Token::MemoryPlus(n) => n@.len() > 0,
        Token::MemoryMinus(n) => n@.len() > 0,
        _ => true,
    }
}

pub open spec fn is_operator_word(w: Seq<char>) -> bool {
    ||| w == seq!['(']
    ||| w == seq![')']
    ||| w == seq!['+']
    ||| w == seq!['-']
    ||| w == seq!['*']
    ||| w == seq!['/']
}

/// `mem` followed by a non-empty name, itself followed by at most one sign.
pub open spec fn is_memory_word(w: Seq<char>) -> bool {
    &&& w.len() > 3
    &&& w.take(3) == mem_prefix()
    &&& !(w.len() == 4 && is_sign(w[3]))
}

pub open spec fn is_valid_word(w: Seq<char>) -> bool {
    is_operator_word(w) || is_memory_word(w) || is_float_literal(w)
}

pub open spec fn all_valid_words(ws: Seq<Seq<char>>) -> bool {
    forall|k: int| 0 <= k < ws.len() ==> is_valid_word(#[trigger] ws[k])
}

/// `ts` holds, in order, the token of each word of `ws`.
pub open spec fn tokens_of_words(ts: Seq<Token>, ws: Seq<Seq<char>>) -> bool {
    &&& ts.len() == ws.len()
    &&& forall|k: int| 0 <= k < ts.len() ==> token_of_word(#[trigger] ts[k], ws[k])
}

/// `w` is the first word of `ws` that stands for no token.
pub open spec fn first_invalid_word(ws: Seq<Seq<char>>, w: Seq<char>) -> bool {
    exists|k: int|
        {
            &&& 0 <= k < ws.len()
            &&& !is_valid_word(#[trigger] ws[k])
            &&& forall|q: int| 0 <= q < k ==> is_valid_word(ws[q])
            &&& ws[k] == w
        }
}

/// `t` and `u` are the same variant, written the same way; for variants
/// that carry text, the text is then the same.
pub open spec fn same_token(t: Token, u: Token) -> bool {
    &&& spelling(t) == spelling(u)
    &&& match (t, u) {
        (Token::Number(_), Token::Number(_)) => true,
        (Token::MemoryRef(_), Token::MemoryRef(_)) => true,
        (Token::MemoryPlus(_), Token::MemoryPlus(_)) => true,
        (Token::MemoryMinus(_), Token::MemoryMinus(_)) => true,
        (Token::Plus, Token::Plus) => true,
        (Token::Minus, Token::Minus) => true,
        (Token::Asterisk, Token::Asterisk) => true,
        (Token::Slash, Token::Slash) => true,
        (Token::LParen, Token::LParen) => true,
        (Token::RParen, Token::RParen) => true,
        _ => false,
    }
}

/// The text a token carries, if any.
pub open spec fn payload(t: Token) -> Seq<char> {
    match t {
        Token::Number(s) => s@,
        Token::MemoryRef(n) => n@,
        Token::MemoryPlus(n) => n@,
        Token::MemoryMinus(n) => n@,
        _ => seq![],
    }
}

/// No numeric literal starts with the letter `m`.
proof fn lemma_literal_not_m(w: Seq<char>)
    requires
        w.len() > 0,
        w[0] == 'm',
    ensures
        !is_float_literal(w),
{
    assert(unsigned_part(w) == w);
    assert(!is_mantissa(w));
    assert forall|m: int| 0 <= m <= w.len() && is_mantissa(w.take(m)) implies !is_exponent(
        #[trigger] w.skip(m),
    ) by {
        if m > 0 {
            assert(w.take(m)[0] == 'm');
        }
    }
}

/// No numeric literal is a single operator or bracket.
proof fn lemma_literal_not_operator(w: Seq<char>)
    requires
        w.len() == 1,
        !('0' <= w[0] && w[0] <= '9'),
    ensures
        !is_float_literal(w),
{
    let u = unsigned_part(w);
    if u.len() == 1 {
        assert(u == w);
        assert(w =~= seq![w[0]]);
        assert(!is_mantissa(w));
        assert forall|m: int| 0 <= m <= w.len() && is_mantissa(w.take(m)) implies !is_exponent(
            #[trigger] w.skip(m),
        ) by {
            if m == 1 {
                assert(w.take(1) =~= w);
            }
        }
    } else {
        assert(u.len() == 0);
        assert forall|m: int| 0 <= m <= u.len() && is_mantissa(u.take(m)) implies !is_exponent(
            #[trigger] u.skip(m),
        ) by {
            assert(u.take(m).len() == 0);
        }
    }
}

/// A word stands for at most one token, and only a valid word stands for
/// one: the token that `Token::parse` returns is the only one possible.
pub proof fn lemma_token_of_word_unique(t: Token, u: Token, w: Seq<char>)
    requires
        token_of_word(t, w),
        token_of_word(u, w),
    ensures
        same_token(t, u),
        payload(t) == payload(u),
        is_valid_word(w),
{
    let pre = mem_prefix();
    if w.len() > 0 && w[0] == 'm' {
        lemma_literal_not_m(w);
    }
    if w.len() == 1 && !('0' <= w[0] && w[0] <= '9') {
        lemma_literal_not_operator(w);
    }
    match t {
        Token::MemoryRef(n) => {
            assert(w.take(3) =~= pre);
            assert(w.len() == 4 ==> w[3] == n@.last());
        },
        Token::MemoryPlus(n) => {
            assert(w.take(3) =~= pre);
        },
        Token::MemoryMinus(n) => {
            assert(w.take(3) =~= pre);
        },
        _ => {},
    }
    assert(w.len() >= 3 && w.take(3) == pre ==> w[0] == 'm') by {
        if w.len() >= 3 && w.take(3) == pre {
            assert(w.take(3)[0] == w[0]);
        }
    }
    match (t, u) {
        (Token::MemoryRef(a), Token::MemoryRef(b)) => {
            assert(a@ =~= w.skip(3));
            assert(b@ =~= w.skip(3));
        },
        (Token::MemoryPlus(a), Token::MemoryPlus(b)) => {
            assert(a@ =~= w.subrange(3, w.len() - 1));
            assert(b@ =~= w.subrange(3, w.len() - 1));
        },
        (Token::MemoryMinus(a), Token::MemoryMinus(b)) => {
            assert(a@ =~= w.subrange(3, w.len() - 1));
            assert(b@ =~= w.subrange(3, w.len() - 1));
        },
        (Token::MemoryRef(a), Token::MemoryPlus(b)) => {
            assert(w.last() == a@.last());
            assert(w.last() == '+');
        },
        (Token::MemoryRef(a), Token::MemoryMinus(b)) => {
            assert(w.last() == a@.last());
            assert(w.last() == '-');
        },
        (Token::MemoryPlus(a), Token::MemoryRef(b)) => {
            assert(w.last() == b@.last());
            assert(w.last() == '+');
        },
        (Token::MemoryMinus(a), Token::MemoryRef(b)) => {
            assert(w.last() == b@.last());
            assert(w.last() == '-');
        },
        (Token::MemoryPlus(a), Token::MemoryMinus(b)) => {
            assert(w.last() == '+');
        },
        (Token::MemoryMinus(a), Token::MemoryPlus(b)) => {
            assert(w.last() == '-');
        },
        _ => {},
    }
}

fn chars_of(s: &str) -> (r: Vec<char>)
    ensures
        r@ == s@,
{
    let n = s.unicode_len();
    let mut v: Vec<char> = Vec::new();
    let mut i: usize = 0;
    while i < n
        invariant
            i <= n,
            n == s@.len(),
            v@ == s@.take(i as int),
        decreases n - i,
    {
        v.push(s.get_char(i));
        i = i + 1;
        assert(v@ =~= s@.take(i as int));
    }
    assert(v@ =~= s@);
    v
}

/// The words of `text`: its maximal runs of non-whitespace characters.
pub fn split_words(text: &str) -> (r: Vec<String>)
    ensures
        views(r@) == words(text@),
{
    let n = text.unicode_len();
    let ghost s = text@;
    let mut out: Vec<String> = Vec::new();
    let mut start: usize = 0;
    let mut in_word = false;
    let mut i: usize = 0;
    while i < n
        invariant
            i <= n,
            n == s.len(),
            s == text@,
            in_word <==> (i > 0 && !white_space(s[i - 1])),
            in_word ==> start < i,
            words(s.take(i as int)) == if in_word {
                views(out@).push(s.subrange(start as int, i as int))
            } else {
                views(out@)
            },
        decreases n - i,
    {
        let c = text.get_char(i);
        let ghost before = views(out@);
        assert(s.take(i + 1).drop_last() =~= s.take(i as int));
        assert(s.take(i + 1).last() == c);
        if is_space(c) {
            if in_word {
                let w = text.substring_char(start, i).to_owned();
                out.push(w);
                assert(views(out@) =~= before.push(s.subrange(start as int, i as int)));
                in_word = false;
            }
        } else {
            if in_word {
                assert(s.subrange(start as int, i + 1) =~= s.subrange(start as int, i as int).push(
                    c,
                ));
                assert(before.push(s.subrange(start as int, i as int)).update(
                    before.len() as int,
                    s.subrange(start as int, i + 1),
                ) =~= before.push(s.subrange(start as int, i + 1)));
            } else {
                start = i;
                in_word = true;
                assert(s.subrange(start as int, i + 1) =~= seq![c]);
            }
        }
        i = i + 1;
    }
    assert(s.take(n as int) =~= s);
    if in_word {
        let ghost before = views(out@);
        let w = text.substring_char(start, n).to_owned();
        out.push(w);
        assert(views(out@) =~= before.push(s.subrange(start as int, n as int)));
    }
    out
}

impl Token {
    /// The token that one word stands for.
    pub fn parse(word: &str) -> (r: Result<Token, CalcError>)
        ensures
            is_valid_word(word@) <==> r is Ok,
            match r {
                Ok(t) => token_of_word(t, word@),
                Err(e) => e matches CalcError::Tokenize(w) && w@ == word@,
            },
    {
        let chars = chars_of(word);
        let n = chars.len();
        let ghost w = word@;
        if n == 1 {
            let c = chars[0];
            assert(w =~= seq![c]);
            if c == '(' {
                return Ok(Token::LParen);
            } else if c == ')' {
                return Ok(Token::RParen);
            } else if c == '+' {
                return Ok(Token::Plus);
            } else if c == '-' {
                return Ok(Token::Minus);
            } else if c == '*' {
                return Ok(Token::Asterisk);
            } else if c == '/' {
                return Ok(Token::Slash);
            }
        }
        assert(!is_operator_word(w) || n == 1);
        if n >= 3 && chars[0] == 'm' && chars[1] == 'e' && chars[2] == 'm' {
            assert(w.take(3) =~= mem_prefix());
            let last = chars[n - 1];
            if n > 4 && last == '+' {
                let name = word.substring_char(3, n - 1).to_owned();
                assert(w =~= mem_prefix() + name@.push('+'));
                return Ok(Token::MemoryPlus(name));
            } else if n > 4 && last == '-' {
                let name = word.substring_char(3, n - 1).to_owned();
                assert(w =~= mem_prefix() + name@.push('-'));
                return Ok(Token::MemoryMinus(name));
            } else if n > 3 && last != '+' && last != '-' {
                let name = word.substring_char(3, n).to_owned();
                assert(w =~= mem_prefix() + name@);
                assert(name@.last() == last);
                return Ok(Token::MemoryRef(name));
            } else {
                // `mem` with no name, or with a lone sign as its name
                assert(!is_float_literal(w)) by {
                    assert(w[0] == 'm');
                    assert(w.skip(1)[0] == w[1]);
                }
                return Err(CalcError::Tokenize(word.to_owned()));
            }
        }
        assert(!is_memory_word(w)) by {
            if w.len() > 3 && w.take(3) == mem_prefix() {
                assert(w[0] == w.take(3)[0] && w[1] == w.take(3)[1] && w[2] == w.take(3)[2]);
            }
        }
        if is_float_literal_chars(&chars) {
            let s = word.to_owned();
            Ok(Token::Number(s))
        } else {
            Err(CalcError::Tokenize(word.to_owned()))
        }
    }

    /// The tokens of a line, one per word.
    pub fn split(text: &str) -> (r: Result<Vec<Token>, CalcError>)
        ensures
            all_valid_words(words(text@)) <==> r is Ok,
            match r {
                Ok(ts) => tokens_of_words(ts@, words(text@)),
                Err(e) => e matches CalcError::Tokenize(w) && first_invalid_word(words(text@), w@),
            },
    {
        let ws = split_words(text);
        let ghost wv = words(text@);
        let mut tokens: Vec<Token> = Vec::new();
        let mut k: usize = 0;
        while k < ws.len()
            invariant
                k <= ws@.len(),
                wv == words(text@),
                views(ws@) == wv,
                tokens@.len() == k,
                forall|q: int| 0 <= q < k ==> is_valid_word(#[trigger] wv[q]),
                forall|q: int| 0 <= q < k ==> token_of_word(#[trigger] tokens@[q], wv[q]),
            decreases ws.len() - k,
        {
            assert(ws@[k as int]@ == wv[k as int]);
            match Token::parse(ws[k].as_str()) {
                Ok(t) => {
                    tokens.push(t);
                },
                Err(e) => {
                    assert(first_invalid_word(wv, wv[k as int]) && !all_valid_words(wv));
                    return Err(e);
                },
            }
            k = k + 1;
        }
        assert(forall|q: int| 0 <= q < wv.len() ==> is_valid_word(#[trigger] wv[q]));
        Ok(tokens)
    }
}

} // verus!
