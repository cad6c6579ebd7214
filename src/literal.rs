//! The grammar of numeric literals.
//!
//! A literal is accepted exactly when it matches, after lowercasing,
//!
//! ```text
//! Literal  ::= Sign? ( 'inf' | 'infinity' | 'nan' | Number )
//! Number   ::= ( Digit+ | Digit+ '.' Digit* | Digit* '.' Digit+ ) Exponent?
//! Exponent ::= 'e' Sign? Digit+
//! Sign     ::= [+-]
//! Digit    ::= [0-9]
//! ```
//!
//! which is the set of strings that the standard library reads as an `f64`.
use vstd::prelude::*;

verus! {

pub open spec fn is_digit(c: char) -> bool {
    '0' <= c && c <= '9'
}

pub open spec fn is_sign(c: char) -> bool {
    c == '+' || c == '-'
}

pub open spec fn all_digits(s: Seq<char>) -> bool {
    forall|k: int| 0 <= k < s.len() ==> is_digit(#[trigger] s[k])
}

/// `Digit+ | Digit+ '.' Digit* | Digit* '.' Digit+`: digits with at most one
/// point, and at least one digit (so neither empty nor a lone point).
pub open spec fn is_mantissa(m: Seq<char>) -> bool {
    &&& m.len() > 0
    &&& m != seq!['.']
    &&& forall|k: int| 0 <= k < m.len() ==> is_digit(#[trigger] m[k]) || m[k] == '.'
    &&& forall|a: int, b: int| 0 <= a < b < m.len() ==> !(#[trigger] m[a] == '.' && #[trigger] m[b] == '.')
}

/// `'e' Sign? Digit+`, with the letter in either case.
pub open spec fn is_exponent(x: Seq<char>) -> bool {
    let d: int = if x.len() > 1 && is_sign(x[1]) { 2 } else { 1 };
    &&& x.len() > d
    &&& (x[0] == 'e' || x[0] == 'E')
    &&& all_digits(x.skip(d))
}

pub open spec fn is_number(b: Seq<char>) -> bool {
    ||| is_mantissa(b)
    ||| exists|m: int| 0 <= m <= b.len() && is_mantissa(b.take(m)) && is_exponent(#[trigger] b.skip(m))
}

/// `s` spells `word` (given in lower case) with each letter in either case.
pub open spec fn spells_ignoring_case(s: Seq<char>, word: Seq<char>) -> bool {
    &&& s.len() == word.len()
    &&& forall|k: int| 0 <= k < s.len() ==> #[trigger] s[k] == word[k] || s[k] == upper(word[k])
}

/// The capital of each letter that the special literals use.
pub open spec fn upper(c: char) -> char {
    if c == 'i' {
        'I'
    } else if c == 'n' {
        'N'
    } else if c == 'f' {
        'F'
    } else if c == 't' {
        'T'
    } else if c == 'y' {
        'Y'
    } else if c == 'a' {
        'A'
    } else {
        c
    }
}

pub open spec fn is_special(b: Seq<char>) -> bool {
    ||| spells_ignoring_case(b, seq!['i', 'n', 'f'])
    ||| spells_ignoring_case(b, seq!['i', 'n', 'f', 'i', 'n', 'i', 't', 'y'])
    ||| spells_ignoring_case(b, seq!['n', 'a', 'n'])
}

/// The literal without its leading sign, if it has one.
pub open spec fn unsigned_part(s: Seq<char>) -> Seq<char> {
    if s.len() > 0 && is_sign(s[0]) {
        s.skip(1)
    } else {
        s
    }
}

pub open spec fn is_float_literal(s: Seq<char>) -> bool {
    is_special(unsigned_part(s)) || is_number(unsigned_part(s))
}

fn digit(c: char) -> (r: bool)
    ensures
        r == is_digit(c),
{
    '0' <= c && c <= '9'
}

/// Whether `s[from..to]` spells `word` with each letter in either case.
fn spells_from(s: &Vec<char>, from: usize, word: &Vec<char>, word_upper: &Vec<char>) -> (r: bool)
    requires
        from <= s.len(),
        word_upper@.len() == word@.len(),
        forall|k: int| 0 <= k < word@.len() ==> #[trigger] word_upper@[k] == upper(word@[k]),
    ensures
        r == spells_ignoring_case(s@.skip(from as int), word@),
{
    if s.len() - from != word.len() {
        return false;
    }
    let mut k: usize = 0;
    while k < word.len()
        invariant
            k <= word@.len(),
            s.len() - from == word@.len(),
            word_upper@.len() == word@.len(),
            forall|q: int| 0 <= q < word@.len() ==> #[trigger] word_upper@[q] == upper(word@[q]),
            forall|q: int|
                0 <= q < k ==> #[trigger] s@[from + q] == word@[q] || s@[from + q] == upper(
                    word@[q],
                ),
        decreases word.len() - k,
    {
        let c = s[from + k];
        assert(s@.skip(from as int)[k as int] == c);
        if c != word[k] && c != word_upper[k] {
            return false;
        }
        k = k + 1;
    }
    assert forall|q: int| 0 <= q < word@.len() implies #[trigger] s@.skip(from as int)[q] == word@[q]
        || s@.skip(from as int)[q] == upper(word@[q]) by {
        assert(s@.skip(from as int)[q] == s@[from + q]);
    }
    true
}

fn special_from(s: &Vec<char>, from: usize) -> (r: bool)
    requires
        from <= s.len(),
    ensures
        r == is_special(s@.skip(from as int)),
{
    let inf = vec!['i', 'n', 'f'];
    let inf_upper = vec!['I', 'N', 'F'];
    let infinity = vec!['i', 'n', 'f', 'i', 'n', 'i', 't', 'y'];
    let infinity_upper = vec!['I', 'N', 'F', 'I', 'N', 'I', 'T', 'Y'];
    let nan = vec!['n', 'a', 'n'];
    let nan_upper = vec!['N', 'A', 'N'];
    assert(inf@ == seq!['i', 'n', 'f']);
    assert(infinity@ == seq!['i', 'n', 'f', 'i', 'n', 'i', 't', 'y']);
    assert(nan@ == seq!['n', 'a', 'n']);
    spells_from(s, from, &inf, &inf_upper) || spells_from(s, from, &infinity, &infinity_upper)
        || spells_from(s, from, &nan, &nan_upper)
}

/// Whether `s[from..to]` is a mantissa.
fn mantissa_between(s: &Vec<char>, from: usize, to: usize) -> (r: bool)
    requires
        from <= to <= s.len(),
    ensures
        r == is_mantissa(s@.subrange(from as int, to as int)),
{
    let ghost m = s@.subrange(from as int, to as int);
    if from == to {
        return false;
    }
    if to - from == 1 && s[from] == '.' {
        assert(m =~= seq!['.']);
        return false;
    }
    let mut seen_point = false;
    let mut k: usize = from;
    while k < to
        invariant
            from <= k <= to <= s.len(),
            m == s@.subrange(from as int, to as int),
            forall|q: int| 0 <= q < k - from ==> is_digit(#[trigger] m[q]) || m[q] == '.',
            forall|a: int, b: int|
                0 <= a < b < k - from ==> !(#[trigger] m[a] == '.' && #[trigger] m[b] == '.'),
            seen_point <==> exists|q: int| 0 <= q < k - from && #[trigger] m[q] == '.',
        decreases to - k,
    {
        let c = s[k];
        assert(c == m[k - from]);
        if c == '.' {
            if seen_point {
                let ghost q = choose|q: int| 0 <= q < k - from && #[trigger] m[q] == '.';
                assert(m[q] == '.' && m[k - from] == '.');
                return false;
            }
            seen_point = true;
        } else if !digit(c) {
            return false;
        }
        k = k + 1;
    }
    proof {
        if m == seq!['.'] {
            assert(m.len() == 1);
            assert(s@[from as int] == m[0]);
        }
    }
    true
}

/// Whether `s[from..]` is an exponent.
fn exponent_from(s: &Vec<char>, from: usize) -> (r: bool)
    requires
        from <= s.len(),
    ensures
        r == is_exponent(s@.skip(from as int)),
{
    let ghost x = s@.skip(from as int);
    let n = s.len() - from;
    if n < 2 {
        return false;
    }
    let first = s[from];
    if first != 'e' && first != 'E' {
        return false;
    }
    let second = s[from + 1];
    assert(x[0] == first && x[1] == second);
    let d: usize = if second == '+' || second == '-' { 2 } else { 1 };
    if n <= d {
        return false;
    }
    let mut k: usize = from + d;
    while k < s.len()
        invariant
            from + d <= k <= s.len(),
            x == s@.skip(from as int),
            x.len() > d,
            x[0] == 'e' || x[0] == 'E',
            d == (if x.len() > 1 && is_sign(x[1]) { 2int } else { 1int }),
            forall|q: int| 0 <= q < k - from - d ==> is_digit(#[trigger] x.skip(d as int)[q]),
        decreases s.len() - k,
    {
        if !digit(s[k]) {
            assert(x.skip(d as int)[k - from - d] == s@[k as int]);
            return false;
        }
        k = k + 1;
    }
    true
}

/// Whether `s[from..]` is a `Number` of the grammar.
fn number_from(s: &Vec<char>, from: usize) -> (r: bool)
    requires
        from <= s.len(),
    ensures
        r == is_number(s@.skip(from as int)),
{
    let ghost b = s@.skip(from as int);
    let mut e: usize = from;
    while e < s.len() && s[e] != 'e' && s[e] != 'E'
        invariant
            from <= e <= s.len(),
            forall|q: int| from <= q < e ==> #[trigger] s@[q] != 'e' && s@[q] != 'E',
        decreases s.len() - e,
    {
        e = e + 1;
    }
    let ghost m = (e - from) as int;
    assert(b.take(m) =~= s@.subrange(from as int, e as int));
    assert(b.skip(m) =~= s@.skip(e as int));
    if e == s.len() {
        assert(b =~= s@.subrange(from as int, e as int));
        let r = mantissa_between(s, from, e);
        proof {
            if !r {
                assert forall|m2: int|
                    0 <= m2 <= b.len() && is_mantissa(b.take(m2)) implies !is_exponent(
                    #[trigger] b.skip(m2),
                ) by {
                    if m2 < b.len() {
                        assert(b.skip(m2)[0] == s@[from + m2]);
                    }
                }
            }
        }
        r
    } else {
        let r = mantissa_between(s, from, e) && exponent_from(s, e);
        proof {
            // The mantissa holds no exponent letter, so it ends at the first one.
            assert(b[m] == s@[e as int]);
            assert(!is_mantissa(b)) by {
                assert(!(is_digit(b[m]) || b[m] == '.'));
            }
            if !r {
                assert forall|m2: int|
                    0 <= m2 <= b.len() && is_mantissa(b.take(m2)) implies !is_exponent(
                    #[trigger] b.skip(m2),
                ) by {
                    if m2 > m {
                        assert(b.take(m2)[m] == b[m]);
                    } else if m2 < m {
                        assert(b.skip(m2)[0] == s@[from + m2]);
                    }
                }
            }
        }
        r
    }
}

/// Whether the characters form a numeric literal.
pub fn is_float_literal_chars(s: &Vec<char>) -> (r: bool)
    ensures
        r == is_float_literal(s@),
{
    let from: usize = if s.len() > 0 && (s[0] == '+' || s[0] == '-') { 1 } else { 0 };
    assert(unsigned_part(s@) =~= s@.skip(from as int));
    special_from(s, from) || number_from(s, from)
}

} // verus!
