//! The tokens of an expression: integers, operators and parentheses.

use crate::text::{
    chars_of, copy_range, decimal_value, is_numeral, parse_decimal, split_words, string_of, utf8_len,
    views, width_of, words,
};
use std::str::FromStr;
use vstd::arithmetic::power::pow;
use vstd::prelude::*;

verus! {

/// A binary operator.
#[derive(Debug, Clone, Copy, PartialEq, Eq)]
pub enum OperatorType {
    Add,
    Sub,
    Div,
    Mul,
    Pow,
}

/// The quotient of `a` by `b`, rounded towards zero.
pub open spec fn quotient(a: int, b: int) -> int {
    if a == 0 {
        0
    } else if a > 0 && b > 0 {
        a / b
    } else if a < 0 && b < 0 {
        (a * -1) / (b * -1)
    } else if a < 0 {
        ((a * -1) / b) * -1
    } else {
        (a / (b * -1)) * -1
    }
}

/// `base` to the power of `exp`, where it fits in an `isize`.
///
/// Trusted: `isize::checked_pow` of the standard library, which computes the
/// power and gives `None` exactly when it overflows.
#[verifier::external_body]
fn checked_power(base: isize, exp: u32) -> (r: Option<isize>)
    ensures
        r == if isize::MIN <= pow(base as int, exp as nat) <= isize::MAX {
            Some(pow(base as int, exp as nat) as isize)
        } else {
            None
        },
{
    base.checked_pow(exp)
}

impl OperatorType {
    /// How tightly the operator binds: the greater, the tighter.
    pub open spec fn precedence_spec(self) -> nat {
        match self {
            OperatorType::Pow => 3,
            OperatorType::Mul | OperatorType::Div => 2,
            OperatorType::Add | OperatorType::Sub => 1,
        }
    }

    /// How tightly the operator binds.
    pub fn precedence(&self) -> (p: u8)
        ensures
            p == self.precedence_spec(),
    {
        match self {
            OperatorType::Pow => 3,
            OperatorType::Mul | OperatorType::Div => 2,
            OperatorType::Add | OperatorType::Sub => 1,
        }
    }

    /// What the operator makes of two integers. Nothing where the divisor is
    /// zero, or the exponent is negative or more than `u32::MAX`.
    pub open spec fn result(self, lhs: int, rhs: int) -> Option<int> {
        match self {
            OperatorType::Add => Some(lhs + rhs),
            OperatorType::Sub => Some(lhs - rhs),
            OperatorType::Mul => Some(lhs * rhs),
            OperatorType::Div => if rhs == 0 {
                None
            } else {
                Some(quotient(lhs, rhs))
            },
            OperatorType::Pow => if 0 <= rhs <= u32::MAX {
                Some(pow(lhs, rhs as nat))
            } else {
                None
            },
        }
    }

    /// What the operator makes of two machine integers, where that is
    /// defined and fits in an `isize`.
    pub open spec fn apply_spec(self, lhs: isize, rhs: isize) -> Option<isize> {
        match self.result(lhs as int, rhs as int) {
            Some(v) => if isize::MIN <= v <= isize::MAX {
                Some(v as isize)
            } else {
                None
            },
            None => None,
        }
    }

    /// Applies the operator, where the result is defined and fits.
    pub fn checked_apply(&self, lhs: isize, rhs: isize) -> (r: Option<isize>)
        ensures
            r == self.apply_spec(lhs, rhs),
    {
        match self {
            OperatorType::Add => lhs.checked_add(rhs),
            OperatorType::Sub => {
                if (rhs >= 0 && lhs < isize::MIN + rhs) || (rhs < 0 && lhs > isize::MAX + rhs) {
                    None
                } else {
                    Some(lhs - rhs)
                }
            },
            OperatorType::Mul => lhs.checked_mul(rhs),
            OperatorType::Div => lhs.checked_div(rhs),
            OperatorType::Pow => {
                if rhs < 0 || rhs as i128 > u32::MAX as i128 {
                    None
                } else {
                    checked_power(lhs, rhs as u32)
                }
            },
        }
    }

    /// Applies the operator to two integers.
    pub fn apply(&self, lhs: isize, rhs: isize) -> (r: isize)
        requires
            self.apply_spec(lhs, rhs) is Some,
        ensures
            Some(r) == self.apply_spec(lhs, rhs),
    {
        match self.checked_apply(lhs, rhs) {
            Some(v) => v,
            None => 0,
        }
    }

    /// The operator that a text denotes, if any.
    pub open spec fn operator_spec(s: Seq<char>) -> Option<OperatorType> {
        if s == seq!['+'] {
            Some(OperatorType::Add)
        } else if s == seq!['-'] {
            Some(OperatorType::Sub)
        } else if s == seq!['/'] {
            Some(OperatorType::Div)
        } else if s == seq!['*'] {
            Some(OperatorType::Mul)
        } else if s == seq!['^'] {
            Some(OperatorType::Pow)
        } else {
            None
        }
    }

    /// Reads an operator: one of `+`, `-`, `/`, `*`, `^`.
    pub fn from_str(s: &str) -> (r: Result<OperatorType, MathEquationErr>)
        ensures
            r is Ok <==> OperatorType::operator_spec(s@) is Some,
            r is Ok ==> Some(r->Ok_0) == OperatorType::operator_spec(s@),
            r is Err ==> (r->Err_0 matches MathEquationErr::InvalidOperatorType(t) && t@ == s@),
    {
        let v = chars_of(s);
        match read_operator(&v) {
            Some(op) => Ok(op),
            None => Err(MathEquationErr::InvalidOperatorType(string_of(&v))),
        }
    }
}

/// Reads an operator from characters.
fn read_operator(v: &Vec<char>) -> (r: Option<OperatorType>)
    ensures
        r == OperatorType::operator_spec(v@),
{
    if v.len() != 1 {
        return None;
    }
    let c = v[0];
    proof {
        assert(v@ =~= seq![c]);
        assert(seq![c][0] == c);
    }
    if c == '+' {
        assert(v@ == seq!['+']);
        Some(OperatorType::Add)
    } else if c == '-' {
        assert(seq!['+'][0] != c);
        Some(OperatorType::Sub)
    } else if c == '/' {
        assert(seq!['+'][0] != c && seq!['-'][0] != c);
        Some(OperatorType::Div)
    } else if c == '*' {
        assert(seq!['+'][0] != c && seq!['-'][0] != c && seq!['/'][0] != c);
        Some(OperatorType::Mul)
    } else if c == '^' {
        assert(seq!['+'][0] != c && seq!['-'][0] != c && seq!['/'][0] != c && seq!['*'][0] != c);
        Some(OperatorType::Pow)
    } else {
        assert(seq!['+'][0] != c && seq!['-'][0] != c && seq!['/'][0] != c && seq!['*'][0] != c
            && seq!['^'][0] != c);
        None
    }
}

impl FromStr for OperatorType {
    type Err = MathEquationErr;

    fn from_str(s: &str) -> (r: Result<Self, Self::Err>)
        ensures
            r is Ok <==> OperatorType::operator_spec(s@) is Some,
            r is Ok ==> Some(r->Ok_0) == OperatorType::operator_spec(s@),
            r is Err ==> (r->Err_0 matches MathEquationErr::InvalidOperatorType(t) && t@ == s@),
    {
        OperatorType::from_str(s)
    }
}

/// Why a text is no token.
#[derive(Debug)]
pub enum MathEquationErr {
    /// The text is neither an integer, nor a parenthesis, nor an operator.
    InvalidOperatorType(String),
    /// The text is no number.
    InvalidOperand(String),
}

/// A token of an expression.
#[derive(Debug, Clone, Copy, PartialEq, Eq)]
pub enum MathToken {
    IntOperand(isize),
    Operator(OperatorType),
    /// An opening (`true`) or a closing (`false`) parenthesis.
    Parens(bool),
}

/// The integer that a text denotes: a decimal numeral, behind a plus or a
/// minus sign or none, whose value fits in an `isize`.
pub open spec fn integer_spec(s: Seq<char>) -> Option<isize> {
    if s.len() > 0 && s[0] == '-' {
        if is_numeral(s.drop_first()) && decimal_value(s.drop_first()) <= -(isize::MIN as int) {
            Some((-(decimal_value(s.drop_first()) as int)) as isize)
        } else {
            None
        }
    } else {
        let digits = if s.len() > 0 && s[0] == '+' {
            s.drop_first()
        } else {
            s
        };
        if is_numeral(digits) && decimal_value(digits) <= isize::MAX {
            Some(decimal_value(digits) as isize)
        } else {
            None
        }
    }
}

/// The token that a text denotes, if any: a parenthesis, an integer or an
/// operator.
pub open spec fn token_spec(s: Seq<char>) -> Option<MathToken> {
    if s == seq!['('] {
        Some(MathToken::Parens(true))
    } else if s == seq![')'] {
        Some(MathToken::Parens(false))
    } else if integer_spec(s) is Some {
        Some(MathToken::IntOperand(integer_spec(s)->0))
    } else if OperatorType::operator_spec(s) is Some {
        Some(MathToken::Operator(OperatorType::operator_spec(s)->0))
    } else {
        None
    }
}

/// Reads an integer from characters.
fn read_integer(v: &Vec<char>) -> (r: Option<isize>)
    ensures
        r == integer_spec(v@),
{
    let len: usize = v.len();
    if len > 0 && v[0] == '-' {
        proof {
            assert(v@.subrange(1, len as int) =~= v@.drop_first());
        }
        match parse_decimal(v, 1, len) {
            None => None,
            Some(n) => {
                if n as u128 > (isize::MAX as u128) + 1 {
                    None
                } else if n as u128 == (isize::MAX as u128) + 1 {
                    Some(isize::MIN)
                } else {
                    Some(-(n as isize))
                }
            },
        }
    } else {
        let start: usize = if len > 0 && v[0] == '+' {
            1
        } else {
            0
        };
        proof {
            if start == 1 {
                assert(v@.subrange(1, len as int) =~= v@.drop_first());
            } else {
                assert(v@.subrange(0, len as int) =~= v@);
            }
        }
        match parse_decimal(v, start, len) {
            None => None,
            Some(n) => {
                if n > isize::MAX as usize {
                    None
                } else {
                    Some(n as isize)
                }
            },
        }
    }
}

/// Reads a token from characters.
pub fn read_token(v: &Vec<char>) -> (r: Option<MathToken>)
    ensures
        r == token_spec(v@),
{
    if v.len() == 1 && v[0] == '(' {
        assert(v@ =~= seq!['(']);
        return Some(MathToken::Parens(true));
    }
    if v.len() == 1 && v[0] == ')' {
        assert(v@ =~= seq![')']);
        assert(seq!['('][0] != v@[0]);
        return Some(MathToken::Parens(false));
    }
    proof {
        if v.len() == 1 {
            assert(seq!['('][0] != v@[0]);
            assert(seq![')'][0] != v@[0]);
        }
    }
    match read_integer(v) {
        Some(i) => Some(MathToken::IntOperand(i)),
        None => match read_operator(v) {
            Some(op) => Some(MathToken::Operator(op)),
            None => None,
        },
    }
}

impl MathToken {
    /// Reads a token: `(`, `)`, an integer, or an operator.
    ///
    /// Fails with `InvalidOperatorType`, which holds the text, where the
    /// text is none of these.
    pub fn from_str(s: &str) -> (r: Result<MathToken, MathEquationErr>)
        ensures
            r is Ok <==> token_spec(s@) is Some,
            r is Ok ==> Some(r->Ok_0) == token_spec(s@),
            r is Err ==> (r->Err_0 matches MathEquationErr::InvalidOperatorType(t) && t@ == s@),
    {
        let v = chars_of(s);
        match read_token(&v) {
            Some(t) => Ok(t),
            None => Err(MathEquationErr::InvalidOperatorType(string_of(&v))),
        }
    }
}

impl FromStr for MathToken {
    type Err = MathEquationErr;

    fn from_str(s: &str) -> (r: Result<Self, Self::Err>)
        ensures
            r is Ok <==> token_spec(s@) is Some,
            r is Ok ==> Some(r->Ok_0) == token_spec(s@),
            r is Err ==> (r->Err_0 matches MathEquationErr::InvalidOperatorType(t) && t@ == s@),
    {
        MathToken::from_str(s)
    }
}

/// The tokens of an expression, in the order in which they were written.
#[derive(Debug, PartialEq, Eq)]
pub struct Expression {
    pub tokens: Vec<MathToken>,
}

/// The texts of the tokens of one word.
///
/// A word that begins with an opening parenthesis gives the parenthesis
/// and what follows it; a word that ends with a closing parenthesis gives
/// what stands before it and the parenthesis, where the word is written in
/// ASCII: what stands before is cut at one less than the number of bytes of
/// the word, so that it holds the whole of a word that is not. Every other
/// word is one text.
pub open spec fn word_pieces(w: Seq<char>) -> Seq<Seq<char>> {
    if w.len() > 0 && w[0] == '(' {
        seq![seq!['('], w.drop_first()]
    } else if w.len() > 0 && w.last() == ')' {
        seq![
            if utf8_len(w) - 1 < w.len() {
                w.take(utf8_len(w) - 1)
            } else {
                w
            },
            seq![')'],
        ]
    } else {
        seq![w]
    }
}

/// The texts of the tokens of the words from the `i`-th on.
pub open spec fn token_texts_from(ws: Seq<Seq<char>>, i: int) -> Seq<Seq<char>>
    decreases ws.len() - i,
{
    if i < 0 || i >= ws.len() {
        Seq::empty()
    } else {
        word_pieces(ws[i]) + token_texts_from(ws, i + 1)
    }
}

/// The texts of the tokens of an expression.
pub open spec fn token_texts(s: Seq<char>) -> Seq<Seq<char>> {
    token_texts_from(words(s), 0)
}

/// The tokens that the texts denote, or the first text that denotes none.
pub open spec fn tokens_spec(texts: Seq<Seq<char>>) -> Result<Seq<MathToken>, Seq<char>>
    decreases texts.len(),
{
    if texts.len() == 0 {
        Ok(Seq::empty())
    } else {
        match token_spec(texts[0]) {
            None => Err(texts[0]),
            Some(t) => match tokens_spec(texts.drop_first()) {
                Ok(rest) => Ok(seq![t] + rest),
                Err(e) => Err(e),
            },
        }
    }
}

/// `head` before the tokens that `rest` holds, if it holds any.
pub open spec fn tokens_behind(head: Seq<MathToken>, rest: Result<Seq<MathToken>, Seq<char>>) -> Result<
    Seq<MathToken>,
    Seq<char>,
> {
    match rest {
        Ok(tail) => Ok(head + tail),
        Err(e) => Err(e),
    }
}

/// The tokens of an expression, or its first text that is no token.
pub open spec fn expression_spec(s: Seq<char>) -> Result<Seq<MathToken>, Seq<char>> {
    tokens_spec(token_texts(s))
}

/// The number of bytes that the characters take in UTF-8.
fn byte_len(v: &Vec<char>) -> (n: usize)
    requires
        utf8_len(v@) <= usize::MAX,
    ensures
        n == utf8_len(v@),
{
    let mut n: usize = 0;
    let mut i: usize = 0;
    assert(v@.take(0) =~= Seq::<char>::empty());
    while i < v.len()
        invariant
            i <= v.len(),
            utf8_len(v@) <= usize::MAX,
            n == utf8_len(v@.take(i as int)),
        decreases v.len() - i,
    {
        proof {
            crate::text::lemma_utf8_len_push(v@.take(i as int), v@[i as int]);
            assert(v@.take(i as int).push(v@[i as int]) =~= v@.take(i + 1));
            crate::text::lemma_prefix_len(v@, i + 1);
        }
        n = n + width_of(v[i]);
        i += 1;
    }
    assert(v@.take(v.len() as int) =~= v@);
    n
}

impl Expression {
    /// The expression of the given tokens.
    pub fn new(tokens: Vec<MathToken>) -> (e: Self)
        ensures
            e.tokens@ == tokens@,
    {
        Expression { tokens }
    }

    /// Reads the tokens of an expression, which white space separates;
    /// a parenthesis may stand against the token behind or before it.
    ///
    /// Fails with `InvalidOperatorType`, which holds the text, on the
    /// first text that is no token.
    pub fn from_str(s: &str) -> (r: Result<Expression, MathEquationErr>)
        ensures
            r is Ok ==> expression_spec(s@) == Ok::<Seq<MathToken>, Seq<char>>(r->Ok_0.tokens@),
            r is Err ==> (r->Err_0 matches MathEquationErr::InvalidOperatorType(t)
                && expression_spec(s@) == Err::<Seq<MathToken>, Seq<char>>(t@)),
    {
        let v = chars_of(s);
        let total: usize = s.as_bytes().len();
        let ws = split_words(&v);
        let mut texts: Vec<Vec<char>> = Vec::new();
        let mut i: usize = 0;
        assert(views(texts@) =~= Seq::<Seq<char>>::empty());
        while i < ws.len()
            invariant
                i <= ws.len(),
                v@ == s@,
                total == utf8_len(s@),
                views(ws@) == words(s@),
                token_texts(s@) == views(texts@) + token_texts_from(views(ws@), i as int),
            decreases ws.len() - i,
        {
            let w = &ws[i];
            let ghost before = views(texts@);
            let ghost old_texts = texts@;
            proof {
                assert(views(ws@)[i as int] == w@);
                lemma_word_bytes(s@, i as int);
            }
            if w.len() > 0 && w[0] == '(' {
                let mut first: Vec<char> = Vec::new();
                first.push('(');
                let rest = copy_range(w, 1, w.len());
                texts.push(first);
                texts.push(rest);
                proof {
                    assert(first@ =~= seq!['(']);
                    assert(w@.subrange(1, w.len() as int) =~= w@.drop_first());
                    assert(views(texts@) =~= before + word_pieces(w@));
                }
            } else if w.len() > 0 && w[w.len() - 1] == ')' {
                let bytes = byte_len(w);
                let cut: usize = if bytes - 1 < w.len() {
                    bytes - 1
                } else {
                    w.len()
                };
                let rest = copy_range(w, 0, cut);
                let mut last: Vec<char> = Vec::new();
                last.push(')');
                texts.push(rest);
                texts.push(last);
                proof {
                    assert(last@ =~= seq![')']);
                    assert(w@.subrange(0, w.len() as int) =~= w@);
                    assert(w@.subrange(0, cut as int) =~= w@.take(cut as int));
                    assert(views(texts@) =~= before + word_pieces(w@));
                }
            } else {
                texts.push(copy_range(w, 0, w.len()));
                proof {
                    assert(w@.subrange(0, w.len() as int) =~= w@);
                    assert(views(texts@) =~= before + word_pieces(w@));
                }
            }
            proof {
                assert(before + (word_pieces(w@) + token_texts_from(views(ws@), i + 1)) =~= (before
                    + word_pieces(w@)) + token_texts_from(views(ws@), i + 1));
            }
            i += 1;
        }
        proof {
            assert(views(texts@) + Seq::<Seq<char>>::empty() =~= views(texts@));
            assert(token_texts(s@) == views(texts@));
        }
        let ghost all = views(texts@);
        let mut tokens: Vec<MathToken> = Vec::new();
        let mut j: usize = 0;
        assert(all.skip(0) =~= all);
        assert(Seq::<MathToken>::empty() + tokens_spec(all)->Ok_0 =~= tokens_spec(all)->Ok_0);
        while j < texts.len()
            invariant
                j <= texts.len(),
                all == views(texts@),
                all == token_texts(s@),
                tokens_spec(all) == tokens_behind(tokens@, tokens_spec(all.skip(j as int))),
            decreases texts.len() - j,
        {
            proof {
                let rest = all.skip(j as int);
                assert(rest[0] == texts@[j as int]@);
                assert(rest.drop_first() =~= all.skip(j + 1));
            }
            match read_token(&texts[j]) {
                Some(t) => {
                    proof {
                        let tail = tokens_spec(all.skip(j + 1));
                        if tail is Ok {
                            assert(tokens@ + (seq![t] + tail->Ok_0) =~= tokens@.push(t) + tail->Ok_0);
                        }
                    }
                    tokens.push(t);
                },
                None => {
                    return Err(MathEquationErr::InvalidOperatorType(string_of(&texts[j])));
                },
            }
            j += 1;
        }
        proof {
            assert(all.skip(texts.len() as int) =~= Seq::<Seq<char>>::empty());
            assert(tokens@ + Seq::<MathToken>::empty() =~= tokens@);
        }
        Ok(Expression { tokens })
    }
}

/// A word of a text takes no more bytes than the text.
proof fn lemma_word_bytes(s: Seq<char>, i: int)
    requires
        0 <= i < words(s).len(),
    ensures
        utf8_len(words(s)[i]) <= utf8_len(s),
{
    lemma_words_are_ranges(s, 0, i);
}

/// Every word from `s[from]` on is a range of `s`.
proof fn lemma_words_are_ranges(s: Seq<char>, from: int, i: int)
    requires
        0 <= from <= s.len(),
        0 <= i < crate::text::words_from(s, from).len(),
    ensures
        utf8_len(crate::text::words_from(s, from)[i]) <= utf8_len(s),
    decreases s.len() - from,
{
    crate::text::lemma_find_space(s, false, from);
    let a = crate::text::find_space(s, false, from);
    if a < s.len() {
        crate::text::lemma_find_space(s, true, a);
        let b = crate::text::find_space(s, true, a);
        if i == 0 {
            lemma_range_bytes(s, a, b);
        } else {
            lemma_words_are_ranges(s, b, i - 1);
            assert(crate::text::words_from(s, from)[i] == crate::text::words_from(s, b)[i - 1]);
        }
    }
}

/// A range of a text takes no more bytes than the text.
pub proof fn lemma_range_bytes(s: Seq<char>, a: int, b: int)
    requires
        0 <= a <= b <= s.len(),
    ensures
        utf8_len(s.subrange(a, b)) <= utf8_len(s),
{
    crate::text::lemma_utf8_concat(s.take(a), s.skip(a));
    assert(s.take(a) + s.skip(a) =~= s);
    crate::text::lemma_utf8_concat(s.subrange(a, b), s.skip(b));
    assert(s.subrange(a, b) + s.skip(b) =~= s.skip(a));
}

impl FromStr for Expression {
    type Err = MathEquationErr;

    fn from_str(s: &str) -> (r: Result<Self, Self::Err>)
        ensures
            r is Ok ==> expression_spec(s@) == Ok::<Seq<MathToken>, Seq<char>>(r->Ok_0.tokens@),
            r is Err ==> (r->Err_0 matches MathEquationErr::InvalidOperatorType(t)
                && expression_spec(s@) == Err::<Seq<MathToken>, Seq<char>>(t@)),
    {
        Expression::from_str(s)
    }
}

} // verus!
