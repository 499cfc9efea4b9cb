//! Text primitives shared by the tools: moving between strings and character
//! vectors, Unicode white space, and decimal numerals.

use vstd::prelude::*;

verus! {

/// Appends one character to a string.
///
/// Trusted: `String::push` of the standard library, which appends the given
/// character to the end of the string and changes nothing else.
#[verifier::external_body]
pub(crate) fn push_char(s: &mut String, c: char)
    ensures
        final(s)@ == old(s)@.push(c),
{
    s.push(c);
}

/// The characters of a string, in order.
pub fn chars_of(s: &str) -> (v: Vec<char>)
    ensures
        v@ == s@,
{
    let mut v: Vec<char> = Vec::new();
    for c in it: s.chars()
        invariant
            it.seq() == s@,
            v@ == s@.take(it.index() as int),
    {
        v.push(c);
    }
    v
}

/// The string made of the characters `v[from..to]`.
pub fn string_of_range(v: &Vec<char>, from: usize, to: usize) -> (s: String)
    requires
        from <= to <= v.len(),
    ensures
        s@ == v@.subrange(from as int, to as int),
{
    let mut s = String::new();
    let mut i: usize = from;
    while i < to
        invariant
            from <= i <= to <= v.len(),
            s@ == v@.subrange(from as int, i as int),
        decreases to - i,
    {
        push_char(&mut s, v[i]);
        i += 1;
    }
    s
}

/// The string made of the characters of `v`.
pub fn string_of(v: &Vec<char>) -> (s: String)
    ensures
        s@ == v@,
{
    let s = string_of_range(v, 0, v.len());
    assert(v@.subrange(0, v.len() as int) == v@);
    s
}

/// Appends the characters of `tail` to `v`.
pub fn extend_chars(v: &mut Vec<char>, tail: &Vec<char>)
    ensures
        final(v)@ == old(v)@ + tail@,
{
    let mut i: usize = 0;
    while i < tail.len()
        invariant
            i <= tail.len(),
            v@ == old(v)@ + tail@.take(i as int),
        decreases tail.len() - i,
    {
        v.push(tail[i]);
        i += 1;
    }
    assert(tail@.take(tail.len() as int) == tail@);
}

/// Distinct characters have distinct code points.
pub proof fn lemma_code_point_injective(a: char, b: char)
    requires
        a as u32 == b as u32,
    ensures
        a == b,
{
    assert((a as u32) as char == a);
    assert((b as u32) as char == b);
}

/// Unicode's `White_Space` property, the one `char::is_whitespace` tests.
pub open spec fn is_whitespace(c: char) -> bool {
    let u = c as u32;
    ||| 0x09 <= u <= 0x0d
    ||| u == 0x20
    ||| u == 0x85
    ||| u == 0xa0
    ||| u == 0x1680
    ||| 0x2000 <= u <= 0x200a
    ||| u == 0x2028
    ||| u == 0x2029
    ||| u == 0x202f
    ||| u == 0x205f
    ||| u == 0x3000
}

/// Whether `c` is white space.
pub fn char_is_whitespace(c: char) -> (b: bool)
    ensures
        b == is_whitespace(c),
{
    let u: u32 = c as u32;
    (0x09 <= u && u <= 0x0d) || u == 0x20 || u == 0x85 || u == 0xa0 || u == 0x1680 || (0x2000 <= u
        && u <= 0x200a) || u == 0x2028 || u == 0x2029 || u == 0x202f || u == 0x205f || u == 0x3000
}

/// Whether every character of `s` is white space (true of the empty sequence).
pub open spec fn is_blank(s: Seq<char>) -> bool {
    forall|i: int| 0 <= i < s.len() ==> is_whitespace(#[trigger] s[i])
}

/// ASCII decimal digits.
pub open spec fn is_digit(c: char) -> bool {
    '0' as u32 <= c as u32 <= '9' as u32
}

/// Whether `c` is an ASCII decimal digit.
pub fn char_is_digit(c: char) -> (b: bool)
    ensures
        b == is_digit(c),
{
    let u: u32 = c as u32;
    48 <= u && u <= 57
}

/// The value of a decimal digit.
pub open spec fn digit_value(c: char) -> nat {
    (c as u32 - '0' as u32) as nat
}

/// The digit that stands for `d`, for `d < 10`.
pub open spec fn digit_char(d: nat) -> char {
    if d == 0 {
        '0'
    } else if d == 1 {
        '1'
    } else if d == 2 {
        '2'
    } else if d == 3 {
        '3'
    } else if d == 4 {
        '4'
    } else if d == 5 {
        '5'
    } else if d == 6 {
        '6'
    } else if d == 7 {
        '7'
    } else if d == 8 {
        '8'
    } else {
        '9'
    }
}

/// Decimal digits only.
pub open spec fn all_digits(s: Seq<char>) -> bool {
    forall|i: int| 0 <= i < s.len() ==> is_digit(#[trigger] s[i])
}

/// The number a sequence of digits denotes, most significant digit first.
pub open spec fn decimal_value(s: Seq<char>) -> nat
    decreases s.len(),
{
    if s.len() == 0 {
        0
    } else {
        decimal_value(s.drop_last()) * 10 + digit_value(s.last())
    }
}

/// The shortest decimal numeral for `n`.
pub open spec fn decimal_digits(n: nat) -> Seq<char>
    decreases n,
{
    if n < 10 {
        seq![digit_char(n)]
    } else {
        decimal_digits(n / 10).push(digit_char(n % 10))
    }
}

/// A numeral: at least one digit, and digits only.
pub open spec fn is_numeral(s: Seq<char>) -> bool {
    s.len() > 0 && all_digits(s)
}

/// The digit for `d` is a digit, of value `d`.
pub proof fn lemma_digit_char(d: nat)
    requires
        d < 10,
    ensures
        is_digit(digit_char(d)),
        digit_value(digit_char(d)) == d,
{
}

/// Reading the numeral that was written for `n` gives `n` back.
pub proof fn lemma_decimal_round_trip(n: nat)
    ensures
        is_numeral(decimal_digits(n)),
        decimal_value(decimal_digits(n)) == n,
    decreases n,
{
    if n < 10 {
        lemma_digit_char(n);
        let s = decimal_digits(n);
        assert(s.drop_last().len() == 0);
        assert(decimal_value(s.drop_last()) == 0);
    } else {
        lemma_decimal_round_trip(n / 10);
        lemma_digit_char(n % 10);
        let head = decimal_digits(n / 10);
        let s = head.push(digit_char(n % 10));
        assert(s.drop_last() == head);
        assert forall|i: int| 0 <= i < s.len() implies is_digit(#[trigger] s[i]) by {
            if i < head.len() {
                assert(s[i] == head[i]);
            }
        }
    }
}

/// A numeral's value never shrinks when digits are appended.
pub proof fn lemma_decimal_prefix_le(s: Seq<char>, k: int)
    requires
        0 <= k <= s.len(),
    ensures
        decimal_value(s.take(k)) <= decimal_value(s),
    decreases s.len() - k,
{
    if k == s.len() {
        assert(s.take(k) == s);
    } else {
        lemma_decimal_prefix_le(s, k + 1);
        let t = s.take(k + 1);
        assert(t.drop_last() == s.take(k));
        assert(decimal_value(t) == decimal_value(s.take(k)) * 10 + digit_value(t.last()));
    }
}

/// The decimal numeral for `n`.
pub fn decimal_of(n: usize) -> (v: Vec<char>)
    ensures
        v@ == decimal_digits(n as nat),
{
    let mut rev: Vec<char> = Vec::new();
    let mut rest: usize = n;
    while rest >= 10
        invariant
            decimal_digits(n as nat) == decimal_digits(rest as nat) + rev@.reverse(),
        decreases rest,
    {
        let d: u8 = (rest % 10) as u8;
        let c: char = digit_of(d);
        proof {
            let old_rev = rev@;
            let new_rev = old_rev.push(c);
            assert(new_rev.reverse() == seq![c] + old_rev.reverse());
            assert(decimal_digits(rest as nat) == decimal_digits((rest / 10) as nat).push(c));
            assert(decimal_digits((rest / 10) as nat).push(c) + old_rev.reverse()
                == decimal_digits((rest / 10) as nat) + (seq![c] + old_rev.reverse()));
        }
        rev.push(c);
        rest = rest / 10;
    }
    let mut v: Vec<char> = Vec::new();
    v.push(digit_of(rest as u8));
    let mut i: usize = rev.len();
    while i > 0
        invariant
            i <= rev.len(),
            v@ == decimal_digits(rest as nat) + rev@.reverse().take(rev.len() - i),
        decreases i,
    {
        i -= 1;
        proof {
            let r = rev@.reverse();
            let k = rev.len() - i - 1;
            assert(r.take(k + 1) == r.take(k).push(r[k]));
            assert(r[k] == rev@[i as int]);
        }
        v.push(rev[i]);
    }
    assert(rev@.reverse().take(rev.len() as int) == rev@.reverse());
    v
}

/// The digit for `d`.
pub fn digit_of(d: u8) -> (c: char)
    requires
        d < 10,
    ensures
        c == digit_char(d as nat),
{
    if d == 0 {
        '0'
    } else if d == 1 {
        '1'
    } else if d == 2 {
        '2'
    } else if d == 3 {
        '3'
    } else if d == 4 {
        '4'
    } else if d == 5 {
        '5'
    } else if d == 6 {
        '6'
    } else if d == 7 {
        '7'
    } else if d == 8 {
        '8'
    } else {
        '9'
    }
}

/// Reads `v[from..to]` as a decimal numeral.
///
/// `Some(n)` exactly when the range is a numeral whose value `n` fits in a
/// `usize`; `None` otherwise.
pub fn parse_decimal(v: &Vec<char>, from: usize, to: usize) -> (r: Option<usize>)
    requires
        from <= to <= v.len(),
    ensures
        r is Some <==> is_numeral(v@.subrange(from as int, to as int)) && decimal_value(
            v@.subrange(from as int, to as int),
        ) <= usize::MAX,
        r is Some ==> r->0 == decimal_value(v@.subrange(from as int, to as int)),
{
    let ghost s = v@.subrange(from as int, to as int);
    if from == to {
        return None;
    }
    let mut acc: usize = 0;
    let mut i: usize = from;
    while i < to
        invariant
            from <= i <= to <= v.len(),
            s == v@.subrange(from as int, to as int),
            all_digits(s.take(i - from)),
            acc == decimal_value(s.take(i - from)),
        decreases to - i,
    {
        let c: char = v[i];
        proof {
            let t = s.take(i - from + 1);
            assert(t.drop_last() == s.take(i - from));
            assert(t.last() == c);
            assert(s[i - from] == c);
        }
        if !char_is_digit(c) {
            return None;
        }
        let d: usize = (c as u32 - 48) as usize;
        proof {
            lemma_decimal_prefix_le(s, i - from + 1);
        }
        if acc > (usize::MAX - d) / 10 {
            return None;
        }
        acc = acc * 10 + d;
        i += 1;
        proof {
            let t = s.take(i - from);
            assert forall|j: int| 0 <= j < t.len() implies is_digit(#[trigger] t[j]) by {
                if j < t.len() - 1 {
                    assert(t[j] == s.take(i - from - 1)[j]);
                }
            }
        }
    }
    assert(s.take(to - from) == s);
    Some(acc)
}

/// How often `c` occurs in `text`.
pub open spec fn occurrences(text: Seq<char>, c: char) -> nat
    decreases text.len(),
{
    if text.len() == 0 {
        0
    } else {
        occurrences(text.drop_last(), c) + if text.last() == c {
            1nat
        } else {
            0nat
        }
    }
}

/// A symbol occurs in a text exactly when its number of occurrences is not
/// zero; no symbol occurs more often than the text is long.
pub proof fn lemma_occurrences(text: Seq<char>, c: char)
    ensures
        text.contains(c) <==> occurrences(text, c) > 0,
        occurrences(text, c) <= text.len(),
    decreases text.len(),
{
    if text.len() > 0 {
        let head = text.drop_last();
        lemma_occurrences(head, c);
        if text.contains(c) {
            let i = choose|i: int| 0 <= i < text.len() && text[i] == c;
            if i < head.len() {
                assert(head[i] == c);
            }
        }
        if head.contains(c) {
            let i = choose|i: int| 0 <= i < head.len() && head[i] == c;
            assert(text[i] == c);
        }
        if text.last() == c {
            assert(text[text.len() - 1] == c);
        }
    }
}

/// The views of a vector of character vectors.
pub open spec fn views(v: Seq<Vec<char>>) -> Seq<Seq<char>> {
    v.map_values(|p: Vec<char>| p@)
}

/// The copy of `v[from..to]`.
pub fn copy_range(v: &Vec<char>, from: usize, to: usize) -> (r: Vec<char>)
    requires
        from <= to <= v.len(),
    ensures
        r@ == v@.subrange(from as int, to as int),
{
    let mut r: Vec<char> = Vec::new();
    let mut i: usize = from;
    while i < to
        invariant
            from <= i <= to <= v.len(),
            r@ == v@.subrange(from as int, i as int),
        decreases to - i,
    {
        r.push(v[i]);
        i += 1;
    }
    r
}

/// The place of the first `sep` from `s[i]` on, or the length of `s` where
/// there is none.
pub open spec fn find_char(s: Seq<char>, sep: char, i: int) -> int
    decreases s.len() - i,
{
    if i < 0 || i >= s.len() || s[i] == sep {
        i
    } else {
        find_char(s, sep, i + 1)
    }
}

/// What `find_char` finds is the first `sep` from `s[i]` on.
pub proof fn lemma_find_char(s: Seq<char>, sep: char, i: int)
    requires
        0 <= i <= s.len(),
    ensures
        i <= find_char(s, sep, i) <= s.len(),
        find_char(s, sep, i) < s.len() ==> s[find_char(s, sep, i)] == sep,
        forall|k: int| i <= k < find_char(s, sep, i) ==> s[k] != sep,
    decreases s.len() - i,
{
    if i < s.len() && s[i] != sep {
        lemma_find_char(s, sep, i + 1);
    }
}

/// The pieces of `s` from `s[i]` on that `sep` separates: one more than
/// there are separators, each possibly empty.
pub open spec fn split_from(s: Seq<char>, sep: char, i: int) -> Seq<Seq<char>>
    decreases s.len() - i,
    via split_from_terminates
{
    let j = find_char(s, sep, i);
    if i < 0 || j >= s.len() {
        seq![s.subrange(i, s.len() as int)]
    } else {
        seq![s.subrange(i, j)] + split_from(s, sep, j + 1)
    }
}

#[via_fn]
proof fn split_from_terminates(s: Seq<char>, sep: char, i: int) {
    if 0 <= i <= s.len() {
        lemma_find_char(s, sep, i);
    }
}

/// The pieces of `s` that `sep` separates, as `str::split` gives them.
pub open spec fn split(s: Seq<char>, sep: char) -> Seq<Seq<char>> {
    split_from(s, sep, 0)
}

/// The place of the first `sep` from `v[i]` on.
pub fn find_from(v: &Vec<char>, sep: char, i: usize) -> (j: usize)
    requires
        i <= v.len(),
    ensures
        j == find_char(v@, sep, i as int),
        i <= j <= v.len(),
{
    let mut j: usize = i;
    while j < v.len() && v[j] != sep
        invariant
            i <= j <= v.len(),
            find_char(v@, sep, i as int) == find_char(v@, sep, j as int),
        decreases v.len() - j,
    {
        j += 1;
    }
    j
}

/// The pieces of `v` that `sep` separates.
pub fn split_chars(v: &Vec<char>, sep: char) -> (r: Vec<Vec<char>>)
    ensures
        views(r@) == split(v@, sep),
{
    let mut r: Vec<Vec<char>> = Vec::new();
    let mut i: usize = 0;
    assert(views(r@) =~= Seq::<Seq<char>>::empty());
    loop
        invariant
            i <= v.len(),
            split(v@, sep) == views(r@) + split_from(v@, sep, i as int),
        decreases v.len() - i,
    {
        let j = find_from(v, sep, i);
        let ghost before = r@;
        if j >= v.len() {
            r.push(copy_range(v, i, v.len()));
            proof {
                assert(views(r@) =~= views(before) + seq![v@.subrange(i as int, v.len() as int)]);
            }
            return r;
        }
        r.push(copy_range(v, i, j));
        proof {
            let piece = v@.subrange(i as int, j as int);
            assert(views(r@) =~= views(before) + seq![piece]);
            assert(views(before) + (seq![piece] + split_from(v@, sep, j + 1)) =~= (views(before)
                + seq![piece]) + split_from(v@, sep, j + 1));
        }
        i = j + 1;
    }
}

/// The place of the first character from `s[i]` on that is white space
/// (`blank` true) or is not (`blank` false), or the length of `s`.
pub open spec fn find_space(s: Seq<char>, blank: bool, i: int) -> int
    decreases s.len() - i,
{
    if i < 0 || i >= s.len() || is_whitespace(s[i]) == blank {
        i
    } else {
        find_space(s, blank, i + 1)
    }
}

/// What `find_space` finds is the first character of its kind from `s[i]` on.
pub proof fn lemma_find_space(s: Seq<char>, blank: bool, i: int)
    requires
        0 <= i <= s.len(),
    ensures
        i <= find_space(s, blank, i) <= s.len(),
        find_space(s, blank, i) < s.len() ==> is_whitespace(s[find_space(s, blank, i)]) == blank,
        forall|k: int| i <= k < find_space(s, blank, i) ==> is_whitespace(s[k]) != blank,
    decreases s.len() - i,
{
    if i < s.len() && is_whitespace(s[i]) != blank {
        lemma_find_space(s, blank, i + 1);
    }
}

/// The words of `s` from `s[i]` on: the longest runs of characters that
/// are not white space.
pub open spec fn words_from(s: Seq<char>, i: int) -> Seq<Seq<char>>
    decreases s.len() - i,
    via words_from_terminates
{
    let a = find_space(s, false, i);
    if i < 0 || a >= s.len() {
        Seq::empty()
    } else {
        let b = find_space(s, true, a);
        seq![s.subrange(a, b)] + words_from(s, b)
    }
}

#[via_fn]
proof fn words_from_terminates(s: Seq<char>, i: int) {
    if 0 <= i <= s.len() {
        lemma_find_space(s, false, i);
        let a = find_space(s, false, i);
        if a < s.len() {
            lemma_find_space(s, true, a);
            assert(find_space(s, true, a) > a);
        }
    }
}

/// The words of `s`, as `str::split_whitespace` gives them.
pub open spec fn words(s: Seq<char>) -> Seq<Seq<char>> {
    words_from(s, 0)
}

/// The place of the first character from `v[i]` on that is white space
/// (`blank` true) or is not (`blank` false).
pub fn find_space_from(v: &Vec<char>, blank: bool, i: usize) -> (j: usize)
    requires
        i <= v.len(),
    ensures
        j == find_space(v@, blank, i as int),
        i <= j <= v.len(),
{
    let mut j: usize = i;
    while j < v.len() && char_is_whitespace(v[j]) != blank
        invariant
            i <= j <= v.len(),
            find_space(v@, blank, i as int) == find_space(v@, blank, j as int),
        decreases v.len() - j,
    {
        j += 1;
    }
    j
}

/// The words of `v`.
pub fn split_words(v: &Vec<char>) -> (r: Vec<Vec<char>>)
    ensures
        views(r@) == words(v@),
{
    let mut r: Vec<Vec<char>> = Vec::new();
    let mut i: usize = 0;
    assert(views(r@) =~= Seq::<Seq<char>>::empty());
    loop
        invariant
            i <= v.len(),
            words(v@) == views(r@) + words_from(v@, i as int),
        decreases v.len() - i,
    {
        let a = find_space_from(v, false, i);
        if a >= v.len() {
            proof {
                assert(views(r@) + Seq::<Seq<char>>::empty() =~= views(r@));
            }
            return r;
        }
        let b = find_space_from(v, true, a);
        proof {
            lemma_find_space(v@, true, a as int);
        }
        let ghost before = r@;
        r.push(copy_range(v, a, b));
        proof {
            let piece = v@.subrange(a as int, b as int);
            assert(views(r@) =~= views(before) + seq![piece]);
            assert(views(before) + (seq![piece] + words_from(v@, b as int)) =~= (views(before)
                + seq![piece]) + words_from(v@, b as int));
        }
        i = b;
    }
}

/// The number of bytes of a text in UTF-8.
pub open spec fn utf8_len(s: Seq<char>) -> nat {
    vstd::utf8::encode_utf8(s).len()
}

/// The bytes of two texts in UTF-8, one behind the other, are the bytes of
/// the texts one behind the other.
pub proof fn lemma_utf8_concat(a: Seq<char>, b: Seq<char>)
    ensures
        vstd::utf8::encode_utf8(a + b) == vstd::utf8::encode_utf8(a) + vstd::utf8::encode_utf8(b),
    decreases a.len(),
{
    if a.len() == 0 {
        assert(a + b =~= b);
        assert(vstd::utf8::encode_utf8(a) + vstd::utf8::encode_utf8(b) =~= vstd::utf8::encode_utf8(
            b,
        ));
    } else {
        lemma_utf8_concat(a.drop_first(), b);
        assert((a + b).drop_first() =~= a.drop_first() + b);
        assert((a + b)[0] == a[0]);
        let head = vstd::utf8::encode_scalar(a[0] as u32);
        assert(head + (vstd::utf8::encode_utf8(a.drop_first()) + vstd::utf8::encode_utf8(b)) =~= (
        head + vstd::utf8::encode_utf8(a.drop_first())) + vstd::utf8::encode_utf8(b));
    }
}

/// The number of bytes that a character takes in UTF-8.
pub open spec fn utf8_width(c: char) -> nat {
    vstd::utf8::encode_scalar(c as u32).len()
}

/// A text with one more character takes the bytes of that character more.
pub proof fn lemma_utf8_len_push(s: Seq<char>, c: char)
    ensures
        utf8_len(s.push(c)) == utf8_len(s) + utf8_width(c),
{
    lemma_utf8_concat(s, seq![c]);
    assert(s + seq![c] =~= s.push(c));
    assert(seq![c].drop_first() =~= Seq::<char>::empty());
    assert(vstd::utf8::encode_utf8(seq![c].drop_first()) =~= Seq::<u8>::empty());
    assert(vstd::utf8::encode_utf8(seq![c]) =~= vstd::utf8::encode_scalar(c as u32));
}

/// The number of bytes that `c` takes in UTF-8.
pub fn width_of(c: char) -> (n: usize)
    ensures
        n == utf8_width(c),
        1 <= n <= 4,
{
    let u: u32 = c as u32;
    if u <= 0x7f {
        1
    } else if u <= 0x7ff {
        2
    } else if u <= 0xffff {
        proof {
            vstd::utf8::char_is_scalar(c);
        }
        3
    } else {
        4
    }
}

/// The beginning of a text takes no more bytes than the text.
pub proof fn lemma_prefix_len(s: Seq<char>, k: int)
    requires
        0 <= k <= s.len(),
    ensures
        utf8_len(s.take(k)) <= utf8_len(s),
{
    lemma_utf8_concat(s.take(k), s.skip(k));
    assert(s.take(k) + s.skip(k) =~= s);
}

} // verus!
