//! The header of an encoded file: the frequency table and the padding as
//! text, behind a length of 32 binary digits.
//!
//! The header text is `{'a': 3, 'b': 2}::7` and a line feed: between braces
//! the symbols by ascending code point, each between single quotes and
//! followed by a colon, a space and its count in decimal; the entries are
//! separated by a comma and a space. Behind the braces stand two colons, the
//! padding as one digit, and a line feed. Carriage return, tab, line feed,
//! backslash, single quote, double quote and the null character are written
//! as a backslash and one of `r`, `t`, `n`, `\`, `'`, `"`, `0`; every other
//! symbol is written as it is.

use crate::huffman::decoder::DecodeError;
use crate::huffman::table::{distinct_symbols, pairs_total, FrequencyTable};
use crate::text::{
    decimal_digits, decimal_of, decimal_value, digit_char, digit_of, digit_value, extend_chars,
    is_digit, is_numeral, lemma_utf8_concat, string_of, utf8_len,
};
use vstd::prelude::*;
use vstd::string::{StringExecFns, StringSliceAdditionalSpecFns};

verus! {

/// The character behind the backslash for a symbol that is escaped.
pub open spec fn escape_of(c: char) -> Option<char> {
    if c == '\r' {
        Some('r')
    } else if c == '\t' {
        Some('t')
    } else if c == '\n' {
        Some('n')
    } else if c == '\\' {
        Some('\\')
    } else if c == '\'' {
        Some('\'')
    } else if c == '"' {
        Some('"')
    } else if c == '\0' {
        Some('0')
    } else {
        None
    }
}

/// The symbol that a backslash and `x` stand for.
pub open spec fn unescape(x: char) -> Option<char> {
    if x == 'r' {
        Some('\r')
    } else if x == 't' {
        Some('\t')
    } else if x == 'n' {
        Some('\n')
    } else if x == '\\' {
        Some('\\')
    } else if x == '\'' {
        Some('\'')
    } else if x == '"' {
        Some('"')
    } else if x == '0' {
        Some('\0')
    } else {
        None
    }
}

/// A symbol as it stands between the quotes.
pub open spec fn symbol_text(c: char) -> Seq<char> {
    match escape_of(c) {
        Some(x) => seq!['\\', x],
        None => seq![c],
    }
}

/// One entry: the quoted symbol, a colon, a space and the count.
pub open spec fn entry_text(c: char, n: usize) -> Seq<char> {
    seq!['\''] + symbol_text(c) + seq!['\'', ':', ' '] + decimal_digits(n as nat)
}

/// The entries, separated by a comma and a space.
pub open spec fn entries_text(symbols: Seq<char>, counts: Seq<usize>) -> Seq<char>
    decreases symbols.len(),
{
    if symbols.len() == 0 {
        Seq::empty()
    } else if symbols.len() == 1 {
        entry_text(symbols[0], counts[0])
    } else {
        entry_text(symbols[0], counts[0]) + seq![',', ' '] + entries_text(
            symbols.drop_first(),
            counts.drop_first(),
        )
    }
}

/// The header text of a table, given by its symbols in ascending order and
/// their counts, and a padding.
pub open spec fn header_text(symbols: Seq<char>, counts: Seq<usize>, padding: u8) -> Seq<char> {
    seq!['{'] + entries_text(symbols, counts) + seq![
        '}',
        ':',
        ':',
        digit_char(padding as nat),
        '\n',
    ]
}

/// `n` in binary with `width` digits, most significant digit first; the
/// digits of `n` modulo two to the power of `width`.
pub open spec fn binary_digits(n: nat, width: nat) -> Seq<char>
    decreases width,
{
    if width == 0 {
        Seq::empty()
    } else {
        binary_digits(n / 2, (width - 1) as nat).push(
            if n % 2 == 1 {
                '1'
            } else {
                '0'
            },
        )
    }
}

/// The number that a sequence of the digits `0` and `1` denotes.
pub open spec fn binary_value(s: Seq<char>) -> nat
    decreases s.len(),
{
    if s.len() == 0 {
        0
    } else {
        2 * binary_value(s.drop_last()) + if s.last() == '1' {
            1nat
        } else {
            0nat
        }
    }
}

/// The digits `0` and `1` only.
pub open spec fn all_binary(s: Seq<char>) -> bool {
    forall|i: int| 0 <= i < s.len() ==> (#[trigger] s[i] == '0' || s[i] == '1')
}

/// Two to the power of 32.
pub open spec fn prefix_limit() -> nat {
    0x1_0000_0000
}

/// Reading the binary digits that were written for `n` gives `n` back,
/// where `n` can be written with that many digits.
pub proof fn lemma_binary_round_trip(n: nat, width: nat)
    requires
        n < vstd::arithmetic::power2::pow2(width),
    ensures
        binary_digits(n, width).len() == width,
        all_binary(binary_digits(n, width)),
        binary_value(binary_digits(n, width)) == n,
    decreases width,
{
    if width == 0 {
        vstd::arithmetic::power2::lemma2_to64();
    } else {
        vstd::arithmetic::power2::lemma_pow2_unfold(width);
        lemma_binary_round_trip(n / 2, (width - 1) as nat);
        let head = binary_digits(n / 2, (width - 1) as nat);
        let s = binary_digits(n, width);
        assert(s.drop_last() =~= head);
        assert forall|i: int| 0 <= i < s.len() implies (#[trigger] s[i] == '0' || s[i] == '1') by {
            if i < head.len() {
                assert(s[i] == head[i]);
            }
        }
    }
}

/// The quoted symbol that begins at `s[i]`: the symbol and the place behind
/// the closing quote.
///
/// Between the quotes stands a backslash and one of the characters that
/// `unescape` knows, or one character that is neither a backslash nor a
/// single quote.
pub open spec fn symbol_at(s: Seq<char>, i: int) -> Option<(char, int)> {
    if 0 <= i && i + 2 < s.len() && s[i] == '\'' {
        if s[i + 1] == '\\' {
            if i + 3 < s.len() && unescape(s[i + 2]) is Some && s[i + 3] == '\'' {
                Some((unescape(s[i + 2])->0, i + 4))
            } else {
                None
            }
        } else if s[i + 1] != '\'' && s[i + 2] == '\'' {
            Some((s[i + 1], i + 3))
        } else {
            None
        }
    } else {
        None
    }
}

/// The characters that end a count: a comma and a closing brace.
pub open spec fn ends_count(c: char) -> bool {
    c == ',' || c == '}'
}

/// The place of the first character from `s[i]` on that ends a count, or
/// the length of `s` where there is none.
pub open spec fn count_end(s: Seq<char>, i: int) -> int
    decreases s.len() - i,
{
    if i < 0 || i >= s.len() || ends_count(s[i]) {
        i
    } else {
        count_end(s, i + 1)
    }
}

/// The end of a count lies at or behind its beginning, and no character
/// before it ends a count.
pub proof fn lemma_count_end(s: Seq<char>, i: int)
    requires
        0 <= i,
    ensures
        i <= count_end(s, i),
        i <= s.len() ==> count_end(s, i) <= s.len(),
        count_end(s, i) < s.len() ==> ends_count(s[count_end(s, i)]),
        forall|k: int| i <= k < count_end(s, i) && k < s.len() ==> !ends_count(#[trigger] s[k]),
    decreases s.len() - i,
{
    if i >= s.len() || ends_count(s[i]) {
    } else {
        lemma_count_end(s, i + 1);
    }
}

/// The number that the characters of a count denote, where they are a
/// decimal numeral that fits in a `usize`.
pub open spec fn count_of_text(digits: Seq<char>) -> Option<usize> {
    if is_numeral(digits) && decimal_value(digits) <= usize::MAX {
        Some(decimal_value(digits) as usize)
    } else {
        None
    }
}

/// The entries that begin at `s[i]`, up to the closing brace, and the place
/// behind that brace; nothing where the text does not have the form that
/// `entries_text` writes.
///
/// An entry is a quoted symbol, a colon, a space, and the characters of
/// the count, which are all those up to the next comma or closing brace.
/// Whether these characters are a number does not matter to the form: the
/// count of an entry is `None` where they are none.
pub open spec fn entries_from(s: Seq<char>, i: int) -> Option<(Seq<(char, Option<usize>)>, int)>
    decreases s.len() - i,
    via entries_from_terminates
{
    match symbol_at(s, i) {
        None => None,
        Some((c, k)) => if !(k + 1 < s.len() && s[k] == ':' && s[k + 1] == ' ') {
            None
        } else {
            let j = count_end(s, k + 2);
            let entry = (c, count_of_text(s.subrange(k + 2, j)));
            if j >= s.len() {
                None
            } else if s[j] == '}' {
                Some((seq![entry], j + 1))
            } else if !(j + 1 < s.len() && s[j + 1] == ' ') {
                None
            } else {
                match entries_from(s, j + 2) {
                    Some((rest, end)) => Some((seq![entry] + rest, end)),
                    None => None,
                }
            }
        },
    }
}

#[via_fn]
proof fn entries_from_terminates(s: Seq<char>, i: int) {
    match symbol_at(s, i) {
        None => {},
        Some((c, k)) => {
            if k + 1 < s.len() {
                lemma_count_end(s, k + 2);
            }
        },
    }
}

/// The list between braces that begins at `s[i]`, and the place behind the
/// closing brace; nothing where there is no such list.
pub open spec fn table_from(s: Seq<char>, i: int) -> Option<(Seq<(char, Option<usize>)>, int)> {
    if !(0 <= i < s.len() && s[i] == '{') {
        None
    } else if i + 1 < s.len() && s[i + 1] == '}' {
        Some((Seq::empty(), i + 2))
    } else {
        entries_from(s, i + 1)
    }
}

/// Whether every entry has a count.
pub open spec fn all_counted(entries: Seq<(char, Option<usize>)>) -> bool {
    forall|i: int| 0 <= i < entries.len() ==> (#[trigger] entries[i]).1 is Some
}

/// The entries with their counts.
pub open spec fn counted(entries: Seq<(char, Option<usize>)>) -> Seq<(char, usize)> {
    Seq::new(entries.len(), |i: int| (entries[i].0, entries[i].1.unwrap()))
}

/// The pairs of a table that the entries of a well-formed list are.
///
/// `InvalidHeaderValue` where an entry has no count. Otherwise
/// `InvalidHeader` where a symbol stands in two entries or the counts add
/// up to more than `usize::MAX`.
pub open spec fn pairs_spec(entries: Seq<(char, Option<usize>)>) -> Result<
    Seq<(char, usize)>,
    DecodeError,
> {
    if !all_counted(entries) {
        Err(DecodeError::InvalidHeaderValue)
    } else if !(distinct_symbols(counted(entries)) && pairs_total(counted(entries))
        <= usize::MAX) {
        Err(DecodeError::InvalidHeader)
    } else {
        Ok(counted(entries))
    }
}

/// Whether `s` has the form of a header text: a list of entries between
/// braces, two colons, one digit and a line feed, and nothing else.
pub open spec fn header_form(s: Seq<char>) -> bool {
    table_from(s, 0) matches Some(found) && s.len() == found.1 + 4 && s[found.1] == ':' && s[found.1
        + 1] == ':' && is_digit(s[found.1 + 2]) && s[found.1 + 3] == '\n'
}

/// What a header text holds: the entries of the table and the padding.
///
/// A text that has not the form of a header text is an `InvalidHeader`,
/// whatever its counts are. In a text of that form a count that is not a
/// decimal numeral that fits in a `usize` is an `InvalidHeaderValue`; with
/// all counts in order, the text is an `InvalidHeader` again where a symbol
/// stands in two entries or the counts add up to more than `usize::MAX`.
pub open spec fn content_spec(s: Seq<char>) -> Result<(Seq<(char, usize)>, u8), DecodeError> {
    if !header_form(s) {
        Err(DecodeError::InvalidHeader)
    } else {
        let found = table_from(s, 0).unwrap();
        match pairs_spec(found.0) {
            Err(e) => Err(e),
            Ok(pairs) => Ok((pairs, digit_value(s[found.1 + 2]) as u8)),
        }
    }
}

/// What the first line of a file holds: behind 32 binary digits, which give
/// the number of bytes of the rest of the line, the header text.
pub open spec fn header_line_spec(line: Seq<char>) -> Result<
    (Seq<(char, usize)>, u8),
    DecodeError,
> {
    if line.len() < 32 || !all_binary(line.take(32)) || utf8_len(line) != 32 + binary_value(
        line.take(32),
    ) {
        Err(DecodeError::InvalidHeader)
    } else {
        content_spec(line.skip(32))
    }
}

/// The entries of a table as pairs.
pub open spec fn pairs_of(symbols: Seq<char>, counts: Seq<usize>) -> Seq<(char, usize)> {
    Seq::new(symbols.len(), |i: int| (symbols[i], counts[i]))
}

/// The entries of a table as the entries of a list, each with its count.
pub open spec fn entries_of(symbols: Seq<char>, counts: Seq<usize>) -> Seq<(char, Option<usize>)> {
    Seq::new(symbols.len(), |i: int| (symbols[i], Some(counts[i])))
}

/// Whether the text `t` stands in `s` from `s[i]` on.
pub open spec fn has_at(s: Seq<char>, i: int, t: Seq<char>) -> bool {
    &&& 0 <= i
    &&& i + t.len() <= s.len()
    &&& forall|k: int| 0 <= k < t.len() ==> s[i + k] == #[trigger] t[k]
}

/// Where two texts stand one behind the other, each of them stands.
pub proof fn lemma_has_at_parts(s: Seq<char>, i: int, a: Seq<char>, b: Seq<char>)
    requires
        has_at(s, i, a + b),
    ensures
        has_at(s, i, a),
        has_at(s, i + a.len(), b),
{
    let t = a + b;
    assert forall|k: int| 0 <= k < a.len() implies s[i + k] == #[trigger] a[k] by {
        assert(t[k] == a[k]);
    }
    assert forall|k: int| 0 <= k < b.len() implies s[i + a.len() + k] == #[trigger] b[k] by {
        assert(t[a.len() + k] == b[k]);
    }
}

/// No digit ends a count.
pub proof fn lemma_count_end_behind_digits(s: Seq<char>, i: int, digits: Seq<char>)
    requires
        has_at(s, i, digits),
        crate::text::all_digits(digits),
        i + digits.len() < s.len(),
        ends_count(s[i + digits.len()]),
    ensures
        count_end(s, i) == i + digits.len(),
        s.subrange(i, i + digits.len()) == digits,
    decreases digits.len(),
{
    if digits.len() == 0 {
    } else {
        assert(s[i + 0] == digits[0]);
        assert(is_digit(digits[0]));
        let rest = digits.drop_first();
        assert forall|k: int| 0 <= k < rest.len() implies s[i + 1 + k] == #[trigger] rest[k] by {
            assert(digits[k + 1] == rest[k]);
        }
        assert(crate::text::all_digits(rest)) by {
            assert forall|k: int| 0 <= k < rest.len() implies is_digit(#[trigger] rest[k]) by {
                assert(digits[k + 1] == rest[k]);
            }
        }
        lemma_count_end_behind_digits(s, i + 1, rest);
    }
    assert(s.subrange(i, i + digits.len()) =~= digits);
}

/// Reading the symbol that was written for `c` gives `c` back.
pub proof fn lemma_symbol_round_trip(s: Seq<char>, i: int, c: char)
    requires
        has_at(s, i, seq!['\''] + symbol_text(c) + seq!['\'']),
    ensures
        symbol_at(s, i) == Some((c, i + 2 + symbol_text(c).len())),
{
    let t = seq!['\''] + symbol_text(c) + seq!['\''];
    assert(s[i + 0] == t[0]);
    assert(s[i + 1] == t[1]);
    assert(s[i + 2] == t[2]);
    if escape_of(c) is Some {
        assert(t.len() == 4);
        assert(s[i + 3] == t[3]);
    }
}

/// Reading the entry that was written for `c` and `n` gives both back.
pub proof fn lemma_entry_round_trip(s: Seq<char>, i: int, c: char, n: usize)
    requires
        has_at(s, i, entry_text(c, n)),
        i + entry_text(c, n).len() < s.len(),
        ends_count(s[i + entry_text(c, n).len()]),
    ensures
        ({
            let k = i + 2 + symbol_text(c).len();
            let j = i + entry_text(c, n).len();
            &&& symbol_at(s, i) == Some((c, k))
            &&& k + 1 < s.len()
            &&& s[k] == ':'
            &&& s[k + 1] == ' '
            &&& count_end(s, k + 2) == j
            &&& s.subrange(k + 2, j) == decimal_digits(n as nat)
            &&& is_numeral(decimal_digits(n as nat))
            &&& decimal_value(decimal_digits(n as nat)) == n
        }),
{
    let st = symbol_text(c);
    let digits = decimal_digits(n as nat);
    let quoted = seq!['\''] + st + seq!['\''];
    let middle = seq![':', ' '];
    let e = entry_text(c, n);
    assert(e =~= quoted + (middle + digits));
    lemma_has_at_parts(s, i, quoted, middle + digits);
    lemma_symbol_round_trip(s, i, c);
    let k = i + quoted.len();
    lemma_has_at_parts(s, k, middle, digits);
    assert(s[k + 0] == middle[0]);
    assert(s[k + 1] == middle[1]);
    crate::text::lemma_decimal_round_trip(n as nat);
    lemma_count_end_behind_digits(s, k + 2, digits);
}

/// Reading the entries that were written for a table gives them back.
pub proof fn lemma_entries_round_trip(s: Seq<char>, i: int, symbols: Seq<char>, counts: Seq<usize>)
    requires
        symbols.len() >= 1,
        symbols.len() == counts.len(),
        has_at(s, i, entries_text(symbols, counts) + seq!['}']),
    ensures
        entries_from(s, i) == Some(
            (entries_of(symbols, counts), i + entries_text(symbols, counts).len() + 1),
        ),
    decreases symbols.len(),
{
    let c = symbols[0];
    let n = counts[0];
    let e = entry_text(c, n);
    let all = entries_text(symbols, counts);
    let t = all + seq!['}'];
    if symbols.len() == 1 {
        lemma_has_at_parts(s, i, e, seq!['}']);
        assert(s[i + e.len() + 0] == seq!['}'][0]);
        lemma_entry_round_trip(s, i, c, n);
        assert(entries_of(symbols, counts) =~= seq![(c, Some(n))]);
    } else {
        let rest_symbols = symbols.drop_first();
        let rest_counts = counts.drop_first();
        let rest = entries_text(rest_symbols, rest_counts);
        let sep = seq![',', ' '];
        assert(t =~= e + (sep + (rest + seq!['}'])));
        lemma_has_at_parts(s, i, e, sep + (rest + seq!['}']));
        lemma_has_at_parts(s, i + e.len(), sep, rest + seq!['}']);
        assert(s[i + e.len() + 0] == sep[0]);
        assert(s[i + e.len() + 1] == sep[1]);
        lemma_entry_round_trip(s, i, c, n);
        lemma_entries_round_trip(s, i + e.len() + 2, rest_symbols, rest_counts);
        assert(seq![(c, Some(n))] + entries_of(rest_symbols, rest_counts) =~= entries_of(
            symbols,
            counts,
        ));
        assert(all.len() == e.len() + 2 + rest.len());
    }
}

/// The entries of a table stand for the table's map, no symbol stands in
/// two of them, and their counts add up to the sum of the counts.
pub proof fn lemma_pairs_of(symbols: Seq<char>, counts: Seq<usize>)
    requires
        symbols.len() == counts.len(),
        crate::huffman::symbol_map::ascending(symbols),
    ensures
        crate::huffman::table::pairs_map(pairs_of(symbols, counts))
            == crate::huffman::tree::entries_map(symbols, counts),
        distinct_symbols(pairs_of(symbols, counts)),
        pairs_total(pairs_of(symbols, counts)) == crate::huffman::table::sum_counts(counts),
    decreases symbols.len(),
{
    let pairs = pairs_of(symbols, counts);
    assert forall|i: int, j: int| 0 <= i < j < pairs.len() implies pairs[i].0 != pairs[j].0 by {
        assert((symbols[i] as u32) < (symbols[j] as u32));
    }
    if symbols.len() > 0 {
        lemma_pairs_of(symbols.drop_last(), counts.drop_last());
        assert(pairs.drop_last() =~= pairs_of(symbols.drop_last(), counts.drop_last()));
    }
}

/// Ten to the power of `k`.
pub open spec fn pow10(k: nat) -> nat
    decreases k,
{
    if k == 0 {
        1
    } else {
        10 * pow10((k - 1) as nat)
    }
}

/// A number below ten to the power of `k` has `k` digits at most.
pub proof fn lemma_digits_len(n: nat, k: nat)
    requires
        k >= 1,
        n < pow10(k),
    ensures
        1 <= decimal_digits(n).len() <= k,
    decreases k,
{
    assert(pow10(1) == 10) by {
        assert(pow10(0) == 1);
    }
    if n >= 10 {
        assert(k >= 2);
        lemma_digits_len(n / 10, (k - 1) as nat);
    }
}

/// The count of a table has twenty digits at most.
pub proof fn lemma_count_digits(n: usize)
    ensures
        1 <= decimal_digits(n as nat).len() <= 20,
        utf8_len(decimal_digits(n as nat)) == decimal_digits(n as nat).len(),
{
    assert(pow10(20) == 100_000_000_000_000_000_000) by {
        reveal_with_fuel(pow10, 21);
    }
    lemma_digits_len(n as nat, 20);
    crate::text::lemma_decimal_round_trip(n as nat);
    lemma_ascii_len(decimal_digits(n as nat));
}

/// A character below code point 128 is an ASCII character.
proof fn lemma_ascii_char(c: char)
    requires
        (c as u32) < 128,
    ensures
        '\0' <= c <= '\u{7f}',
{
}

/// A text of ASCII characters takes one byte for each of them.
pub proof fn lemma_ascii_len(s: Seq<char>)
    requires
        forall|i: int| 0 <= i < s.len() ==> (#[trigger] s[i] as u32) < 128,
    ensures
        utf8_len(s) == s.len(),
{
    assert(vstd::utf8::is_ascii_chars(s)) by {
        assert forall|i: int| 0 <= i < s.len() implies '\0' <= #[trigger] s[i] <= '\u{7f}' by {
            assert((s[i] as u32) < 128);
            lemma_ascii_char(s[i]);
        }
    }
    vstd::utf8::is_ascii_chars_encode_utf8(s);
}

/// An ascending sequence of symbols is no longer than there are code
/// points.
pub proof fn lemma_ascending_len(s: Seq<char>)
    requires
        crate::huffman::symbol_map::ascending(s),
    ensures
        s.len() <= 0x11_0000,
{
    if s.len() > 0 {
        lemma_ascending_floor(s, s.len() - 1);
        vstd::utf8::char_is_scalar(s[s.len() - 1]);
    }
}

proof fn lemma_ascending_floor(s: Seq<char>, i: int)
    requires
        crate::huffman::symbol_map::ascending(s),
        0 <= i < s.len(),
    ensures
        s[i] as u32 >= i,
    decreases i,
{
    if i > 0 {
        lemma_ascending_floor(s, i - 1);
        assert((s[i - 1] as u32) < (s[i] as u32));
    }
}

/// An entry takes 28 bytes at most.
pub proof fn lemma_entry_len(c: char, n: usize)
    ensures
        utf8_len(entry_text(c, n)) <= 28,
{
    let st = symbol_text(c);
    let digits = decimal_digits(n as nat);
    lemma_count_digits(n);
    let open = seq!['\''];
    let close = seq!['\'', ':', ' '];
    lemma_ascii_len(open);
    lemma_ascii_len(close);
    assert(utf8_len(st) <= 4) by {
        if escape_of(c) is Some {
            lemma_ascii_len(st);
        } else {
            crate::text::lemma_utf8_len_push(Seq::<char>::empty(), c);
            assert(Seq::<char>::empty().push(c) =~= st);
            assert(utf8_len(Seq::<char>::empty()) == 0);
            vstd::utf8::char_is_scalar(c);
        }
    }
    lemma_utf8_concat(open, st);
    lemma_utf8_concat(open + st, close);
    lemma_utf8_concat(open + st + close, digits);
}

/// The entries of a table take thirty bytes each at most.
pub proof fn lemma_entries_len(symbols: Seq<char>, counts: Seq<usize>)
    requires
        symbols.len() == counts.len(),
    ensures
        utf8_len(entries_text(symbols, counts)) <= 30 * symbols.len(),
    decreases symbols.len(),
{
    if symbols.len() == 0 {
        assert(utf8_len(Seq::<char>::empty()) == 0);
    } else {
        let e = entry_text(symbols[0], counts[0]);
        lemma_entry_len(symbols[0], counts[0]);
        if symbols.len() > 1 {
            let sep = seq![',', ' '];
            let rest = entries_text(symbols.drop_first(), counts.drop_first());
            lemma_entries_len(symbols.drop_first(), counts.drop_first());
            lemma_ascii_len(sep);
            lemma_utf8_concat(e, sep);
            lemma_utf8_concat(e + sep, rest);
        }
    }
}

/// The header text of a table is short enough for its length to be written
/// with 32 binary digits.
pub proof fn lemma_header_fits(table: FrequencyTable, padding: u8)
    requires
        table.wf(),
        padding <= 9,
    ensures
        utf8_len(header_text(table.symbols(), table.counts(), padding)) < prefix_limit(),
{
    let symbols = table.symbols();
    let counts = table.counts();
    let all = entries_text(symbols, counts);
    let open = seq!['{'];
    let tail = seq!['}', ':', ':', digit_char(padding as nat), '\n'];
    lemma_ascending_len(symbols);
    lemma_entries_len(symbols, counts);
    lemma_ascii_len(open);
    lemma_ascii_len(tail);
    lemma_utf8_concat(open, all);
    lemma_utf8_concat(open + all, tail);
}

/// Header round trip: the header text that is written for a table and a
/// padding, behind its length as 32 binary digits, is read as the entries
/// of that table and that padding.
pub proof fn law_header_round_trip(table: FrequencyTable, padding: u8)
    requires
        table.wf(),
        padding <= 9,
    ensures
        ({
            let text = header_text(table.symbols(), table.counts(), padding);
            let line = binary_digits(utf8_len(text), 32) + text;
            &&& content_spec(text) == Ok::<(Seq<(char, usize)>, u8), DecodeError>(
                (pairs_of(table.symbols(), table.counts()), padding),
            )
            &&& header_line_spec(line) == content_spec(text)
            &&& crate::huffman::table::pairs_map(pairs_of(table.symbols(), table.counts()))
                == table@
        }),
{
    let symbols = table.symbols();
    let counts = table.counts();
    let text = header_text(symbols, counts, padding);
    let all = entries_text(symbols, counts);
    let tail = seq!['}', ':', ':', digit_char(padding as nat), '\n'];
    let pairs = pairs_of(symbols, counts);
    lemma_header_fits(table, padding);
    lemma_pairs_of(symbols, counts);
    crate::huffman::tree::lemma_table_entries(table);
    crate::text::lemma_digit_char(padding as nat);
    assert(text =~= seq!['{'] + (all + tail));
    let m = all.len() as int;
    let j = 1 + m + 1;
    assert(text.len() == j + 4);
    assert(text[0] == '{');
    assert(text[1 + m + 0] == tail[0]);
    assert(text[1 + m + 1] == tail[1]);
    assert(text[1 + m + 2] == tail[2]);
    assert(text[1 + m + 3] == tail[3]);
    assert(text[1 + m + 4] == tail[4]);
    let entries = entries_of(symbols, counts);
    assert(counted(entries) =~= pairs);
    assert(all_counted(entries));
    if symbols.len() == 0 {
        assert(all.len() == 0);
        assert(entries =~= Seq::<(char, Option<usize>)>::empty());
    } else {
        let t = all + seq!['}'];
        assert forall|k: int| 0 <= k < t.len() implies text[1 + k] == #[trigger] t[k] by {
            if k == m {
                assert(text[1 + m + 0] == tail[0]);
            }
        }
        assert(has_at(text, 1, t));
        lemma_entries_round_trip(text, 1, symbols, counts);
        // the first character of an entry is a quote, not a closing brace
        assert(all[0] == '\'') by {
            let e = entry_text(symbols[0], counts[0]);
            assert(e[0] == '\'');
            if symbols.len() > 1 {
                assert(all == e + seq![',', ' '] + entries_text(
                    symbols.drop_first(),
                    counts.drop_first(),
                ));
            }
        }
        assert(text[1] == t[0]);
    }
    assert(table_from(text, 0) == Some((entries, j)));
    assert(header_form(text));
    assert(content_spec(text) == Ok::<(Seq<(char, usize)>, u8), DecodeError>((pairs, padding)));
    // the line
    let n = utf8_len(text);
    let digits = binary_digits(n, 32);
    let line = digits + text;
    vstd::arithmetic::power2::lemma2_to64();
    lemma_binary_round_trip(n, 32);
    assert(line.take(32) =~= digits);
    assert(line.skip(32) =~= text);
    lemma_utf8_concat(digits, text);
    assert(vstd::utf8::is_ascii_chars(digits)) by {
        assert forall|i: int| 0 <= i < digits.len() implies '\0' <= #[trigger] digits[i]
            <= '\u{7f}' by {
            assert(digits[i] == '0' || digits[i] == '1');
        }
    }
    vstd::utf8::is_ascii_chars_encode_utf8(digits);
}

/// The header text of `table` with `padding`.
pub fn write_header(table: &FrequencyTable, padding: u8) -> (s: String)
    requires
        padding <= 7,
    ensures
        s@ == header_text(table.symbols(), table.counts(), padding),
{
    proof {
        use_type_invariant(table);
    }
    let mut out: Vec<char> = Vec::new();
    out.push('{');
    let n: usize = table.len();
    let ghost symbols = table.symbols();
    let ghost counts = table.counts();
    let mut i: usize = 0;
    proof {
        assert(symbols.skip(0) =~= symbols);
        assert(counts.skip(0) =~= counts);
        assert(out@ + entries_text(symbols, counts) =~= seq!['{'] + entries_text(symbols, counts));
    }
    while i < n
        invariant
            i <= n,
            n == symbols.len(),
            n == counts.len(),
            symbols == table.symbols(),
            counts == table.counts(),
            seq!['{'] + entries_text(symbols, counts) == out@ + entries_text(
                symbols.skip(i as int),
                counts.skip(i as int),
            ),
        decreases n - i,
    {
        let (c, count) = table.entry(i);
        let ghost before = out@;
        let ghost rest_symbols = symbols.skip(i as int);
        let ghost rest_counts = counts.skip(i as int);
        out.push('\'');
        push_symbol(&mut out, c);
        out.push('\'');
        out.push(':');
        out.push(' ');
        let digits = decimal_of(count);
        extend_chars(&mut out, &digits);
        proof {
            assert(rest_symbols[0] == c);
            assert(rest_counts[0] == count);
            assert(out@ =~= before + entry_text(c, count));
            assert(rest_symbols.drop_first() =~= symbols.skip(i + 1));
            assert(rest_counts.drop_first() =~= counts.skip(i + 1));
        }
        if i + 1 < n {
            out.push(',');
            out.push(' ');
            proof {
                assert(out@ =~= before + (entry_text(c, count) + seq![',', ' ']));
                assert(before + (entry_text(c, count) + seq![',', ' '] + entries_text(
                    symbols.skip(i + 1),
                    counts.skip(i + 1),
                )) =~= out@ + entries_text(symbols.skip(i + 1), counts.skip(i + 1)));
            }
        } else {
            proof {
                assert(rest_symbols.len() == 1);
                assert(symbols.skip(i + 1).len() == 0);
                assert(out@ + entries_text(symbols.skip(i + 1), counts.skip(i + 1)) =~= out@);
            }
        }
        i += 1;
    }
    proof {
        assert(symbols.skip(n as int).len() == 0);
        assert(out@ + entries_text(symbols.skip(n as int), counts.skip(n as int)) =~= out@);
    }
    let ghost body = out@;
    out.push('}');
    out.push(':');
    out.push(':');
    out.push(digit_of(padding));
    out.push('\n');
    proof {
        assert(out@ =~= body + seq!['}', ':', ':', digit_char(padding as nat), '\n']);
    }
    string_of(&out)
}

/// The first line of a file for `table` and `padding`: the length of the
/// header text in bytes, as 32 binary digits, and the header text.
pub fn write_header_line(table: &FrequencyTable, padding: u8) -> (s: String)
    requires
        padding <= 7,
    ensures
        s@ == binary_digits(
            utf8_len(header_text(table.symbols(), table.counts(), padding)),
            32,
        ) + header_text(table.symbols(), table.counts(), padding),
{
    proof {
        use_type_invariant(table);
        lemma_header_fits(*table, padding);
    }
    let header = write_header(table, padding);
    let length: usize = header.as_str().as_bytes().len();
    let mut line = match length_prefix(length) {
        Some(prefix) => prefix,
        None => String::new(),
    };
    line.append(header.as_str());
    line
}

/// Appends a symbol as it stands between the quotes.
fn push_symbol(out: &mut Vec<char>, c: char)
    ensures
        final(out)@ == old(out)@ + symbol_text(c),
{
    let escape: Option<char> = if c == '\r' {
        Some('r')
    } else if c == '\t' {
        Some('t')
    } else if c == '\n' {
        Some('n')
    } else if c == '\\' {
        Some('\\')
    } else if c == '\'' {
        Some('\'')
    } else if c == '"' {
        Some('"')
    } else if c == '\0' {
        Some('0')
    } else {
        None
    };
    match escape {
        Some(x) => {
            out.push('\\');
            out.push(x);
            assert(out@ =~= old(out)@ + seq!['\\', x]);
        },
        None => {
            out.push(c);
            assert(out@ =~= old(out)@ + seq![c]);
        },
    }
}

/// The length `n` as 32 binary digits, where it can be written so.
///
/// `None` exactly when `n` is two to the power of 32 or more.
pub fn length_prefix(n: usize) -> (r: Option<String>)
    ensures
        r is Some <==> n < prefix_limit(),
        r is Some ==> r->0@ == binary_digits(n as nat, 32),
{
    if n as u64 >= 0x1_0000_0000u64 {
        return None;
    }
    let mut rev: Vec<char> = Vec::new();
    let mut rest: usize = n;
    let mut k: usize = 0;
    while k < 32
        invariant
            k <= 32,
            rev.len() == k,
            binary_digits(n as nat, 32) == binary_digits(rest as nat, (32 - k) as nat)
                + rev@.reverse(),
        decreases 32 - k,
    {
        let c: char = if rest % 2 == 1 {
            '1'
        } else {
            '0'
        };
        proof {
            let old_rev = rev@;
            let head = binary_digits((rest / 2) as nat, (31 - k) as nat);
            assert(old_rev.push(c).reverse() =~= seq![c] + old_rev.reverse());
            assert(binary_digits(rest as nat, (32 - k) as nat) == head.push(c));
            assert(head.push(c) + old_rev.reverse() =~= head + (seq![c] + old_rev.reverse()));
        }
        rev.push(c);
        rest = rest / 2;
        k += 1;
    }
    let mut out: Vec<char> = Vec::new();
    let mut i: usize = 32;
    while i > 0
        invariant
            i <= 32,
            rev.len() == 32,
            out@ == rev@.reverse().take(32 - i),
        decreases i,
    {
        i -= 1;
        proof {
            let r = rev@.reverse();
            assert(r.take(32 - i) =~= r.take(32 - i - 1).push(r[32 - i - 1]));
            assert(r[32 - i - 1] == rev@[i as int]);
        }
        out.push(rev[i]);
    }
    proof {
        assert(rev@.reverse().take(32) =~= rev@.reverse());
        assert(binary_digits(rest as nat, 0) + rev@.reverse() =~= rev@.reverse());
    }
    Some(string_of(&out))
}

} // verus!
