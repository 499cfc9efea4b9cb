//! The decoder: from packed bytes and a frequency table back to symbols.

use crate::huffman::bits::{bits_of, byte_bit, payload_bits};
use crate::huffman::header::{
    all_binary, binary_value, content_spec, count_end, counted, entries_from, header_line_spec,
    pairs_spec, symbol_at, table_from, unescape,
};
use crate::huffman::table::{pairs_map, FrequencyTable};
use crate::huffman::tree::{build_spec, build_tree, lemma_build, HuffmanNode};
use crate::text::{char_is_digit, chars_of, parse_decimal, push_char, utf8_len};
use vstd::prelude::*;
use vstd::string::StringSliceAdditionalSpecFns;

verus! {

/// Why a file cannot be decoded.
#[derive(Debug, Clone, Copy, PartialEq, Eq)]
pub enum DecodeError {
    /// The header does not have the expected form.
    InvalidHeader,
    /// A count in the header is not a number that can be used.
    InvalidHeaderValue,
    /// The frequency table has no symbol.
    EmptyAlphabet,
    /// The frequency table has one symbol only, which has no code.
    DegenerateAlphabet,
    /// The bits of the payload do not end where a code ends, or the padding
    /// does not suit the payload.
    CorruptPayload,
}

/// Follows `bits` down from `node` to a leaf: the symbol found there and the
/// number of bits used. `None` where the bits run out before a leaf.
pub open spec fn descend(node: HuffmanNode, bits: Seq<bool>) -> Option<(char, nat)>
    decreases node,
{
    match node {
        HuffmanNode::Leaf(c, _) => Some((c, 0nat)),
        HuffmanNode::Internal(_, l, r) => if bits.len() == 0 {
            None
        } else {
            match descend(
                if bits[0] {
                    *r
                } else {
                    *l
                },
                bits.drop_first(),
            ) {
                Some((c, k)) => Some((c, k + 1)),
                None => None,
            }
        },
    }
}

/// `head` before what `rest` holds, if it holds anything.
pub open spec fn join(head: Seq<char>, rest: Option<Seq<char>>) -> Option<Seq<char>> {
    match rest {
        Some(s) => Some(head + s),
        None => None,
    }
}

/// The symbols that `bits` stand for: one walk from the root to a leaf for
/// each symbol. `None` where the bits end in the middle of a walk.
pub open spec fn decode_bits(root: HuffmanNode, bits: Seq<bool>) -> Option<Seq<char>>
    decreases bits.len(),
{
    if bits.len() == 0 {
        Some(Seq::empty())
    } else {
        match descend(root, bits) {
            Some((c, k)) => if 0 < k <= bits.len() {
                join(seq![c], decode_bits(root, bits.skip(k as int)))
            } else {
                None
            },
            None => None,
        }
    }
}

/// What `decode` returns for a table, given by its symbols in ascending
/// order and their counts, a payload and a padding.
pub open spec fn decode_spec(
    symbols: Seq<char>,
    counts: Seq<usize>,
    payload: Seq<u8>,
    padding: u8,
) -> Result<Seq<char>, DecodeError> {
    if symbols.len() == 0 {
        Err(DecodeError::EmptyAlphabet)
    } else if symbols.len() == 1 {
        Err(DecodeError::DegenerateAlphabet)
    } else if padding > 7 || (payload.len() == 0 && padding > 0) {
        Err(DecodeError::CorruptPayload)
    } else {
        match decode_bits(build_spec(symbols, counts), payload_bits(payload, padding as nat)) {
            Some(s) => Ok(s),
            None => Err(DecodeError::CorruptPayload),
        }
    }
}

/// A walk uses no more bits than there are, and at least one from an
/// internal node.
pub proof fn lemma_descend_bounds(node: HuffmanNode, bits: Seq<bool>)
    ensures
        descend(node, bits) matches Some(found) ==> found.1 <= bits.len() && (node is Internal
            ==> found.1 >= 1),
    decreases node,
{
    match node {
        HuffmanNode::Leaf(_, _) => {},
        HuffmanNode::Internal(_, l, r) => {
            if bits.len() > 0 {
                lemma_descend_bounds(if bits[0] { *r } else { *l }, bits.drop_first());
            }
        },
    }
}

/// What is still to come when a walk stands at `node`, below the root, with
/// `bits` left.
pub open spec fn resume(root: HuffmanNode, node: HuffmanNode, bits: Seq<bool>) -> Option<
    Seq<char>,
> {
    match descend(node, bits) {
        Some((c, k)) => join(seq![c], decode_bits(root, bits.skip(k as int))),
        None => None,
    }
}

proof fn lemma_resume_root(root: HuffmanNode, bits: Seq<bool>)
    requires
        root is Internal,
        bits.len() > 0,
    ensures
        decode_bits(root, bits) == resume(root, root, bits),
{
    lemma_descend_bounds(root, bits);
}

proof fn lemma_resume_step(root: HuffmanNode, node: HuffmanNode, bits: Seq<bool>)
    requires
        node is Internal,
        bits.len() > 0,
    ensures
        ({
            let child = if bits[0] {
                *node->Internal_2
            } else {
                *node->Internal_1
            };
            resume(root, node, bits) == match child {
                HuffmanNode::Leaf(c, _) => join(seq![c], decode_bits(root, bits.drop_first())),
                HuffmanNode::Internal(_, _, _) => resume(root, child, bits.drop_first()),
            }
        }),
{
    let child = if bits[0] {
        *node->Internal_2
    } else {
        *node->Internal_1
    };
    let rest = bits.drop_first();
    lemma_descend_bounds(child, rest);
    match descend(child, rest) {
        Some((c, k)) => {
            assert(bits.skip(k as int + 1) =~= rest.skip(k as int));
        },
        None => {},
    }
    if child is Leaf {
        assert(rest.skip(0) =~= rest);
    }
}

proof fn lemma_join_push(head: Seq<char>, c: char, rest: Option<Seq<char>>)
    ensures
        join(head, join(seq![c], rest)) == join(head.push(c), rest),
{
    if rest is Some {
        assert(head + (seq![c] + rest->0) =~= head.push(c) + rest->0);
    }
}

/// Decodes a payload with the code tree of `mapping`.
///
/// The bits are those of `payload`, most significant bit first, without the
/// last `padding` bits. Fails with `EmptyAlphabet` on a table without
/// symbols, with `DegenerateAlphabet` on a table of one symbol, and with
/// `CorruptPayload` where the padding is more than 7 or more than the
/// payload holds, or the bits end in the middle of a code.
pub fn decode(payload: &[u8], mapping: FrequencyTable, padding: u8) -> (r: Result<
    String,
    DecodeError,
>)
    ensures
        mapping.wf(),
        r is Ok ==> decode_spec(mapping.symbols(), mapping.counts(), payload@, padding) == Ok::<
            Seq<char>,
            DecodeError,
        >(r->Ok_0@),
        r is Err ==> decode_spec(mapping.symbols(), mapping.counts(), payload@, padding) == Err::<
            Seq<char>,
            DecodeError,
        >(r->Err_0),
{
    let root = match build_tree(&mapping) {
        Ok(root) => root,
        Err(_) => {
            return Err(DecodeError::EmptyAlphabet);
        },
    };
    if mapping.len() == 1 {
        return Err(DecodeError::DegenerateAlphabet);
    }
    let n: usize = payload.len();
    if padding > 7 || (n == 0 && padding > 0) {
        return Err(DecodeError::CorruptPayload);
    }
    proof {
        lemma_build(mapping);
    }
    let ghost bits = payload_bits(payload@, padding as nat);
    let mut out = String::new();
    let mut cur: &HuffmanNode = &root;
    let mut fresh: bool = true;
    let mut idx: usize = 0;
    assert(bits.skip(0) =~= bits);
    assert(Seq::<char>::empty() + decode_bits(root, bits)->0 =~= decode_bits(root, bits)->0);
    while idx < n
        invariant
            idx <= n,
            n == payload@.len(),
            padding <= 7,
            n == 0 ==> padding == 0,
            bits == payload_bits(payload@, padding as nat),
            root is Internal,
            *cur is Internal,
            fresh ==> *cur == root,
            idx < n ==> 8 * idx <= bits.len(),
            idx == n ==> 8 * idx - padding == bits.len(),
            decode_bits(root, bits) == join(
                out@,
                if fresh {
                    decode_bits(root, bits.skip(if idx == n { bits.len() as int } else { 8 * idx }))
                } else {
                    resume(root, *cur, bits.skip(if idx == n { bits.len() as int } else { 8 * idx }))
                },
            ),
        decreases n - idx,
    {
        let byte: u8 = payload[idx];
        let limit: u8 = if idx == n - 1 {
            8 - padding
        } else {
            8
        };
        let mut k: u8 = 0;
        while k < limit
            invariant
                idx < n,
                n == payload@.len(),
                padding <= 7,
                k <= limit <= 8,
                limit == if idx == n - 1 { 8 - padding } else { 8int },
                byte == payload@[idx as int],
                bits == payload_bits(payload@, padding as nat),
                bits.len() == 8 * n - padding,
                root is Internal,
                *cur is Internal,
                fresh ==> *cur == root,
                decode_bits(root, bits) == join(
                    out@,
                    if fresh {
                        decode_bits(root, bits.skip(8 * idx + k))
                    } else {
                        resume(root, *cur, bits.skip(8 * idx + k))
                    },
                ),
            decreases limit - k,
        {
            let bit: bool = (byte >> (7 - k)) & 1 == 1;
            let ghost pos = 8 * idx + k;
            let ghost rest = bits.skip(pos);
            proof {
                assert(pos < bits.len());
                assert(pos / 8 == idx as int && pos % 8 == k as int);
                assert(bits[pos] == bits_of(payload@)[pos]);
                assert(bit == byte_bit(byte, k));
                assert(rest[0] == bit);
                assert(rest.drop_first() =~= bits.skip(pos + 1));
                if fresh {
                    lemma_resume_root(root, rest);
                }
                lemma_resume_step(root, *cur, rest);
            }
            let next: &HuffmanNode = match cur {
                HuffmanNode::Internal(_, l, r) => if bit {
                    r
                } else {
                    l
                },
                HuffmanNode::Leaf(_, _) => {
                    return Err(DecodeError::CorruptPayload);
                },
            };
            match next {
                HuffmanNode::Leaf(c, _) => {
                    proof {
                        lemma_join_push(out@, *c, decode_bits(root, bits.skip(pos + 1)));
                    }
                    push_char(&mut out, *c);
                    cur = &root;
                    fresh = true;
                },
                HuffmanNode::Internal(_, _, _) => {
                    cur = next;
                    fresh = false;
                },
            }
            k += 1;
        }
        idx += 1;
    }
    if fresh {
        proof {
            assert(bits.skip(bits.len() as int) =~= Seq::<bool>::empty());
            assert(out@ + Seq::<char>::empty() =~= out@);
        }
        Ok(out)
    } else {
        proof {
            assert(bits.skip(bits.len() as int) =~= Seq::<bool>::empty());
        }
        Err(DecodeError::CorruptPayload)
    }
}

/// The symbol that a backslash and `x` stand for.
fn unescape_char(x: char) -> (r: Option<char>)
    ensures
        r == unescape(x),
{
    if x == 'r' {
        Some('\r')
    } else if x == 't' {
        Some('\t')
    } else if x == 'n' {
        Some('\n')
    } else if x == '\\' {
        Some('\\')
    } else if x == '\'' {
        Some('\'')
    } else if x == '"' {
        Some('"')
    } else if x == '0' {
        Some('\0')
    } else {
        None
    }
}

/// Reads the quoted symbol that begins at `s[i]`.
fn read_symbol(s: &Vec<char>, i: usize) -> (r: Option<(char, usize)>)
    requires
        i <= s.len(),
    ensures
        r is None <==> symbol_at(s@, i as int) is None,
        r matches Some(found) ==> symbol_at(s@, i as int) == Some((found.0, found.1 as int))
            && found.1 <= s.len(),
{
    let len: usize = s.len();
    if len - i < 3 || s[i] != '\'' {
        return None;
    }
    if s[i + 1] == '\\' {
        if len - i < 4 || s[i + 3] != '\'' {
            return None;
        }
        match unescape_char(s[i + 2]) {
            Some(c) => Some((c, i + 4)),
            None => None,
        }
    } else if s[i + 1] != '\'' && s[i + 2] == '\'' {
        Some((s[i + 1], i + 3))
    } else {
        None
    }
}

/// The place of the first character from `s[i]` on that ends a count.
fn find_count_end(s: &Vec<char>, i: usize) -> (j: usize)
    requires
        i <= s.len(),
    ensures
        j == count_end(s@, i as int),
        i <= j <= s.len(),
{
    let mut j: usize = i;
    while j < s.len() && !(s[j] == ',' || s[j] == '}')
        invariant
            i <= j <= s.len(),
            count_end(s@, i as int) == count_end(s@, j as int),
        decreases s.len() - j,
    {
        j += 1;
    }
    j
}

/// `head` before the entries that `rest` holds, if it holds any.
pub open spec fn prepend(
    head: Seq<(char, Option<usize>)>,
    rest: Option<(Seq<(char, Option<usize>)>, int)>,
) -> Option<(Seq<(char, Option<usize>)>, int)> {
    match rest {
        Some((tail, end)) => Some((head + tail, end)),
        None => None,
    }
}

/// Reads the entries that begin at `s[start]`, up to the closing brace.
fn read_entries(s: &Vec<char>, start: usize) -> (r: Option<(Vec<(char, Option<usize>)>, usize)>)
    requires
        start <= s.len(),
    ensures
        r is None <==> entries_from(s@, start as int) is None,
        r matches Some(found) ==> entries_from(s@, start as int) == Some(
            (found.0@, found.1 as int),
        ) && found.1 <= s.len(),
{
    let len: usize = s.len();
    let mut entries: Vec<(char, Option<usize>)> = Vec::new();
    let mut i: usize = start;
    loop
        invariant
            i <= len,
            len == s.len(),
            entries_from(s@, start as int) == prepend(entries@, entries_from(s@, i as int)),
        decreases len - i,
    {
        let (c, k) = match read_symbol(s, i) {
            Some(found) => found,
            None => {
                return None;
            },
        };
        if len - k < 2 || s[k] != ':' || s[k + 1] != ' ' {
            return None;
        }
        let j = find_count_end(s, k + 2);
        if j >= len {
            return None;
        }
        let count = parse_decimal(s, k + 2, j);
        let ghost before = entries@;
        entries.push((c, count));
        if s[j] == '}' {
            proof {
                assert(before + seq![(c, count)] =~= entries@);
            }
            return Some((entries, j + 1));
        }
        if len - j < 2 || s[j + 1] != ' ' {
            return None;
        }
        proof {
            let rest = entries_from(s@, j + 2);
            if rest is Some {
                let tail = rest->0;
                assert(before + (seq![(c, count)] + tail.0) =~= entries@ + tail.0);
            }
        }
        i = j + 2;
    }
}

/// Reads the list between braces at the beginning of `s`.
fn read_table(s: &Vec<char>) -> (r: Option<(Vec<(char, Option<usize>)>, usize)>)
    ensures
        r is None <==> table_from(s@, 0) is None,
        r matches Some(found) ==> table_from(s@, 0) == Some((found.0@, found.1 as int))
            && found.1 <= s.len(),
{
    if s.len() < 1 || s[0] != '{' {
        return None;
    }
    if s.len() >= 2 && s[1] == '}' {
        return Some((Vec::new(), 2));
    }
    read_entries(s, 1)
}

/// Makes the table of the entries of a well-formed list.
fn table_of_entries(entries: &Vec<(char, Option<usize>)>) -> (r: Result<FrequencyTable, DecodeError>)
    ensures
        r matches Ok(table) ==> table.wf() && (pairs_spec(entries@) matches Ok(pairs) && table@
            == pairs_map(pairs)),
        r matches Err(e) ==> pairs_spec(entries@) == Err::<Seq<(char, usize)>, DecodeError>(e),
{
    let mut pairs: Vec<(char, usize)> = Vec::new();
    let mut i: usize = 0;
    while i < entries.len()
        invariant
            i <= entries.len(),
            pairs.len() == i,
            forall|k: int| 0 <= k < i ==> (#[trigger] entries@[k]).1 is Some,
            forall|k: int|
                0 <= k < i ==> #[trigger] pairs@[k] == (entries@[k].0, entries@[k].1.unwrap()),
        decreases entries.len() - i,
    {
        match entries[i].1 {
            Some(n) => {
                pairs.push((entries[i].0, n));
            },
            None => {
                return Err(DecodeError::InvalidHeaderValue);
            },
        }
        i += 1;
    }
    assert(pairs@ =~= counted(entries@));
    match FrequencyTable::from_pairs(&pairs) {
        Some(table) => Ok(table),
        None => Err(DecodeError::InvalidHeader),
    }
}

/// What a list between braces holds, where the text is that list and
/// nothing else.
///
/// A text that is no list of entries between braces is an `InvalidHeader`,
/// whatever its counts are; the entries of a list are judged as
/// `pairs_spec` says.
pub open spec fn table_spec(s: Seq<char>) -> Result<Seq<(char, usize)>, DecodeError> {
    match table_from(s, 0) {
        None => Err(DecodeError::InvalidHeader),
        Some((entries, j)) => if j != s.len() {
            Err(DecodeError::InvalidHeader)
        } else {
            pairs_spec(entries)
        },
    }
}

/// Reads a frequency table from a list between braces.
///
/// Fails with `InvalidHeader` where the text is not a list of entries
/// between braces. In a list, fails with `InvalidHeaderValue` where a count
/// is not a decimal numeral that fits in a `usize`, and otherwise with
/// `InvalidHeader` where a symbol stands in two entries or the counts add
/// up to more than `usize::MAX`.
pub fn parse_table(content: &str) -> (r: Result<FrequencyTable, DecodeError>)
    ensures
        r matches Ok(table) ==> table.wf() && (table_spec(content@) matches Ok(pairs) && table@
            == pairs_map(pairs)),
        r matches Err(e) ==> table_spec(content@) == Err::<Seq<(char, usize)>, DecodeError>(e),
{
    let s = chars_of(content);
    let (entries, end) = match read_table(&s) {
        Some(found) => found,
        None => {
            return Err(DecodeError::InvalidHeader);
        },
    };
    if end != s.len() {
        return Err(DecodeError::InvalidHeader);
    }
    table_of_entries(&entries)
}

/// Reads a header text from characters.
fn read_content(s: &Vec<char>) -> (r: Result<(FrequencyTable, u8), DecodeError>)
    ensures
        r matches Ok(found) ==> found.0.wf() && (content_spec(s@) matches Ok(held) && found.0@
            == pairs_map(held.0) && found.1 == held.1),
        r matches Err(e) ==> content_spec(s@) == Err::<(Seq<(char, usize)>, u8), DecodeError>(e),
{
    let (entries, j) = match read_table(s) {
        Some(found) => found,
        None => {
            return Err(DecodeError::InvalidHeader);
        },
    };
    if s.len() - j != 4 || s[j] != ':' || s[j + 1] != ':' || !char_is_digit(s[j + 2]) || s[j + 3]
        != '\n' {
        return Err(DecodeError::InvalidHeader);
    }
    let padding: u8 = (s[j + 2] as u32 - 48) as u8;
    match table_of_entries(&entries) {
        Ok(table) => Ok((table, padding)),
        Err(e) => Err(e),
    }
}

/// Reads the frequency table and the padding from a header text.
///
/// The text is a list of entries between braces, two colons, one digit and
/// a line feed. Fails with `InvalidHeader` where the text has another form,
/// whatever its counts are. In a text of that form, fails with
/// `InvalidHeaderValue` where a count is not a decimal numeral that fits in
/// a `usize`, and otherwise with `InvalidHeader` where a symbol stands in
/// two entries or the counts add up to more than `usize::MAX`.
pub fn get_table_padding(content: &str) -> (r: Result<(FrequencyTable, u8), DecodeError>)
    ensures
        r matches Ok(found) ==> found.0.wf() && (content_spec(content@) matches Ok(held) && found.0@
            == pairs_map(held.0) && found.1 == held.1),
        r matches Err(e) ==> content_spec(content@) == Err::<
            (Seq<(char, usize)>, u8),
            DecodeError,
        >(e),
{
    let s = chars_of(content);
    read_content(&s)
}

/// Reads the frequency table and the padding from the first line of a file.
///
/// The line begins with 32 binary digits, which give the number of bytes
/// that the rest of the line takes in UTF-8; the rest is the header text.
/// Fails with `InvalidHeader` where the line does not begin so or has
/// another length, and as `get_table_padding` does on the rest.
pub fn get_huffman_table(header_line: &str) -> (r: Result<(FrequencyTable, u8), DecodeError>)
    ensures
        r matches Ok(found) ==> found.0.wf() && (header_line_spec(header_line@) matches Ok(held)
            && found.0@ == pairs_map(held.0) && found.1 == held.1),
        r matches Err(e) ==> header_line_spec(header_line@) == Err::<
            (Seq<(char, usize)>, u8),
            DecodeError,
        >(e),
{
    let line = chars_of(header_line);
    if line.len() < 32 {
        return Err(DecodeError::InvalidHeader);
    }
    let ghost digits = line@.take(32);
    let mut length: u64 = 0;
    let mut i: usize = 0;
    proof {
        vstd::arithmetic::power2::lemma2_to64();
    }
    while i < 32
        invariant
            i <= 32 <= line.len(),
            line@ == header_line@,
            digits == line@.take(32),
            all_binary(digits.take(i as int)),
            length == binary_value(digits.take(i as int)),
            length < vstd::arithmetic::power2::pow2(i as nat),
        decreases 32 - i,
    {
        let c = line[i];
        proof {
            vstd::arithmetic::power2::lemma2_to64();
            vstd::arithmetic::power2::lemma_pow2_unfold((i + 1) as nat);
            if i < 31 {
                vstd::arithmetic::power2::lemma_pow2_strictly_increases((i + 1) as nat, 32);
            }
            let next = digits.take(i + 1);
            assert(next.drop_last() =~= digits.take(i as int));
            assert(next.last() == c);
        }
        if c != '0' && c != '1' {
            proof {
                assert(digits[i as int] == c);
                assert(!all_binary(digits));
            }
            return Err(DecodeError::InvalidHeader);
        }
        let bit: u64 = if c == '1' {
            1
        } else {
            0
        };
        proof {
            if i > 0 {
                vstd::arithmetic::power2::lemma_pow2_strictly_increases(i as nat, 32);
            }
        }
        length = 2 * length + bit;
        i += 1;
        proof {
            let next = digits.take(i as int);
            assert forall|k: int| 0 <= k < next.len() implies (#[trigger] next[k] == '0' || next[k]
                == '1') by {
                if k < i - 1 {
                    assert(next[k] == digits.take(i - 1)[k]);
                }
            }
        }
    }
    proof {
        assert(digits.take(32) =~= digits);
        vstd::arithmetic::power2::lemma2_to64();
    }
    let bytes = header_line.as_bytes();
    assert(bytes@.len() == utf8_len(header_line@));
    if bytes.len() as u64 != 32 + length {
        return Err(DecodeError::InvalidHeader);
    }
    let mut content: Vec<char> = Vec::new();
    let mut k: usize = 32;
    while k < line.len()
        invariant
            32 <= k <= line.len(),
            content@ == line@.subrange(32, k as int),
        decreases line.len() - k,
    {
        content.push(line[k]);
        k += 1;
    }
    assert(content@ =~= line@.skip(32));
    read_content(&content)
}

} // verus!
