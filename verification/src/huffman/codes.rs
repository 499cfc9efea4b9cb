//! Code tables: the bit string of each symbol, read off the code tree.
//!
//! The code of a symbol is the path from the root to its leaf, `0` for a
//! step to the left child and `1` for a step to the right child.

use crate::huffman::symbol_map::SymbolMap;
use crate::huffman::tree::HuffmanNode;
use crate::text::push_char;
use vstd::prelude::*;

verus! {

/// The path from the root of `node` to the leaf of `c`: `false` for left,
/// `true` for right. Where `c` stands at several leaves, the leftmost.
pub open spec fn code_of(node: HuffmanNode, c: char) -> Seq<bool>
    decreases node,
{
    match node {
        HuffmanNode::Leaf(_, _) => Seq::empty(),
        HuffmanNode::Internal(_, l, r) => if l.symbols().contains(c) {
            seq![false] + code_of(*l, c)
        } else {
            seq![true] + code_of(*r, c)
        },
    }
}

/// The code of every symbol of the tree.
pub open spec fn code_map(node: HuffmanNode) -> Map<char, Seq<bool>> {
    Map::new(|c: char| node.symbols().contains(c), |c: char| code_of(node, c))
}

/// The characters `'0'` and `'1'` that stand for a bit string.
pub open spec fn bits_text(bits: Seq<bool>) -> Seq<char> {
    bits.map_values(|b: bool| if b { '1' } else { '0' })
}

/// Below an internal root every code has one bit at least.
pub proof fn lemma_code_not_empty(node: HuffmanNode, c: char)
    requires
        node is Internal,
    ensures
        code_of(node, c).len() >= 1,
{
}

/// No code is a prefix of the code of another symbol.
pub proof fn lemma_prefix_free(node: HuffmanNode, a: char, b: char)
    requires
        node.symbols().contains(a),
        node.symbols().contains(b),
        a != b,
    ensures
        !code_of(node, a).is_prefix_of(code_of(node, b)),
    decreases node,
{
    match node {
        HuffmanNode::Leaf(c, w) => {
            assert(node.leaf_weights() =~= Map::<char, nat>::empty().insert(c, w as nat));
        },
        HuffmanNode::Internal(_, l, r) => {
            let ca = code_of(node, a);
            let cb = code_of(node, b);
            let in_l_a = l.symbols().contains(a);
            let in_l_b = l.symbols().contains(b);
            if ca.is_prefix_of(cb) {
                assert(ca[0] == cb[0]);
                assert(in_l_a == in_l_b);
                let sub = if in_l_a { *l } else { *r };
                lemma_prefix_free(sub, a, b);
                let sa = code_of(sub, a);
                let sb = code_of(sub, b);
                assert(sa.len() <= sb.len());
                assert forall|i: int| 0 <= i < sa.len() implies sa[i] == sb[i] by {
                    assert(ca[i + 1] == sa[i]);
                    assert(cb[i + 1] == sb[i]);
                    assert(ca[i + 1] == cb[i + 1]);
                }
                assert(sa =~= sb.subrange(0, sa.len() as int));
                assert(sa.is_prefix_of(sb));
            }
        },
    }
}

/// A mapping from symbol to bit string. A symbol that is mapped to the
/// empty bit string has no code: `encode` fails on it.
#[derive(Debug, PartialEq, Eq)]
pub struct CodeTable {
    map: SymbolMap<Vec<bool>>,
}

impl CodeTable {
    /// The symbols, by ascending code point.
    pub closed spec fn symbols(&self) -> Seq<char> {
        self.map.keys()
    }

    /// The code of each symbol, `true` for a one.
    pub closed spec fn view(&self) -> Map<char, Seq<bool>> {
        Map::new(|c: char| self.map@.contains_key(c), |c: char| self.map@[c]@)
    }

    /// The number of symbols that have a code.
    pub open spec fn spec_len(&self) -> nat {
        self.symbols().len()
    }

    /// The table without codes.
    pub fn new() -> (t: Self)
        ensures
            t@ == Map::<char, Seq<bool>>::empty(),
            t.spec_len() == 0,
    {
        let t = CodeTable { map: SymbolMap::new() };
        assert(t@ =~= Map::<char, Seq<bool>>::empty());
        t
    }

    /// The number of symbols that have a code.
    pub fn len(&self) -> (n: usize)
        ensures
            n == self.spec_len(),
    {
        self.map.len()
    }

    /// Gives `c` the code `code`, in place of the code it had.
    pub fn insert(&mut self, c: char, code: Vec<bool>)
        ensures
            final(self)@ == old(self)@.insert(c, code@),
    {
        self.map.insert(c, code);
        assert(self@ =~= old(self)@.insert(c, code@));
    }

    /// The code of `c`, if it has one.
    pub fn get(&self, c: char) -> (r: Option<&Vec<bool>>)
        ensures
            r is Some <==> self@.contains_key(c),
            r is Some ==> r->0@ == self@[c],
    {
        self.map.get(c)
    }

    /// The code of `c` written with the characters `0` and `1`.
    pub fn code_string(&self, c: char) -> (r: Option<String>)
        ensures
            r is Some <==> self@.contains_key(c),
            r is Some ==> r->0@ == bits_text(self@[c]),
    {
        match self.map.get(c) {
            Some(bits) => Some(bits_string(bits)),
            None => None,
        }
    }

    /// Every symbol with its code, written with the characters `0` and `1`,
    /// by ascending code point.
    pub fn to_pairs(&self) -> (v: Vec<(char, String)>)
        ensures
            v.len() == self.spec_len(),
            forall|i: int|
                0 <= i < v.len() ==> (#[trigger] v[i]).0 == self.symbols()[i] && self@.contains_key(
                    v[i].0,
                ) && v[i].1@ == bits_text(self@[v[i].0]),
    {
        proof {
            use_type_invariant(&self.map);
        }
        let mut v: Vec<(char, String)> = Vec::new();
        let mut i: usize = 0;
        while i < self.map.len()
            invariant
                i <= self.map.spec_len(),
                self.map.wf(),
                v.len() == i,
                forall|j: int|
                    0 <= j < i ==> (#[trigger] v[j]).0 == self.symbols()[j] && self@.contains_key(
                        v[j].0,
                    ) && v[j].1@ == bits_text(self@[v[j].0]),
            decreases self.map.spec_len() - i,
        {
            let (c, bits) = self.map.entry(i);
            proof {
                self.map.lemma_entry(i as int);
            }
            v.push((c, bits_string(bits)));
            i += 1;
        }
        v
    }
}

/// The lines for the symbols from the `i`-th on: the symbol, two colons,
/// its code written with the characters `0` and `1`, and a line feed.
pub open spec fn listing_from(symbols: Seq<char>, codes: Map<char, Seq<bool>>, i: int) -> Seq<char>
    decreases symbols.len() - i,
{
    if i < 0 || i >= symbols.len() {
        Seq::empty()
    } else {
        seq![symbols[i], ':', ':'] + bits_text(codes[symbols[i]]) + seq!['\n'] + listing_from(
            symbols,
            codes,
            i + 1,
        )
    }
}

/// The listing of a code table: one line for each symbol, by ascending
/// code point, with the symbol, two colons and its code.
pub fn write_huffman_header(mapping: &CodeTable) -> (s: String)
    ensures
        s@ == listing_from(mapping.symbols(), mapping@, 0),
{
    let pairs = mapping.to_pairs();
    let ghost symbols = mapping.symbols();
    let mut out = String::new();
    let mut i: usize = 0;
    proof {
        assert(out@ + listing_from(symbols, mapping@, 0) =~= listing_from(symbols, mapping@, 0));
    }
    while i < pairs.len()
        invariant
            i <= pairs.len(),
            pairs.len() == symbols.len(),
            symbols == mapping.symbols(),
            forall|k: int|
                0 <= k < pairs.len() ==> (#[trigger] pairs[k]).0 == symbols[k] && pairs[k].1@
                    == bits_text(mapping@[pairs[k].0]),
            listing_from(symbols, mapping@, 0) == out@ + listing_from(symbols, mapping@, i as int),
        decreases pairs.len() - i,
    {
        let ghost before = out@;
        let ghost rest = listing_from(symbols, mapping@, i + 1);
        let c: char = pairs[i].0;
        push_char(&mut out, c);
        push_char(&mut out, ':');
        push_char(&mut out, ':');
        let bits = crate::text::chars_of(pairs[i].1.as_str());
        let mut k: usize = 0;
        let ghost head = out@;
        while k < bits.len()
            invariant
                k <= bits.len(),
                out@ == head + bits@.take(k as int),
            decreases bits.len() - k,
        {
            push_char(&mut out, bits[k]);
            proof {
                assert(head + bits@.take(k + 1) =~= (head + bits@.take(k as int)).push(
                    bits@[k as int],
                ));
            }
            k += 1;
        }
        push_char(&mut out, '\n');
        proof {
            assert(bits@.take(bits.len() as int) =~= bits@);
            assert(out@ =~= before + (seq![c, ':', ':'] + bits@ + seq!['\n']));
            assert(before + (seq![c, ':', ':'] + bits@ + seq!['\n'] + rest) =~= out@ + rest);
        }
        i += 1;
    }
    proof {
        assert(out@ + Seq::<char>::empty() =~= out@);
    }
    out
}

/// A bit string written with the characters `0` and `1`.
pub fn bits_string(bits: &Vec<bool>) -> (s: String)
    ensures
        s@ == bits_text(bits@),
{
    let mut s = String::new();
    let mut i: usize = 0;
    while i < bits.len()
        invariant
            i <= bits.len(),
            s@ == bits_text(bits@.take(i as int)),
        decreases bits.len() - i,
    {
        let c: char = if bits[i] { '1' } else { '0' };
        proof {
            assert(bits_text(bits@.take(i + 1)) =~= bits_text(bits@.take(i as int)).push(c));
        }
        push_char(&mut s, c);
        i += 1;
    }
    assert(bits@.take(bits.len() as int) == bits@);
    s
}

/// Writes into `table` the code of every symbol below `node`, each behind
/// the bits of `prefix`.
fn assign_below(node: &HuffmanNode, prefix: &mut Vec<bool>, table: &mut CodeTable)
    ensures
        final(prefix)@ == old(prefix)@,
        forall|c: char| #[trigger]
            final(table)@.contains_key(c) <==> old(table)@.contains_key(c)
                || node.symbols().contains(c),
        forall|c: char|
            node.symbols().contains(c) ==> #[trigger] final(table)@[c] == old(prefix)@ + code_of(
                *node,
                c,
            ),
        forall|c: char|
            !node.symbols().contains(c) ==> #[trigger] final(table)@[c] == old(table)@[c],
    decreases *node,
{
    match node {
        HuffmanNode::Leaf(c, w) => {
            proof {
                assert(node.leaf_weights() =~= Map::<char, nat>::empty().insert(*c, *w as nat));
                assert(prefix@ + code_of(*node, *c) =~= prefix@);
            }
            let code = prefix.clone();
            table.insert(*c, code);
        },
        HuffmanNode::Internal(_, l, r) => {
            let ghost stem = prefix@;
            let ghost at_entry = table@;
            prefix.push(true);
            assign_below(r, prefix, table);
            let ghost right_done = table@;
            prefix.pop();
            assert(prefix@ =~= stem);
            prefix.push(false);
            assign_below(l, prefix, table);
            prefix.pop();
            proof {
                assert(prefix@ =~= stem);
                assert(node.symbols() =~= l.symbols().union(r.symbols()));
                assert forall|c: char| node.symbols().contains(c) implies #[trigger] table@[c] == stem
                    + code_of(*node, c) by {
                    if l.symbols().contains(c) {
                        assert(stem.push(false) + code_of(**l, c) =~= stem + (seq![false] + code_of(
                            **l,
                            c,
                        )));
                    } else {
                        assert(table@[c] == right_done[c]);
                        assert(stem.push(true) + code_of(**r, c) =~= stem + (seq![true] + code_of(
                            **r,
                            c,
                        )));
                    }
                }
                assert forall|c: char| !node.symbols().contains(c) implies #[trigger] table@[c]
                    == at_entry[c] by {
                    assert(table@[c] == right_done[c]);
                }
            }
        },
    }
}

/// The code table of a tree.
///
/// A tree that is one leaf gives its symbol the empty bit string; `encode`
/// takes no such table for a code and fails on it with
/// `DegenerateAlphabet`.
pub fn assign(root: &HuffmanNode) -> (table: CodeTable)
    ensures
        table@ == code_map(*root),
{
    let mut table = CodeTable::new();
    let mut prefix: Vec<bool> = Vec::new();
    assign_below(root, &mut prefix, &mut table);
    proof {
        assert forall|c: char| table@.contains_key(c) implies #[trigger] table@[c] == code_map(
            *root,
        )[c] by {
            assert(Seq::<bool>::empty() + code_of(*root, c) =~= code_of(*root, c));
        }
        assert(table@ =~= code_map(*root));
    }
    table
}

} // verus!
