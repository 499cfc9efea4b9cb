//! What holds of the codec as a whole.

use crate::huffman::bits::{lemma_pack_round_trip, pack, packed_len, padding_of};
use crate::huffman::codes::{code_map, code_of, lemma_prefix_free};
use crate::huffman::decoder::{decode_bits, decode_spec, descend, DecodeError};
use crate::huffman::encoder::{encode_bits, lemma_encode_bits_first};
use crate::huffman::symbol_map::{ascending, lemma_same_keys};
use crate::huffman::table::FrequencyTable;
use crate::huffman::tree::{
    build_spec, enqueue, leaf_queue, lemma_build, lemma_enqueue_sorted, lemma_leaf_queue,
    lemma_queue_slot_bounds, queue_slot, HuffmanNode,
};
use vstd::prelude::*;

verus! {

/// Following the code of a symbol from the root of a tree leads to the leaf
/// of that symbol, and uses the bits of the code and no more.
pub proof fn lemma_descend_code(node: HuffmanNode, c: char, tail: Seq<bool>)
    requires
        node.symbols().contains(c),
    ensures
        descend(node, code_of(node, c) + tail) == Some((c, code_of(node, c).len())),
    decreases node,
{
    match node {
        HuffmanNode::Leaf(x, w) => {
            assert(node.leaf_weights() =~= Map::<char, nat>::empty().insert(x, w as nat));
        },
        HuffmanNode::Internal(_, l, r) => {
            let code = code_of(node, c);
            let bits = code + tail;
            let child = if l.symbols().contains(c) {
                *l
            } else {
                *r
            };
            assert(node.symbols() =~= l.symbols().union(r.symbols()));
            lemma_descend_code(child, c, tail);
            assert(bits.drop_first() =~= code_of(child, c) + tail);
            assert(bits[0] == !l.symbols().contains(c));
        },
    }
}

/// Decoding the codes of a text gives the text back, for every tree with an
/// internal root that holds the symbols of the text.
pub proof fn lemma_decode_encode(root: HuffmanNode, text: Seq<char>)
    requires
        root is Internal,
        forall|i: int| 0 <= i < text.len() ==> root.symbols().contains(#[trigger] text[i]),
    ensures
        decode_bits(root, encode_bits(text, code_map(root))) == Some(text),
    decreases text.len(),
{
    let codes = code_map(root);
    let bits = encode_bits(text, codes);
    if text.len() == 0 {
        assert(text =~= Seq::<char>::empty());
    } else {
        let c = text[0];
        let rest = text.drop_first();
        let tail = encode_bits(rest, codes);
        lemma_encode_bits_first(text, codes);
        assert(codes[c] == code_of(root, c));
        lemma_descend_code(root, c, tail);
        assert forall|i: int| 0 <= i < rest.len() implies root.symbols().contains(
            #[trigger] rest[i],
        ) by {
            assert(rest[i] == text[i + 1]);
        }
        lemma_decode_encode(root, rest);
        let k = code_of(root, c).len();
        assert(k >= 1);
        assert(bits.skip(k as int) =~= tail);
        assert(seq![c] + rest =~= text);
    }
}

/// Round trip: a text over two symbols or more, encoded with the codes of a
/// table that holds its symbols and packed, is what decoding the packed
/// bytes with that table and the padding gives.
pub proof fn law_round_trip(table: FrequencyTable, text: Seq<char>)
    requires
        table.wf(),
        table.spec_len() >= 2,
        forall|i: int| 0 <= i < text.len() ==> table@.contains_key(#[trigger] text[i]),
    ensures
        ({
            let codes = code_map(build_spec(table.symbols(), table.counts()));
            let bits = encode_bits(text, codes);
            decode_spec(
                table.symbols(),
                table.counts(),
                pack(bits),
                padding_of(bits.len()) as u8,
            ) == Ok::<Seq<char>, DecodeError>(text)
        }),
{
    let root = build_spec(table.symbols(), table.counts());
    let bits = encode_bits(text, code_map(root));
    lemma_build(table);
    lemma_decode_encode(root, text);
    lemma_pack_round_trip(bits);
    assert(pack(bits).len() == 0 ==> padding_of(bits.len()) == 0);
}

/// Prefix-free codes: in the code of a table, the code of one symbol is
/// never the beginning of the code of another.
pub proof fn law_prefix_free(table: FrequencyTable, a: char, b: char)
    requires
        table.wf(),
        table@.contains_key(a),
        table@.contains_key(b),
        a != b,
    ensures
        ({
            let codes = code_map(build_spec(table.symbols(), table.counts()));
            &&& codes.contains_key(a)
            &&& codes.contains_key(b)
            &&& !codes[a].is_prefix_of(codes[b])
            &&& !codes[b].is_prefix_of(codes[a])
        }),
{
    table.lemma_dom();
    assert(table.spec_len() >= 1) by {
        if table.symbols().len() == 0 {
            assert(!table.symbols().contains(a));
        }
    }
    lemma_build(table);
    let root = build_spec(table.symbols(), table.counts());
    lemma_prefix_free(root, a, b);
    lemma_prefix_free(root, b, a);
}

/// Weight invariant: in the tree of a table every internal node weighs what
/// its two children weigh together, every node weighs what the leaves below
/// it weigh together, and the root weighs what the counts add up to.
pub proof fn law_weights(table: FrequencyTable)
    requires
        table.wf(),
        table.spec_len() >= 1,
    ensures
        build_spec(table.symbols(), table.counts()).well_formed(),
        build_spec(table.symbols(), table.counts()).weight() == build_spec(
            table.symbols(),
            table.counts(),
        ).leaf_total(),
        build_spec(table.symbols(), table.counts()).weight() == table.spec_total(),
        build_spec(table.symbols(), table.counts()).leaf_count() == table.spec_len(),
{
    lemma_build(table);
    let root = build_spec(table.symbols(), table.counts());
    root.lemma_weight_is_leaf_total();
    root.lemma_symbols();
    table.lemma_dom();
}

/// Determinism: tables with the same symbols and counts have the same tree,
/// in whatever order they were filled.
pub proof fn law_same_table_same_tree(a: FrequencyTable, b: FrequencyTable)
    requires
        a.wf(),
        b.wf(),
        a@ == b@,
    ensures
        a.symbols() == b.symbols(),
        a.counts() == b.counts(),
        build_spec(a.symbols(), a.counts()) == build_spec(b.symbols(), b.counts()),
{
    a.lemma_dom();
    b.lemma_dom();
    lemma_same_keys(a.symbols(), b.symbols(), a@.dom());
    assert forall|i: int| 0 <= i < a.counts().len() implies a.counts()[i] == b.counts()[i] by {
        a.lemma_entry(i);
        b.lemma_entry(i);
    }
    assert(a.counts() =~= b.counts());
}

/// Whether the leaf `a` goes before the leaf `b`: it is lighter, or as
/// heavy and of the lower code point.
pub open spec fn leaf_before(a: HuffmanNode, b: HuffmanNode) -> bool {
    &&& a is Leaf
    &&& b is Leaf
    &&& (a.weight() < b.weight() || (a.weight() == b.weight() && (a->Leaf_0 as u32)
        < (b->Leaf_0 as u32)))
}

/// Tie-break of leaves: before any merge the queue holds the leaves by
/// ascending weight, and leaves of one weight by ascending code point.
pub proof fn law_leaf_order(symbols: Seq<char>, counts: Seq<usize>)
    requires
        symbols.len() == counts.len(),
        ascending(symbols),
    ensures
        leaf_queue(symbols, counts).len() == symbols.len(),
        forall|i: int|
            0 <= i < symbols.len() ==> (#[trigger] leaf_queue(symbols, counts)[i]) is Leaf
                && symbols.contains(leaf_queue(symbols, counts)[i]->Leaf_0),
        forall|i: int, j: int|
            0 <= i < j < symbols.len() ==> leaf_before(
                #[trigger] leaf_queue(symbols, counts)[i],
                #[trigger] leaf_queue(symbols, counts)[j],
            ),
    decreases symbols.len(),
{
    lemma_leaf_queue(symbols, counts);
    if symbols.len() > 0 {
        let s0 = symbols.drop_last();
        let c0 = counts.drop_last();
        let q0 = leaf_queue(s0, c0);
        let leaf = HuffmanNode::Leaf(symbols.last(), counts.last());
        let p = queue_slot(q0, leaf.weight());
        let q = leaf_queue(symbols, counts);
        law_leaf_order(s0, c0);
        lemma_leaf_queue(s0, c0);
        lemma_queue_slot_bounds(q0, leaf.weight());
        lemma_enqueue_sorted(q0, leaf);
        assert(q == enqueue(q0, leaf));
        assert forall|i: int| 0 <= i < symbols.len() implies (#[trigger] q[i]) is Leaf
            && symbols.contains(q[i]->Leaf_0) by {
            if i == p {
                assert(symbols[symbols.len() - 1] == symbols.last());
            } else {
                let k = if i < p { i } else { i - 1 };
                assert(q[i] == q0[k]);
                let at = choose|at: int| 0 <= at < s0.len() && s0[at] == q0[k]->Leaf_0;
                assert(symbols[at] == s0[at]);
            }
        }
        assert forall|i: int, j: int| 0 <= i < j < symbols.len() implies leaf_before(
            #[trigger] q[i],
            #[trigger] q[j],
        ) by {
            let ki = if i < p { i } else { i - 1 };
            let kj = if j < p { j } else { j - 1 };
            if i != p && j != p {
                assert(q[i] == q0[ki]);
                assert(q[j] == q0[kj]);
            } else if i == p {
                assert(q[j] == q0[kj]);
            } else {
                assert(q[i] == q0[ki]);
                // the symbol of an earlier leaf is lower than the one that enters
                let at = choose|at: int| 0 <= at < s0.len() && s0[at] == q0[ki]->Leaf_0;
                assert((symbols[at] as u32) < (symbols.last() as u32));
            }
        }
    }
}

/// Padding bound: the padding of a packed bit string is at most 7, the
/// packed bytes hold the bits and the padding and nothing else, and without
/// padding the number of bits is eight times the number of bytes.
pub proof fn law_padding(bits: Seq<bool>)
    ensures
        padding_of(bits.len()) <= 7,
        pack(bits).len() == packed_len(bits.len()),
        8 * pack(bits).len() == bits.len() + padding_of(bits.len()),
        padding_of(bits.len()) == 0 ==> bits.len() == 8 * pack(bits).len(),
{
    lemma_pack_round_trip(bits);
}

/// Filler: every bit of a packed bit string behind the bits themselves is
/// zero.
pub proof fn law_filler_is_zero(bits: Seq<bool>, i: int)
    requires
        bits.len() <= i < 8 * packed_len(bits.len()),
    ensures
        !crate::huffman::bits::bits_of(pack(bits))[i],
{
    crate::huffman::bits::lemma_byte_bit_of_value(crate::huffman::bits::chunk(bits, i / 8), i % 8);
}

} // verus!
