//! The code tree and how it is built from a frequency table.
//!
//! Nodes wait in a queue ordered by weight. A node that enters the queue
//! goes behind every node that is not heavier than it. Leaves enter first,
//! by ascending code point, so that leaves of one weight stand by ascending
//! code point, before any internal node of that weight; internal nodes of
//! one weight stand in the order in which they were made. The two nodes at
//! the front are merged, the first becoming the left child, until one node
//! is left.

use crate::huffman::symbol_map::ascending;
use crate::huffman::table::{sum_counts, FrequencyTable};
use vstd::prelude::*;

verus! {

/// A node of the code tree.
#[derive(Debug, PartialEq, Eq)]
pub enum HuffmanNode {
    /// A symbol and its weight.
    Leaf(char, usize),
    /// A weight, the left child and the right child.
    Internal(usize, Box<HuffmanNode>, Box<HuffmanNode>),
}

/// Why no code can be made for a table.
#[derive(Debug, Clone, Copy, PartialEq, Eq)]
pub enum TreeError {
    /// The table has no symbol.
    EmptyAlphabet,
    /// The table has one symbol only, whose code would be empty.
    DegenerateAlphabet,
}

impl HuffmanNode {
    /// The weight that the node carries.
    pub open spec fn weight(self) -> nat {
        match self {
            HuffmanNode::Leaf(_, w) => w as nat,
            HuffmanNode::Internal(w, _, _) => w as nat,
        }
    }

    /// The weight of each symbol at a leaf of the tree.
    pub open spec fn leaf_weights(self) -> Map<char, nat>
        decreases self,
    {
        match self {
            HuffmanNode::Leaf(c, w) => Map::empty().insert(c, w as nat),
            HuffmanNode::Internal(_, l, r) => l.leaf_weights().union_prefer_right(
                r.leaf_weights(),
            ),
        }
    }

    /// The symbols at the leaves of the tree.
    pub open spec fn symbols(self) -> Set<char> {
        self.leaf_weights().dom()
    }

    /// The sum of the weights of the leaves.
    pub open spec fn leaf_total(self) -> nat
        decreases self,
    {
        match self {
            HuffmanNode::Leaf(_, w) => w as nat,
            HuffmanNode::Internal(_, l, r) => l.leaf_total() + r.leaf_total(),
        }
    }

    /// The number of leaves.
    pub open spec fn leaf_count(self) -> nat
        decreases self,
    {
        match self {
            HuffmanNode::Leaf(_, _) => 1,
            HuffmanNode::Internal(_, l, r) => l.leaf_count() + r.leaf_count(),
        }
    }

    /// Every internal node weighs what its two children weigh together, and
    /// no symbol stands at two leaves.
    pub open spec fn well_formed(self) -> bool
        decreases self,
    {
        match self {
            HuffmanNode::Leaf(_, _) => true,
            HuffmanNode::Internal(w, l, r) => {
                &&& w as nat == l.weight() + r.weight()
                &&& l.well_formed()
                &&& r.well_formed()
                &&& l.symbols().disjoint(r.symbols())
            },
        }
    }

    /// In a well-formed tree a node weighs what the leaves below it weigh
    /// together.
    pub proof fn lemma_weight_is_leaf_total(self)
        requires
            self.well_formed(),
        ensures
            self.weight() == self.leaf_total(),
        decreases self,
    {
        match self {
            HuffmanNode::Leaf(_, _) => {},
            HuffmanNode::Internal(_, l, r) => {
                l.lemma_weight_is_leaf_total();
                r.lemma_weight_is_leaf_total();
            },
        }
    }

    /// A tree has a leaf, and finitely many symbols.
    pub proof fn lemma_symbols(self)
        ensures
            self.symbols().finite(),
            self.symbols().len() >= 1,
            self.well_formed() ==> self.symbols().len() == self.leaf_count(),
        decreases self,
    {
        match self {
            HuffmanNode::Leaf(c, w) => {
                assert(self.symbols() =~= Set::<char>::empty().insert(c));
            },
            HuffmanNode::Internal(_, l, r) => {
                l.lemma_symbols();
                r.lemma_symbols();
                assert(self.symbols() =~= l.symbols().union(r.symbols()));
                vstd::set_lib::lemma_set_disjoint_lens(l.symbols(), r.symbols());
                vstd::set_lib::lemma_len_union_ind(l.symbols(), r.symbols());
                vstd::set_lib::lemma_len_subset(l.symbols(), self.symbols());
            },
        }
    }

    /// The weight that the node carries.
    pub fn weight_of(&self) -> (w: usize)
        ensures
            w == self.weight(),
    {
        match self {
            HuffmanNode::Leaf(_, w) => *w,
            HuffmanNode::Internal(w, _, _) => *w,
        }
    }
}

/// The number of nodes at the front of the queue that weigh at most `w`.
pub open spec fn queue_slot(queue: Seq<HuffmanNode>, w: nat) -> int
    decreases queue.len(),
{
    if queue.len() == 0 || queue[0].weight() > w {
        0
    } else {
        1 + queue_slot(queue.drop_first(), w)
    }
}

/// The queue after `node` has entered it.
pub open spec fn enqueue(queue: Seq<HuffmanNode>, node: HuffmanNode) -> Seq<HuffmanNode> {
    queue.insert(queue_slot(queue, node.weight()), node)
}

/// The node made of `left` and `right`.
pub open spec fn merge(left: HuffmanNode, right: HuffmanNode) -> HuffmanNode {
    HuffmanNode::Internal(
        (left.weight() + right.weight()) as usize,
        Box::new(left),
        Box::new(right),
    )
}

/// The one node that is left when the two nodes at the front of the queue
/// have been merged over and over.
pub open spec fn merge_all(queue: Seq<HuffmanNode>) -> HuffmanNode
    decreases queue.len(),
    via merge_all_terminates
{
    if queue.len() <= 1 {
        queue[0]
    } else {
        merge_all(enqueue(queue.skip(2), merge(queue[0], queue[1])))
    }
}

#[via_fn]
proof fn merge_all_terminates(queue: Seq<HuffmanNode>) {
    if queue.len() > 1 {
        let node = merge(queue[0], queue[1]);
        lemma_queue_slot_bounds(queue.skip(2), node.weight());
    }
}

/// The queue of leaves for the given symbols and counts.
pub open spec fn leaf_queue(symbols: Seq<char>, counts: Seq<usize>) -> Seq<HuffmanNode>
    decreases symbols.len(),
{
    if symbols.len() == 0 {
        Seq::empty()
    } else {
        enqueue(
            leaf_queue(symbols.drop_last(), counts.drop_last()),
            HuffmanNode::Leaf(symbols.last(), counts.last()),
        )
    }
}

/// The code tree of a table, given by its symbols in ascending order and
/// their counts.
pub open spec fn build_spec(symbols: Seq<char>, counts: Seq<usize>) -> HuffmanNode {
    merge_all(leaf_queue(symbols, counts))
}

/// The sum of the weights of the nodes in the queue.
pub open spec fn queue_weight(queue: Seq<HuffmanNode>) -> nat
    decreases queue.len(),
{
    if queue.len() == 0 {
        0
    } else {
        queue_weight(queue.drop_last()) + queue.last().weight()
    }
}

/// No node stands before a lighter one.
pub open spec fn sorted_by_weight(queue: Seq<HuffmanNode>) -> bool {
    forall|i: int, j: int| 0 <= i < j < queue.len() ==> queue[i].weight() <= queue[j].weight()
}

/// The nodes before the slot weigh at most `w`, and the node at the slot,
/// if there is one, weighs more.
pub proof fn lemma_queue_slot_bounds(queue: Seq<HuffmanNode>, w: nat)
    ensures
        0 <= queue_slot(queue, w) <= queue.len(),
        forall|i: int| 0 <= i < queue_slot(queue, w) ==> (#[trigger] queue[i]).weight() <= w,
        queue_slot(queue, w) < queue.len() ==> queue[queue_slot(queue, w)].weight() > w,
    decreases queue.len(),
{
    if queue.len() == 0 || queue[0].weight() > w {
    } else {
        let rest = queue.drop_first();
        lemma_queue_slot_bounds(rest, w);
        assert forall|i: int| 0 <= i < queue_slot(queue, w) implies (#[trigger] queue[i]).weight()
            <= w by {
            if i > 0 {
                assert(queue[i] == rest[i - 1]);
            }
        }
        if queue_slot(queue, w) < queue.len() {
            assert(queue[queue_slot(queue, w)] == rest[queue_slot(rest, w)]);
        }
    }
}

/// A node that enters a sorted queue stands behind every node that is not
/// heavier and before every node that is heavier; the queue stays sorted.
pub proof fn lemma_enqueue_sorted(queue: Seq<HuffmanNode>, node: HuffmanNode)
    requires
        sorted_by_weight(queue),
    ensures
        sorted_by_weight(enqueue(queue, node)),
        enqueue(queue, node)[queue_slot(queue, node.weight())] == node,
        forall|i: int|
            0 <= i < queue_slot(queue, node.weight()) ==> (#[trigger] enqueue(
                queue,
                node,
            )[i]).weight() <= node.weight(),
        forall|i: int|
            queue_slot(queue, node.weight()) < i < enqueue(queue, node).len() ==> (#[trigger] enqueue(
                queue,
                node,
            )[i]).weight() > node.weight(),
{
    let w = node.weight();
    let p = queue_slot(queue, w);
    lemma_queue_slot_bounds(queue, w);
    let q = enqueue(queue, node);
    assert forall|i: int| p < i < q.len() implies (#[trigger] q[i]).weight() > w by {
        assert(q[i] == queue[i - 1]);
        if i - 1 > p {
            assert(queue[p].weight() <= queue[i - 1].weight());
        }
    }
    assert forall|i: int, j: int| 0 <= i < j < q.len() implies q[i].weight() <= q[j].weight() by {
        if i < p {
            assert(q[i] == queue[i]);
        } else if i > p {
            assert(q[i] == queue[i - 1]);
        }
        if j < p {
            assert(q[j] == queue[j]);
        } else if j > p {
            assert(q[j] == queue[j - 1]);
        }
    }
}

/// A node that enters adds its weight to that of the queue.
pub proof fn lemma_queue_weight_insert(queue: Seq<HuffmanNode>, i: int, node: HuffmanNode)
    requires
        0 <= i <= queue.len(),
    ensures
        queue_weight(queue.insert(i, node)) == queue_weight(queue) + node.weight(),
    decreases queue.len(),
{
    let q = queue.insert(i, node);
    if i == queue.len() {
        assert(q.drop_last() =~= queue);
    } else {
        assert(q.drop_last() =~= queue.drop_last().insert(i, node));
        assert(q.last() == queue.last());
        lemma_queue_weight_insert(queue.drop_last(), i, node);
    }
}

/// The queue weighs what its first node and the rest weigh together.
pub proof fn lemma_queue_weight_drop_first(queue: Seq<HuffmanNode>)
    requires
        queue.len() > 0,
    ensures
        queue_weight(queue) == queue[0].weight() + queue_weight(queue.drop_first()),
    decreases queue.len(),
{
    if queue.len() == 1 {
        assert(queue_weight(queue.drop_last()) == 0);
        assert(queue_weight(queue.drop_first()) == 0);
    } else {
        lemma_queue_weight_drop_first(queue.drop_last());
        assert(queue.drop_last().drop_first() =~= queue.drop_first().drop_last());
        assert(queue.drop_first().last() == queue.last());
    }
}

/// The leaves weigh what the counts add up to, and there is one for each
/// symbol.
pub proof fn lemma_leaf_queue(symbols: Seq<char>, counts: Seq<usize>)
    requires
        symbols.len() == counts.len(),
    ensures
        leaf_queue(symbols, counts).len() == symbols.len(),
        queue_weight(leaf_queue(symbols, counts)) == sum_counts(counts),
        sorted_by_weight(leaf_queue(symbols, counts)),
    decreases symbols.len(),
{
    if symbols.len() > 0 {
        let head = leaf_queue(symbols.drop_last(), counts.drop_last());
        let leaf = HuffmanNode::Leaf(symbols.last(), counts.last());
        lemma_leaf_queue(symbols.drop_last(), counts.drop_last());
        lemma_queue_slot_bounds(head, leaf.weight());
        lemma_queue_weight_insert(head, queue_slot(head, leaf.weight()), leaf);
        lemma_enqueue_sorted(head, leaf);
    }
}

/// The map from each of the given symbols to its count.
pub open spec fn entries_map(symbols: Seq<char>, counts: Seq<usize>) -> Map<char, nat>
    decreases symbols.len(),
{
    if symbols.len() == 0 {
        Map::empty()
    } else {
        entries_map(symbols.drop_last(), counts.drop_last()).insert(
            symbols.last(),
            counts.last() as nat,
        )
    }
}

/// The map of the entries holds the symbols, each with its count.
pub proof fn lemma_entries_map(symbols: Seq<char>, counts: Seq<usize>)
    requires
        symbols.len() == counts.len(),
        ascending(symbols),
    ensures
        forall|c: char| #[trigger] entries_map(symbols, counts).contains_key(c) <==> symbols.contains(c),
        forall|i: int|
            0 <= i < symbols.len() ==> entries_map(symbols, counts)[#[trigger] symbols[i]]
                == counts[i],
    decreases symbols.len(),
{
    if symbols.len() > 0 {
        let s0 = symbols.drop_last();
        let c0 = counts.drop_last();
        lemma_entries_map(s0, c0);
        let m0 = entries_map(s0, c0);
        assert(entries_map(symbols, counts) == m0.insert(symbols.last(), counts.last() as nat));
        assert forall|c: char| #[trigger]
            entries_map(symbols, counts).contains_key(c) <==> symbols.contains(c) by {
            if symbols.contains(c) {
                let i = choose|i: int| 0 <= i < symbols.len() && symbols[i] == c;
                if i < s0.len() {
                    assert(s0[i] == c);
                    assert(s0.contains(c));
                    assert(m0.contains_key(c));
                }
            }
            if entries_map(symbols, counts).contains_key(c) {
                if c == symbols.last() {
                    assert(symbols[symbols.len() - 1] == c);
                } else {
                    assert(m0.contains_key(c));
                    assert(s0.contains(c));
                    let i = choose|i: int| 0 <= i < s0.len() && s0[i] == c;
                    assert(symbols[i] == c);
                }
            }
        }
        assert forall|i: int| 0 <= i < symbols.len() implies entries_map(
            symbols,
            counts,
        )[#[trigger] symbols[i]] == counts[i] by {
            if i < s0.len() {
                assert(s0[i] == symbols[i]);
                assert((symbols[i] as u32) < (symbols.last() as u32));
                assert(c0[i] == counts[i]);
            }
        }
    }
}

/// A table's view is the map of its entries.
pub proof fn lemma_table_entries(table: FrequencyTable)
    requires
        table.wf(),
    ensures
        table@ == entries_map(table.symbols(), table.counts()),
{
    lemma_entries_map(table.symbols(), table.counts());
    let m = entries_map(table.symbols(), table.counts());
    assert forall|c: char| table@.contains_key(c) implies #[trigger] table@[c] == m[c] by {
        let i = table.symbols().index_of(c);
        assert(table.symbols()[i] == c);
    }
    assert(table@ =~= m);
}

/// Whether every symbol at a leaf of `node` is in `m`, with the leaf's
/// weight.
pub open spec fn within(node: HuffmanNode, m: Map<char, nat>) -> bool {
    forall|c: char| #[trigger]
        node.leaf_weights().contains_key(c) ==> m.contains_key(c) && m[c]
            == node.leaf_weights()[c]
}

/// Whether `c` stands at a leaf of the `i`-th node of the queue.
pub open spec fn held_at(queue: Seq<HuffmanNode>, i: int, c: char) -> bool {
    0 <= i < queue.len() && queue[i].leaf_weights().contains_key(c)
}

/// What holds of the queue all the while a tree is built for the map `m`:
/// the nodes are well formed, no symbol stands in two of them, their leaves
/// carry the symbols of `m` with the weights `m` gives, and their weights
/// together fit in a `usize`.
pub open spec fn covers(queue: Seq<HuffmanNode>, m: Map<char, nat>) -> bool {
    &&& forall|i: int|
        0 <= i < queue.len() ==> (#[trigger] queue[i]).well_formed()
            && within(queue[i], m)
    &&& forall|i: int, j: int|
        0 <= i < j < queue.len() ==> (#[trigger] queue[i]).symbols().disjoint(
            (#[trigger] queue[j]).symbols(),
        )
    &&& forall|c: char| #[trigger] m.contains_key(c) ==> exists|i: int| held_at(queue, i, c)
    &&& queue_weight(queue) <= usize::MAX
}

/// Merging the two nodes at the front keeps what `covers` says.
pub proof fn lemma_merge_step(queue: Seq<HuffmanNode>, m: Map<char, nat>)
    requires
        covers(queue, m),
        queue.len() >= 2,
    ensures
        covers(enqueue(queue.skip(2), merge(queue[0], queue[1])), m),
        enqueue(queue.skip(2), merge(queue[0], queue[1])).len() == queue.len() - 1,
        queue_weight(enqueue(queue.skip(2), merge(queue[0], queue[1]))) == queue_weight(queue),
        queue[0].weight() + queue[1].weight() <= queue_weight(queue),
{
    let a = queue[0];
    let b = queue[1];
    let node = merge(a, b);
    let rest = queue.skip(2);
    let p = queue_slot(rest, node.weight());
    let nq = enqueue(rest, node);
    lemma_queue_slot_bounds(rest, node.weight());
    lemma_queue_weight_drop_first(queue);
    lemma_queue_weight_drop_first(queue.drop_first());
    assert(queue.drop_first().drop_first() =~= rest);
    assert(queue.drop_first()[0] == b);
    lemma_queue_weight_insert(rest, p, node);
    assert(a.well_formed() && b.well_formed());
    assert(a.symbols().disjoint(b.symbols()));
    assert(node.well_formed());
    assert(node.leaf_weights() == a.leaf_weights().union_prefer_right(b.leaf_weights()));
    assert(within(node, m));
    assert forall|i: int| 0 <= i < nq.len() implies (#[trigger] nq[i]).well_formed()
        && within(nq[i], m) by {
        if i < p {
            assert(nq[i] == queue[i + 2]);
        } else if i > p {
            assert(nq[i] == queue[i + 1]);
        }
    }
    assert forall|i: int, j: int| 0 <= i < j < nq.len() implies (#[trigger] nq[i]).symbols().disjoint(
        (#[trigger] nq[j]).symbols(),
    ) by {
        let oi = if i < p { i + 2 } else { i + 1 };
        let oj = if j < p { j + 2 } else { j + 1 };
        if i != p && j != p {
            assert(nq[i] == queue[oi]);
            assert(nq[j] == queue[oj]);
        } else if i == p {
            assert(nq[j] == queue[oj]);
            assert(a.symbols().disjoint(queue[oj].symbols()));
            assert(b.symbols().disjoint(queue[oj].symbols()));
        } else {
            assert(nq[i] == queue[oi]);
            assert(a.symbols().disjoint(queue[oi].symbols()));
            assert(b.symbols().disjoint(queue[oi].symbols()));
        }
    }
    assert forall|c: char| #[trigger] m.contains_key(c) implies exists|i: int|
        held_at(nq, i, c) by {
        let i = choose|i: int| held_at(queue, i, c);
        if i < 2 {
            assert(held_at(nq, p, c));
        } else if i - 2 < p {
            assert(nq[i - 2] == queue[i]);
            assert(held_at(nq, i - 2, c));
        } else {
            assert(nq[i - 1] == queue[i]);
            assert(held_at(nq, i - 1, c));
        }
    }
}

/// The tree that is left carries the symbols of `m` with their weights, is
/// well formed, and weighs what the queue weighed.
pub proof fn lemma_merge_all(queue: Seq<HuffmanNode>, m: Map<char, nat>)
    requires
        covers(queue, m),
        queue.len() >= 1,
    ensures
        merge_all(queue).well_formed(),
        merge_all(queue).leaf_weights() == m,
        merge_all(queue).weight() == queue_weight(queue),
        queue.len() >= 2 ==> merge_all(queue) is Internal,
        queue.len() == 1 ==> merge_all(queue) == queue[0],
    decreases queue.len(),
{
    if queue.len() == 1 {
        let t = queue[0];
        assert(queue_weight(queue.drop_last()) == 0);
        assert(within(t, m));
        assert forall|c: char| #[trigger] m.contains_key(c) implies t.leaf_weights().contains_key(
            c,
        ) by {
            let i = choose|i: int| held_at(queue, i, c);
            assert(held_at(queue, i, c));
        }
        assert(t.leaf_weights() =~= m);
    } else {
        lemma_merge_step(queue, m);
        let node = merge(queue[0], queue[1]);
        let nq = enqueue(queue.skip(2), node);
        lemma_merge_all(nq, m);
        if nq.len() == 1 {
            lemma_queue_slot_bounds(queue.skip(2), node.weight());
            assert(nq[0] == node);
        }
    }
}

/// A leaf that enters the queue for a new symbol keeps what `covers` says,
/// for the map extended by that symbol.
pub proof fn lemma_leaf_step(queue: Seq<HuffmanNode>, m: Map<char, nat>, c: char, n: usize)
    requires
        covers(queue, m),
        !m.contains_key(c),
        queue_weight(queue) + n <= usize::MAX,
    ensures
        covers(enqueue(queue, HuffmanNode::Leaf(c, n)), m.insert(c, n as nat)),
{
    let leaf = HuffmanNode::Leaf(c, n);
    let p = queue_slot(queue, leaf.weight());
    let nq = enqueue(queue, leaf);
    let m1 = m.insert(c, n as nat);
    lemma_queue_slot_bounds(queue, leaf.weight());
    lemma_queue_weight_insert(queue, p, leaf);
    assert(leaf.leaf_weights() =~= Map::<char, nat>::empty().insert(c, n as nat));
    assert(within(leaf, m1));
    assert forall|i: int| 0 <= i < nq.len() implies (#[trigger] nq[i]).well_formed()
        && within(nq[i], m1) by {
        let oi = if i < p { i } else { i - 1 };
        if i != p {
            assert(nq[i] == queue[oi]);
            assert(within(queue[oi], m));
        }
    }
    assert forall|i: int, j: int| 0 <= i < j < nq.len() implies (#[trigger] nq[i]).symbols().disjoint(
        (#[trigger] nq[j]).symbols(),
    ) by {
        let oi = if i < p { i } else { i - 1 };
        let oj = if j < p { j } else { j - 1 };
        if i != p && j != p {
            assert(nq[i] == queue[oi]);
            assert(nq[j] == queue[oj]);
        } else if i == p {
            assert(nq[j] == queue[oj]);
            assert(within(queue[oj], m));
        } else {
            assert(nq[i] == queue[oi]);
            assert(within(queue[oi], m));
        }
    }
    assert forall|x: char| #[trigger] m1.contains_key(x) implies exists|i: int|
        held_at(nq, i, x) by {
        if x == c {
            assert(held_at(nq, p, x));
        } else {
            assert(m.contains_key(x));
            let i = choose|i: int| held_at(queue, i, x);
            if i < p {
                assert(nq[i] == queue[i]);
                assert(held_at(nq, i, x));
            } else {
                assert(nq[i + 1] == queue[i]);
                assert(held_at(nq, i + 1, x));
            }
        }
    }
}

/// The queue of leaves covers the map of the entries.
pub proof fn lemma_leaf_queue_covers(symbols: Seq<char>, counts: Seq<usize>)
    requires
        symbols.len() == counts.len(),
        ascending(symbols),
        sum_counts(counts) <= usize::MAX,
    ensures
        covers(leaf_queue(symbols, counts), entries_map(symbols, counts)),
    decreases symbols.len(),
{
    lemma_leaf_queue(symbols, counts);
    if symbols.len() > 0 {
        let s0 = symbols.drop_last();
        let c0 = counts.drop_last();
        lemma_leaf_queue_covers(s0, c0);
        lemma_leaf_queue(s0, c0);
        lemma_entries_map(s0, c0);
        assert(!entries_map(s0, c0).contains_key(symbols.last())) by {
            if s0.contains(symbols.last()) {
                let i = choose|i: int| 0 <= i < s0.len() && s0[i] == symbols.last();
                assert((symbols[i] as u32) < (symbols.last() as u32));
            }
        }
        lemma_leaf_step(leaf_queue(s0, c0), entries_map(s0, c0), symbols.last(), counts.last());
    }
}

/// The tree of a table is well formed, has the table's symbols at its
/// leaves, each with its count as weight, and weighs what the counts add up
/// to. With two symbols or more its root is an internal node; with one, it
/// is that symbol's leaf.
pub proof fn lemma_build(table: FrequencyTable)
    requires
        table.wf(),
        table.spec_len() >= 1,
    ensures
        build_spec(table.symbols(), table.counts()).well_formed(),
        build_spec(table.symbols(), table.counts()).leaf_weights() == table@,
        build_spec(table.symbols(), table.counts()).symbols() == table@.dom(),
        build_spec(table.symbols(), table.counts()).weight() == table.spec_total(),
        table.spec_len() >= 2 ==> build_spec(table.symbols(), table.counts()) is Internal,
        table.spec_len() == 1 ==> build_spec(table.symbols(), table.counts()) == HuffmanNode::Leaf(
            table.symbols()[0],
            table.counts()[0],
        ),
{
    let symbols = table.symbols();
    let counts = table.counts();
    lemma_leaf_queue(symbols, counts);
    lemma_leaf_queue_covers(symbols, counts);
    lemma_table_entries(table);
    lemma_merge_all(leaf_queue(symbols, counts), table@);
    if symbols.len() == 1 {
        lemma_single_leaf(symbols, counts);
    }
}

/// The queue for one symbol holds that symbol's leaf.
proof fn lemma_single_leaf(symbols: Seq<char>, counts: Seq<usize>)
    requires
        symbols.len() == 1,
        counts.len() == 1,
    ensures
        leaf_queue(symbols, counts).len() == 1,
        leaf_queue(symbols, counts)[0] == HuffmanNode::Leaf(symbols[0], counts[0]),
{
    let leaf = HuffmanNode::Leaf(symbols.last(), counts.last());
    let q0 = leaf_queue(symbols.drop_last(), counts.drop_last());
    lemma_leaf_queue(symbols.drop_last(), counts.drop_last());
    lemma_leaf_queue(symbols, counts);
    lemma_queue_slot_bounds(q0, leaf.weight());
    lemma_enqueue_sorted(q0, leaf);
}

/// The number of nodes at the front of `queue` that weigh at most `w`.
fn slot(queue: &Vec<HuffmanNode>, w: usize) -> (p: usize)
    ensures
        p == queue_slot(queue@, w as nat),
        p <= queue.len(),
{
    let mut p: usize = 0;
    assert(queue@.skip(0) =~= queue@);
    while p < queue.len() && queue[p].weight_of() <= w
        invariant
            p <= queue.len(),
            queue_slot(queue@, w as nat) == p + queue_slot(queue@.skip(p as int), w as nat),
        decreases queue.len() - p,
    {
        proof {
            let tail = queue@.skip(p as int);
            assert(tail[0] == queue@[p as int]);
            assert(tail.drop_first() =~= queue@.skip(p + 1));
        }
        p += 1;
    }
    proof {
        let tail = queue@.skip(p as int);
        if p < queue.len() {
            assert(tail[0] == queue@[p as int]);
        }
        assert(queue@.skip(0) =~= queue@);
    }
    p
}

/// Builds the code tree of a table.
///
/// Fails on the empty table only. A table of one symbol gives that symbol's
/// leaf.
pub fn build_tree(table: &FrequencyTable) -> (r: Result<HuffmanNode, TreeError>)
    ensures
        table.wf(),
        table.spec_len() == 0 <==> r is Err,
        r is Err ==> r->Err_0 == TreeError::EmptyAlphabet,
        r is Ok ==> r->Ok_0 == build_spec(table.symbols(), table.counts()),
        r is Ok ==> r->Ok_0.well_formed() && r->Ok_0.leaf_weights() == table@,
{
    let total = table.total();
    let n = table.len();
    if n == 0 {
        return Err(TreeError::EmptyAlphabet);
    }
    let ghost symbols = table.symbols();
    let ghost counts = table.counts();
    let mut queue: Vec<HuffmanNode> = Vec::new();
    let mut i: usize = 0;
    while i < n
        invariant
            i <= n,
            n == symbols.len(),
            symbols == table.symbols(),
            counts == table.counts(),
            symbols.len() == counts.len(),
            queue@ == leaf_queue(symbols.take(i as int), counts.take(i as int)),
        decreases n - i,
    {
        let (c, w) = table.entry(i);
        let p = slot(&queue, w);
        proof {
            assert(symbols.take(i + 1).drop_last() == symbols.take(i as int));
            assert(counts.take(i + 1).drop_last() == counts.take(i as int));
        }
        queue.insert(p, HuffmanNode::Leaf(c, w));
        i += 1;
    }
    proof {
        assert(symbols.take(n as int) == symbols);
        assert(counts.take(n as int) == counts);
        lemma_leaf_queue(symbols, counts);
        lemma_leaf_queue_covers(symbols, counts);
        lemma_build(*table);
    }
    let ghost m = entries_map(symbols, counts);
    while queue.len() > 1
        invariant
            queue.len() >= 1,
            covers(queue@, m),
            merge_all(queue@) == build_spec(symbols, counts),
        decreases queue.len(),
    {
        proof {
            lemma_merge_step(queue@, m);
        }
        let ghost before = queue@;
        let left = queue.remove(0);
        let right = queue.remove(0);
        assert(queue@ =~= before.skip(2));
        let w: usize = left.weight_of() + right.weight_of();
        let p = slot(&queue, w);
        queue.insert(p, HuffmanNode::Internal(w, Box::new(left), Box::new(right)));
    }
    let root = queue.remove(0);
    Ok(root)
}

} // verus!
