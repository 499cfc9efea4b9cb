//! The Huffman codec: frequency tables, the code tree, bit packing and the
//! self-describing file header.

pub mod bits;
pub mod codes;
pub mod counter;
pub mod decoder;
pub mod encoder;
pub mod header;
pub mod image;
pub mod laws;
pub mod symbol_map;
pub mod table;
pub mod tree;

pub use crate::huffman::codes::CodeTable;
pub use crate::huffman::table::FrequencyTable;
pub use crate::huffman::tree::{HuffmanNode, TreeError};
use crate::huffman::codes::{assign, code_map, lemma_code_not_empty};
use crate::huffman::tree::{build_spec, build_tree, lemma_build};
use vstd::prelude::*;

verus! {

/// The code of a frequency table.
#[derive(Debug)]
pub struct HuffmanTree {
    counts: FrequencyTable,
}

impl HuffmanTree {
    /// The table that the code is made for.
    pub closed spec fn table(&self) -> FrequencyTable {
        self.counts
    }

    /// The code tree of the table.
    pub open spec fn tree(&self) -> HuffmanNode {
        build_spec(self.table().symbols(), self.table().counts())
    }

    /// The code of `counts`.
    pub fn new(counts: FrequencyTable) -> (t: Self)
        ensures
            t.table() == counts,
    {
        HuffmanTree { counts }
    }

    /// Builds the code tree.
    ///
    /// Fails on the empty table only; a table of one symbol gives that
    /// symbol's leaf. In the tree every internal node weighs what its two
    /// children weigh together, and the leaves carry the symbols of the
    /// table, each once, with its count as weight.
    pub fn build_tree(&self) -> (r: Result<HuffmanNode, TreeError>)
        ensures
            self.table().wf(),
            r is Err <==> self.table().spec_len() == 0,
            r is Err ==> r->Err_0 == TreeError::EmptyAlphabet,
            r is Ok ==> r->Ok_0 == self.tree(),
            r is Ok ==> r->Ok_0.well_formed() && r->Ok_0.leaf_weights() == self.table()@,
    {
        build_tree(&self.counts)
    }

    /// The code of every symbol of the table.
    ///
    /// Fails with `EmptyAlphabet` on the empty table and with
    /// `DegenerateAlphabet` on a table of one symbol, whose code would be
    /// the empty bit string. Every code that is handed out has one bit at
    /// least.
    pub fn get_huffman_codes(&self) -> (r: Result<CodeTable, TreeError>)
        ensures
            self.table().wf(),
            self.table().spec_len() == 0 <==> r == Err::<CodeTable, TreeError>(
                TreeError::EmptyAlphabet,
            ),
            self.table().spec_len() == 1 <==> r == Err::<CodeTable, TreeError>(
                TreeError::DegenerateAlphabet,
            ),
            self.table().spec_len() >= 2 <==> r is Ok,
            r is Ok ==> r->Ok_0@ == code_map(self.tree()),
            r is Ok ==> r->Ok_0@.dom() == self.table()@.dom(),
            r is Ok ==> forall|c: char| #[trigger]
                r->Ok_0@.contains_key(c) ==> r->Ok_0@[c].len() >= 1,
    {
        let root = match build_tree(&self.counts) {
            Ok(root) => root,
            Err(e) => {
                return Err(e);
            },
        };
        if self.counts.len() == 1 {
            return Err(TreeError::DegenerateAlphabet);
        }
        proof {
            lemma_build(self.counts);
            assert(code_map(root).dom() =~= root.symbols());
            assert forall|c: char| #[trigger] code_map(root).contains_key(c) implies code_map(
                root,
            )[c].len() >= 1 by {
                lemma_code_not_empty(root, c);
            }
        }
        Ok(assign(&root))
    }
}

} // verus!
