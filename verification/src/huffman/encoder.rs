//! The encoder: from symbols and a code table to packed bytes.

use crate::huffman::bits::{bits_value, chunk, flag, lemma_bits_value_bound, pack, packed_len, padding_of};
use crate::huffman::codes::CodeTable;
use crate::huffman::tree::TreeError;
use crate::text::chars_of;
use vstd::prelude::*;

verus! {

/// Packed bytes and the number of filler bits in the last of them.
#[derive(Debug, Default)]
pub struct EncodingResult {
    pub data: Vec<u8>,
    pub padding: Option<u8>,
}

impl EncodingResult {
    /// No bytes yet, and the padding not known yet.
    pub fn new() -> (r: Self)
        ensures
            r.data@ == Seq::<u8>::empty(),
            r.padding is None,
    {
        EncodingResult { data: Vec::new(), padding: None }
    }
}

/// Why an input cannot be encoded.
#[derive(Debug, Clone, Copy, PartialEq, Eq)]
pub enum EncodingError {
    /// The input holds a symbol that has no code.
    UnknownCharacter(char),
    /// The input is empty, so that there is no symbol to give a code to.
    EmptyAlphabet,
    /// The input holds one symbol only, whose code would be empty, or a
    /// symbol of it has the empty bit string for its code.
    DegenerateAlphabet,
}

impl EncodingError {
    /// The error that stands for a failure to make the code tree.
    pub fn from_tree_error(e: TreeError) -> (r: Self)
        ensures
            r == match e {
                TreeError::EmptyAlphabet => EncodingError::EmptyAlphabet,
                TreeError::DegenerateAlphabet => EncodingError::DegenerateAlphabet,
            },
    {
        match e {
            TreeError::EmptyAlphabet => EncodingError::EmptyAlphabet,
            TreeError::DegenerateAlphabet => EncodingError::DegenerateAlphabet,
        }
    }
}

/// The codes of the symbols of `input`, one behind the other.
pub open spec fn encode_bits(input: Seq<char>, codes: Map<char, Seq<bool>>) -> Seq<bool>
    decreases input.len(),
{
    if input.len() == 0 {
        Seq::empty()
    } else {
        encode_bits(input.drop_last(), codes) + codes[input.last()]
    }
}

/// Whether `c` has a code of one bit at least. The empty bit string, which
/// is what a tree of one leaf gives its symbol, is no code.
pub open spec fn has_code(codes: Map<char, Seq<bool>>, c: char) -> bool {
    codes.contains_key(c) && codes[c].len() > 0
}

/// Whether every symbol of `input` has a code.
pub open spec fn all_known(input: Seq<char>, codes: Map<char, Seq<bool>>) -> bool {
    forall|i: int| 0 <= i < input.len() ==> has_code(codes, #[trigger] input[i])
}

/// Whether `input[i]` is the first symbol of `input` that has no code.
pub open spec fn first_unknown_at(input: Seq<char>, codes: Map<char, Seq<bool>>, i: int) -> bool {
    &&& 0 <= i < input.len()
    &&& !has_code(codes, input[i])
    &&& forall|j: int| 0 <= j < i ==> has_code(codes, #[trigger] input[j])
}

/// The error for a symbol that has no code: `UnknownCharacter` where the
/// table does not hold the symbol, `DegenerateAlphabet` where it holds the
/// symbol with the empty bit string.
pub open spec fn code_error(codes: Map<char, Seq<bool>>, c: char) -> EncodingError {
    if codes.contains_key(c) {
        EncodingError::DegenerateAlphabet
    } else {
        EncodingError::UnknownCharacter(c)
    }
}

/// The codes of `input` can also be read from the front.
pub proof fn lemma_encode_bits_first(input: Seq<char>, codes: Map<char, Seq<bool>>)
    requires
        input.len() > 0,
    ensures
        encode_bits(input, codes) == codes[input[0]] + encode_bits(input.drop_first(), codes),
    decreases input.len(),
{
    if input.len() == 1 {
        assert(input.drop_last().len() == 0);
        assert(input.drop_first().len() == 0);
        assert(encode_bits(input.drop_last(), codes) == Seq::<bool>::empty());
        assert(encode_bits(input.drop_first(), codes) == Seq::<bool>::empty());
        assert(Seq::<bool>::empty() + codes[input.last()] =~= codes[input[0]] + Seq::<bool>::empty());
    } else {
        let head = input.drop_last();
        lemma_encode_bits_first(head, codes);
        assert(head.drop_first() =~= input.drop_first().drop_last());
        assert(head[0] == input[0]);
        assert(input.drop_first().last() == input.last());
        assert((codes[input[0]] + encode_bits(head.drop_first(), codes)) + codes[input.last()]
            =~= codes[input[0]] + (encode_bits(head.drop_first(), codes) + codes[input.last()]));
    }
}

/// Collects bits into bytes, most significant bit first.
struct BitWriter {
    data: Vec<u8>,
    current_byte: u8,
    remaining_bits: u8,
    bits: Ghost<Seq<bool>>,
}

impl BitWriter {
    /// The bits written so far.
    closed spec fn view(&self) -> Seq<bool> {
        self.bits@
    }

    /// The bits that wait for their byte to fill up.
    closed spec fn pending(&self) -> Seq<bool> {
        self.bits@.subrange(8 * (self.bits@.len() as int / 8), self.bits@.len() as int)
    }

    closed spec fn wf(&self) -> bool {
        let n = self.bits@.len();
        &&& self.remaining_bits == 8 - n % 8
        &&& self.data@.len() == n / 8
        &&& forall|b: int|
            0 <= b < n / 8 ==> #[trigger] self.data@[b] == bits_value(chunk(self.bits@, b)) as u8
        &&& self.current_byte == bits_value(self.pending())
    }

    fn new() -> (w: Self)
        ensures
            w.wf(),
            w@ == Seq::<bool>::empty(),
    {
        let w = BitWriter {
            data: Vec::new(),
            current_byte: 0,
            remaining_bits: 8,
            bits: Ghost(Seq::empty()),
        };
        assert(w.pending() =~= Seq::<bool>::empty());
        w
    }

    fn push(&mut self, bit: bool)
        requires
            old(self).wf(),
        ensures
            final(self).wf(),
            final(self)@ == old(self)@.push(bit),
    {
        let ghost before = self.bits@;
        let ghost n = before.len() as int;
        let ghost window = self.pending();
        let ghost after = before.push(bit);
        proof {
            lemma_bits_value_bound(window);
            vstd::arithmetic::power2::lemma2_to64();
            if window.len() < 7 {
                vstd::arithmetic::power2::lemma_pow2_strictly_increases(window.len(), 7);
            }
        }
        let bit_value: u8 = if bit { 1 } else { 0 };
        let current = self.current_byte;
        assert(current < 128);
        let next: u8 = (current << 1) | bit_value;
        assert(next == 2 * current + bit_value) by (bit_vector)
            requires
                current < 128,
                bit_value <= 1,
                next == (current << 1u8) | bit_value,
        ;
        self.bits = Ghost(after);
        proof {
            let grown = after.subrange(8 * (n / 8), n + 1);
            assert(grown.drop_last() =~= window);
            assert(grown.last() == bit);
            assert(bits_value(grown) == 2 * bits_value(window) + flag(bit));
            assert forall|b: int| 0 <= b < n / 8 implies chunk(after, b) == chunk(before, b) by {
                assert(chunk(after, b) =~= chunk(before, b));
            }
            if n % 8 == 7 {
                assert(chunk(after, n / 8) =~= grown);
                assert((n + 1) / 8 == n / 8 + 1);
                assert(after.subrange(8 * ((n + 1) / 8), n + 1) =~= Seq::<bool>::empty());
            } else {
                assert((n + 1) / 8 == n / 8);
            }
        }
        self.remaining_bits = self.remaining_bits - 1;
        if self.remaining_bits == 0 {
            self.data.push(next);
            self.current_byte = 0;
            self.remaining_bits = 8;
        } else {
            self.current_byte = next;
        }
    }

    /// The bytes for the bits written, and the number of filler bits.
    fn finish(self) -> (r: (Vec<u8>, u8))
        requires
            self.wf(),
        ensures
            r.0@ == pack(self@),
            r.1 == padding_of(self@.len()),
    {
        let ghost bits = self.bits@;
        let ghost n = bits.len() as int;
        let BitWriter { mut data, current_byte, remaining_bits, bits: _ } = self;
        if remaining_bits == 8 {
            proof {
                assert(packed_len(n as nat) == n / 8);
                assert(data@ =~= pack(bits));
            }
            return (data, 0);
        }
        let mut current: u8 = current_byte;
        let mut left: u8 = remaining_bits;
        let ghost window = bits.subrange(8 * (n / 8), n);
        let ghost mut filled = window;
        while left > 0
            invariant
                left <= 7,
                filled.len() == 8 - left,
                current == bits_value(filled),
                window.len() == n % 8,
                window.len() <= filled.len(),
                forall|k: int| 0 <= k < window.len() ==> filled[k] == window[k],
                forall|k: int| window.len() <= k < filled.len() ==> !filled[k],
            decreases left,
        {
            proof {
                lemma_bits_value_bound(filled);
                vstd::arithmetic::power2::lemma2_to64();
                if filled.len() < 7 {
                    vstd::arithmetic::power2::lemma_pow2_strictly_increases(filled.len(), 7);
                }
            }
            assert(current < 128);
            let next: u8 = current << 1;
            assert(next == 2 * current) by (bit_vector)
                requires
                    current < 128,
                    next == current << 1u8,
            ;
            proof {
                let grown = filled.push(false);
                assert(grown.drop_last() =~= filled);
                filled = grown;
            }
            current = next;
            left = left - 1;
        }
        proof {
            assert(filled =~= chunk(bits, n / 8));
            assert(packed_len(n as nat) == n / 8 + 1);
        }
        data.push(current);
        assert(data@ =~= pack(bits));
        (data, remaining_bits)
    }
}

/// Encodes `text` with the codes of `mapping`.
///
/// Fails on the first symbol of the text that has no code of one bit at
/// least: with `UnknownCharacter` where the table does not hold the symbol,
/// and with `DegenerateAlphabet` where it holds it with the empty bit
/// string, as the table of a one-symbol alphabet does. Otherwise the result
/// holds the codes of the symbols, one behind the other, packed into bytes
/// with zero bits behind them up to the next full byte, and the number of
/// those filler bits, which is at most 7.
pub fn encode(text: &str, mapping: &CodeTable) -> (r: Result<EncodingResult, EncodingError>)
    ensures
        r is Ok <==> all_known(text@, mapping@),
        r is Ok ==> r->Ok_0.data@ == pack(encode_bits(text@, mapping@)) && r->Ok_0.padding == Some(
            padding_of(encode_bits(text@, mapping@).len()) as u8,
        ),
        r is Ok ==> 8 * r->Ok_0.data@.len() == encode_bits(text@, mapping@).len() + padding_of(
            encode_bits(text@, mapping@).len(),
        ) && padding_of(encode_bits(text@, mapping@).len()) <= 7,
        r is Err ==> exists|i: int|
            first_unknown_at(text@, mapping@, i) && r->Err_0 == code_error(mapping@, text@[i]),
{
    let input = chars_of(text);
    let mut writer = BitWriter::new();
    let mut i: usize = 0;
    while i < input.len()
        invariant
            i <= input.len(),
            input@ == text@,
            writer.wf(),
            writer@ == encode_bits(input@.take(i as int), mapping@),
            all_known(input@.take(i as int), mapping@),
        decreases input.len() - i,
    {
        let c = input[i];
        proof {
            assert(input@.take(i + 1).drop_last() == input@.take(i as int));
        }
        match mapping.get(c) {
            Some(code) => {
                if code.len() == 0 {
                    proof {
                        assert forall|k: int| 0 <= k < i implies has_code(
                            mapping@,
                            #[trigger] text@[k],
                        ) by {
                            assert(input@.take(i as int)[k] == text@[k]);
                        }
                        assert(first_unknown_at(text@, mapping@, i as int));
                    }
                    return Err(EncodingError::DegenerateAlphabet);
                }
                let ghost start = writer@;
                let mut j: usize = 0;
                while j < code.len()
                    invariant
                        j <= code.len(),
                        writer.wf(),
                        writer@ == start + code@.take(j as int),
                    decreases code.len() - j,
                {
                    writer.push(code[j]);
                    proof {
                        assert(start + code@.take(j + 1) =~= (start + code@.take(j as int)).push(
                            code@[j as int],
                        ));
                    }
                    j += 1;
                }
                proof {
                    assert(code@.take(code.len() as int) == code@);
                    let next = input@.take(i + 1);
                    assert forall|k: int| 0 <= k < next.len() implies has_code(
                        mapping@,
                        #[trigger] next[k],
                    ) by {
                        if k < i {
                            assert(input@.take(i as int)[k] == next[k]);
                        }
                    }
                }
            },
            None => {
                proof {
                    assert forall|k: int| 0 <= k < i implies has_code(
                        mapping@,
                        #[trigger] text@[k],
                    ) by {
                        assert(input@.take(i as int)[k] == text@[k]);
                    }
                    assert(first_unknown_at(text@, mapping@, i as int));
                }
                return Err(EncodingError::UnknownCharacter(c));
            },
        }
        i += 1;
    }
    proof {
        assert(input@.take(input.len() as int) == input@);
        crate::huffman::bits::lemma_pack_round_trip(writer@);
    }
    let (data, padding) = writer.finish();
    Ok(EncodingResult { data, padding: Some(padding) })
}

} // verus!
