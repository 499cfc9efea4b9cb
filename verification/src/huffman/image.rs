//! The file image: the header line and the payload, as bytes.
//!
//! An image begins with 32 binary digits, which give the number of bytes of
//! the header text. The header text follows, in UTF-8, and behind it the
//! packed codes of the symbols.

use crate::huffman::bits::{lemma_pack_round_trip, pack, padding_of};
use crate::huffman::codes::code_map;
use crate::huffman::counter::{count_map, count_symbols};
use crate::huffman::decoder::{decode, decode_spec, get_table_padding, DecodeError};
use crate::huffman::encoder::{all_known, encode, encode_bits, has_code, EncodingError};
use crate::huffman::header::{
    all_binary, binary_digits, binary_value, content_spec, header_text, law_header_round_trip,
    lemma_binary_round_trip, lemma_header_fits, pairs_of, write_header_line,
};
use crate::huffman::laws::{law_round_trip, law_same_table_same_tree};
use crate::huffman::table::{pairs_map, FrequencyTable};
use crate::huffman::tree::build_spec;
use crate::huffman::HuffmanTree;
use crate::text::{lemma_utf8_concat, utf8_len};
use vstd::prelude::*;
use vstd::slice::slice_subrange;
use vstd::string::{StrSliceExecFns, StringSliceAdditionalSpecFns};
use vstd::utf8::{decode_utf8, encode_utf8, valid_utf8};

verus! {

/// The text that the bytes are in UTF-8, if they are any.
///
/// Trusted: `std::str::from_utf8` of the standard library, which gives the
/// string slice over the bytes exactly when they are well-formed UTF-8.
#[verifier::external_body]
fn utf8_text(bytes: &[u8]) -> (r: Option<&str>)
    ensures
        r is Some <==> valid_utf8(bytes@),
        r is Some ==> r->0.spec_bytes() == bytes@,
{
    match std::str::from_utf8(bytes) {
        Ok(s) => Some(s),
        Err(_) => None,
    }
}

/// The well-formed table that stands for a map.
pub open spec fn table_for(m: Map<char, nat>) -> FrequencyTable {
    choose|t: FrequencyTable| t.wf() && t@ == m
}

/// Every well-formed table is the table for its map, as far as symbols and
/// counts go.
pub proof fn lemma_table_for(table: FrequencyTable)
    requires
        table.wf(),
    ensures
        table_for(table@).wf(),
        table_for(table@)@ == table@,
        table_for(table@).symbols() == table.symbols(),
        table_for(table@).counts() == table.counts(),
{
    law_same_table_same_tree(table_for(table@), table);
}

/// The image of `text`, encoded with the code of the table with the given
/// symbols and counts.
pub open spec fn image_bytes(symbols: Seq<char>, counts: Seq<usize>, text: Seq<char>) -> Seq<u8> {
    let bits = encode_bits(text, code_map(build_spec(symbols, counts)));
    let header = header_text(symbols, counts, padding_of(bits.len()) as u8);
    encode_utf8(binary_digits(utf8_len(header), 32) + header) + pack(bits)
}

/// What `encode_image` returns for a text.
pub open spec fn encode_image_spec(text: Seq<char>) -> Result<Seq<u8>, EncodingError> {
    let table = table_for(count_map(text));
    if text.len() == 0 {
        Err(EncodingError::EmptyAlphabet)
    } else if table.symbols().len() == 1 {
        Err(EncodingError::DegenerateAlphabet)
    } else {
        Ok(image_bytes(table.symbols(), table.counts(), text))
    }
}

/// Encodes a text as a file image: its own frequency table and the padding
/// in the header line, and its packed codes behind.
///
/// Fails with `EmptyAlphabet` on the empty text and with
/// `DegenerateAlphabet` on a text of one symbol, repeated or not.
pub fn encode_image(text: &str) -> (r: Result<Vec<u8>, EncodingError>)
    ensures
        r is Ok ==> encode_image_spec(text@) == Ok::<Seq<u8>, EncodingError>(r->Ok_0@),
        r is Err ==> encode_image_spec(text@) == Err::<Seq<u8>, EncodingError>(r->Err_0),
{
    let counts = count_symbols(text);
    proof {
        lemma_table_for(counts);
        counts.lemma_dom();
        if text@.len() > 0 {
            assert(text@.contains(text@[0]));
            assert(counts@.contains_key(text@[0]));
        } else {
            if counts.symbols().len() > 0 {
                counts.lemma_entry(0);
                assert(text@.contains(counts.symbols()[0]));
            }
        }
    }
    let tree = HuffmanTree::new(counts.clone());
    let codes = match tree.get_huffman_codes() {
        Ok(codes) => codes,
        Err(e) => {
            return Err(EncodingError::from_tree_error(e));
        },
    };
    proof {
        assert(tree.table().symbols() == counts.symbols());
        assert(all_known(text@, codes@)) by {
            assert forall|i: int| 0 <= i < text@.len() implies has_code(
                codes@,
                #[trigger] text@[i],
            ) by {
                assert(text@.contains(text@[i]));
                assert(counts@.contains_key(text@[i]));
                assert(codes@.contains_key(text@[i]));
            }
        }
    }
    let encoded = match encode(text, &codes) {
        Ok(encoded) => encoded,
        Err(e) => {
            return Err(e);
        },
    };
    let padding: u8 = match encoded.padding {
        Some(p) => p,
        None => 0,
    };
    let line = write_header_line(&counts, padding);
    let mut image = line.as_str().as_bytes_vec();
    append_bytes(&mut image, &encoded.data);
    Ok(image)
}

/// Appends the bytes of `tail` to `v`.
fn append_bytes(v: &mut Vec<u8>, tail: &Vec<u8>)
    ensures
        final(v)@ == old(v)@ + tail@,
{
    let mut i: usize = 0;
    while i < tail.len()
        invariant
            i <= tail.len(),
            v@ == old(v)@ + tail@.take(i as int),
        decreases tail.len() - i,
    {
        v.push(tail[i]);
        i += 1;
    }
    assert(tail@.take(tail.len() as int) == tail@);
}

/// The first 32 bytes of an image as characters.
pub open spec fn prefix_chars(image: Seq<u8>) -> Seq<char> {
    Seq::new(32, |i: int| image[i] as char)
}

/// What `decode_image` returns for an image.
///
/// The image is an `InvalidHeader` where it does not begin with 32 binary
/// digits, is shorter than they say, or the bytes of the header text are
/// not UTF-8. Otherwise the header text is read, and the bytes behind it
/// are decoded with the table and the padding that it holds.
pub open spec fn decode_image_spec(image: Seq<u8>) -> Result<Seq<char>, DecodeError> {
    let n = binary_value(prefix_chars(image)) as int;
    let header = image.subrange(32, 32 + n);
    if image.len() < 32 || !all_binary(prefix_chars(image)) || image.len() < 32 + n || !valid_utf8(
        header,
    ) {
        Err(DecodeError::InvalidHeader)
    } else {
        match content_spec(decode_utf8(header)) {
            Err(e) => Err(e),
            Ok((pairs, padding)) => {
                let table = table_for(pairs_map(pairs));
                decode_spec(table.symbols(), table.counts(), image.skip(32 + n), padding)
            },
        }
    }
}

/// Decodes a file image.
///
/// Fails as `get_table_padding` does on the header text and as `decode`
/// does on the payload, and with `InvalidHeader` where the image does not
/// begin with 32 binary digits, is shorter than they say, or the bytes of
/// the header text are not UTF-8.
pub fn decode_image(image: &[u8]) -> (r: Result<String, DecodeError>)
    ensures
        r is Ok ==> decode_image_spec(image@) == Ok::<Seq<char>, DecodeError>(r->Ok_0@),
        r is Err ==> decode_image_spec(image@) == Err::<Seq<char>, DecodeError>(r->Err_0),
{
    if image.len() < 32 {
        return Err(DecodeError::InvalidHeader);
    }
    let ghost digits = prefix_chars(image@);
    let mut length: u64 = 0;
    let mut i: usize = 0;
    proof {
        vstd::arithmetic::power2::lemma2_to64();
    }
    while i < 32
        invariant
            i <= 32 <= image.len(),
            digits == prefix_chars(image@),
            all_binary(digits.take(i as int)),
            length == binary_value(digits.take(i as int)),
            length < vstd::arithmetic::power2::pow2(i as nat),
        decreases 32 - i,
    {
        let b: u8 = image[i];
        proof {
            vstd::arithmetic::power2::lemma2_to64();
            vstd::arithmetic::power2::lemma_pow2_unfold((i + 1) as nat);
            if i < 31 {
                vstd::arithmetic::power2::lemma_pow2_strictly_increases((i + 1) as nat, 32);
            }
            if i > 0 {
                vstd::arithmetic::power2::lemma_pow2_strictly_increases(i as nat, 32);
            }
            let next = digits.take(i + 1);
            assert(next.drop_last() =~= digits.take(i as int));
            assert(next.last() == b as char);
            assert((b as char) as u32 == b as u32);
            if b == 48 {
                crate::text::lemma_code_point_injective(b as char, '0');
            }
            if b == 49 {
                crate::text::lemma_code_point_injective(b as char, '1');
            }
        }
        if b != 48 && b != 49 {
            proof {
                assert(digits[i as int] == b as char);
                assert(!all_binary(digits));
            }
            return Err(DecodeError::InvalidHeader);
        }
        let bit: u64 = if b == 49 {
            1
        } else {
            0
        };
        length = 2 * length + bit;
        i += 1;
        proof {
            let next = digits.take(i as int);
            assert forall|k: int| 0 <= k < next.len() implies (#[trigger] next[k] == '0' || next[k]
                == '1') by {
                if k < i - 1 {
                    assert(next[k] == digits.take(i - 1)[k]);
                }
            }
        }
    }
    proof {
        assert(digits.take(32) =~= digits);
        vstd::arithmetic::power2::lemma2_to64();
    }
    if ((image.len() - 32) as u64) < length {
        return Err(DecodeError::InvalidHeader);
    }
    let n: usize = length as usize;
    let header_bytes = slice_subrange(image, 32, 32 + n);
    let header = match utf8_text(header_bytes) {
        Some(header) => header,
        None => {
            return Err(DecodeError::InvalidHeader);
        },
    };
    proof {
        vstd::utf8::encode_utf8_decode_utf8(header@);
    }
    let (table, padding) = match get_table_padding(header) {
        Ok(found) => found,
        Err(e) => {
            return Err(e);
        },
    };
    proof {
        lemma_table_for(table);
    }
    let payload = slice_subrange(image, 32 + n, image.len());
    assert(payload@ =~= image@.skip(32 + n));
    decode(payload, table, padding)
}

/// Image round trip: the image of a text of two symbols or more, whose
/// header text is short enough to be written, is decoded as that text.
pub proof fn law_image_round_trip(table: FrequencyTable, text: Seq<char>)
    requires
        table.wf(),
        table@ == count_map(text),
        table.spec_len() >= 2,
    ensures
        encode_image_spec(text) == Ok::<Seq<u8>, EncodingError>(
            image_bytes(table.symbols(), table.counts(), text),
        ),
        decode_image_spec(image_bytes(table.symbols(), table.counts(), text)) == Ok::<
            Seq<char>,
            DecodeError,
        >(text),
{
    let symbols = table.symbols();
    let counts = table.counts();
    lemma_table_for(table);
    let bits = encode_bits(text, code_map(build_spec(symbols, counts)));
    let padding = padding_of(bits.len()) as u8;
    let header = header_text(symbols, counts, padding);
    let digits = binary_digits(utf8_len(header), 32);
    let image = image_bytes(symbols, counts, text);
    let n = utf8_len(header) as int;
    lemma_header_fits(table, padding);
    lemma_pack_round_trip(bits);
    assert(text.len() > 0) by {
        table.lemma_entry(0);
        assert(text.contains(table.symbols()[0]));
    }
    vstd::arithmetic::power2::lemma2_to64();
    lemma_binary_round_trip(n as nat, 32);
    lemma_utf8_concat(digits, header);
    assert(vstd::utf8::is_ascii_chars(digits)) by {
        assert forall|i: int| 0 <= i < digits.len() implies '\0' <= #[trigger] digits[i]
            <= '\u{7f}' by {
            assert(digits[i] == '0' || digits[i] == '1');
        }
    }
    vstd::utf8::is_ascii_chars_encode_utf8(digits);
    let front = encode_utf8(digits);
    let middle = encode_utf8(header);
    assert(image =~= front + middle + pack(bits));
    assert(prefix_chars(image) =~= digits) by {
        assert forall|i: int| 0 <= i < 32 implies prefix_chars(image)[i] == digits[i] by {
            assert(image[i] == front[i]);
            assert(front[i] == digits[i] as u8);
            assert(digits[i] == '0' || digits[i] == '1');
            assert(('0' as u8) as char == '0' && ('1' as u8) as char == '1');
        }
    }
    assert(image.subrange(32, 32 + n) =~= middle);
    assert(image.skip(32 + n) =~= pack(bits));
    vstd::utf8::encode_utf8_valid_utf8(header);
    vstd::utf8::encode_utf8_decode_utf8(header);
    law_header_round_trip(table, padding);
    let pairs = pairs_of(symbols, counts);
    assert(pairs_map(pairs) == table@);
    assert forall|i: int| 0 <= i < text.len() implies table@.contains_key(#[trigger] text[i]) by {
        assert(text.contains(text[i]));
    }
    law_round_trip(table, text);
}

} // verus!
