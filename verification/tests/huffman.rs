use oxutils::huffman::codes::{assign, write_huffman_header};
use oxutils::huffman::counter::{count_symbols, Characters};
use oxutils::huffman::decoder::{decode, get_huffman_table, get_table_padding, parse_table, DecodeError};
use oxutils::huffman::encoder::{encode, EncodingError, EncodingResult};
use oxutils::huffman::header::{length_prefix, write_header, write_header_line};
use oxutils::huffman::image::{decode_image, encode_image};
use oxutils::huffman::{CodeTable, FrequencyTable, HuffmanNode, HuffmanTree, TreeError};

fn table(pairs: &[(char, usize)]) -> FrequencyTable {
    FrequencyTable::from_pairs(&pairs.to_vec()).unwrap()
}

fn entries(t: &FrequencyTable) -> Vec<(char, usize)> {
    (0..t.len()).map(|i| t.entry(i)).collect()
}

fn codes(pairs: &[(char, &str)]) -> Vec<(char, String)> {
    pairs.iter().map(|(c, s)| (*c, s.to_string())).collect()
}

#[test]
fn test_count_simple() {
    let source = "aaabbc";
    let mut chars = Characters::new(source.to_string());

    let result = chars.read_all();
    assert_eq!(entries(&result), vec![('a', 3), ('b', 2), ('c', 1)]);
    assert_eq!(entries(&chars.counted), vec![('a', 3), ('b', 2), ('c', 1)]);
}

#[test]
fn test_encodings() {
    let counts = table(&[('a', 3), ('b', 2), ('c', 1)]);
    let tree = HuffmanTree::new(counts);
    let encodings = tree.get_huffman_codes().unwrap();
    assert_eq!(
        encodings.to_pairs(),
        codes(&[('a', "0"), ('b', "11"), ('c', "10")])
    );
}

#[test]
fn test_encode_bit_string() {
    let expected = "aaabbc";
    let counts = table(&[('a', 3), ('b', 2), ('c', 1)]);
    let huffman_codes = HuffmanTree::new(counts.clone()).get_huffman_codes().unwrap();
    let encoded = encode(expected, &huffman_codes).unwrap();
    assert_eq!(encoded.data, vec![0b00011111, 0b00000000,]);
}

#[test]
fn test_consistent_leaf_codes() {
    let counts = table(&[('a', 5), ('b', 5), ('c', 10), ('d', 20)]);
    let huffman_codes = HuffmanTree::new(counts.clone()).get_huffman_codes().unwrap();
    assert_eq!(
        huffman_codes.to_pairs(),
        codes(&[('a', "110"), ('b', "111"), ('c', "10"), ('d', "0")])
    );
}

#[test]
fn test_consistent_internal_codes() {
    let counts = table(&[('a', 5), ('b', 5), ('c', 5), ('d', 5)]);
    let huffman_codes = HuffmanTree::new(counts.clone()).get_huffman_codes().unwrap();
    assert_eq!(
        huffman_codes.to_pairs(),
        codes(&[('a', "00"), ('b', "01"), ('c', "10"), ('d', "11")])
    );
}

#[test]
fn test_decode() {
    let expected = "aaabbc";
    let counts = table(&[('a', 3), ('b', 2), ('c', 1)]);
    let huffman_codes = HuffmanTree::new(counts.clone()).get_huffman_codes().unwrap();
    let encoded = encode(expected, &huffman_codes).unwrap();
    let encoded_string = String::from_utf8_lossy(&encoded.data);
    assert_eq!(encoded_string.bytes().collect::<Vec<_>>(), encoded.data);
    let result = decode(encoded_string.as_bytes(), counts, 7);
    assert_eq!(result.unwrap(), expected);
}

#[test]
fn encoding_result_starts_empty() {
    let r = EncodingResult::new();
    assert!(r.data.is_empty());
    assert_eq!(r.padding, None);
}

#[test]
fn insertion_order_does_not_change_the_tree() {
    let a = table(&[('a', 5), ('b', 5), ('c', 10), ('d', 20)]);
    let b = table(&[('d', 20), ('b', 5), ('c', 10), ('a', 5)]);
    assert_eq!(entries(&a), entries(&b));
    let ta = HuffmanTree::new(a).build_tree().unwrap();
    let tb = HuffmanTree::new(b).build_tree().unwrap();
    assert_eq!(ta, tb);
}

#[test]
fn tree_of_three_symbols() {
    let t = HuffmanTree::new(table(&[('a', 3), ('b', 2), ('c', 1)]))
        .build_tree()
        .unwrap();
    let expected = HuffmanNode::Internal(
        6,
        Box::new(HuffmanNode::Leaf('a', 3)),
        Box::new(HuffmanNode::Internal(
            3,
            Box::new(HuffmanNode::Leaf('c', 1)),
            Box::new(HuffmanNode::Leaf('b', 2)),
        )),
    );
    assert_eq!(t, expected);
}

#[test]
fn empty_table_has_no_tree() {
    let t = HuffmanTree::new(FrequencyTable::new());
    assert_eq!(t.build_tree(), Err(TreeError::EmptyAlphabet));
    assert!(matches!(t.get_huffman_codes(), Err(TreeError::EmptyAlphabet)));
}

#[test]
fn single_symbol_is_rejected() {
    let counts = count_symbols("aaaa");
    assert_eq!(entries(&counts), vec![('a', 4)]);
    let t = HuffmanTree::new(counts.clone());
    assert_eq!(t.build_tree(), Ok(HuffmanNode::Leaf('a', 4)));
    assert!(matches!(
        t.get_huffman_codes(),
        Err(TreeError::DegenerateAlphabet)
    ));
    assert_eq!(
        decode(&[0u8], counts, 4),
        Err(DecodeError::DegenerateAlphabet)
    );
    assert_eq!(
        decode(&[0u8], FrequencyTable::new(), 4),
        Err(DecodeError::EmptyAlphabet)
    );
}

#[test]
fn unknown_symbol_is_reported() {
    let huffman_codes = HuffmanTree::new(table(&[('a', 3), ('b', 2)]))
        .get_huffman_codes()
        .unwrap();
    let r = encode("abxay", &huffman_codes);
    assert_eq!(r.unwrap_err(), EncodingError::UnknownCharacter('x'));
}

#[test]
fn byte_aligned_stream_has_no_padding() {
    let huffman_codes = HuffmanTree::new(table(&[('a', 1), ('b', 1)]))
        .get_huffman_codes()
        .unwrap();
    assert_eq!(huffman_codes.to_pairs(), codes(&[('a', "0"), ('b', "1")]));
    let r = encode("abababab", &huffman_codes).unwrap();
    assert_eq!(r.data, vec![0b01010101]);
    assert_eq!(r.padding, Some(0));
    let r = encode("", &huffman_codes).unwrap();
    assert!(r.data.is_empty());
    assert_eq!(r.padding, Some(0));
    let r = encode("bbb", &huffman_codes).unwrap();
    assert_eq!(r.data, vec![0b11100000]);
    assert_eq!(r.padding, Some(5));
}

#[test]
fn round_trip_of_a_sentence() {
    let text = "the quick brown fox jumps over the lazy dog\n\t\\ 'quoted' \"x\" \u{e9}\u{4e2d}";
    let counts = count_symbols(text);
    let huffman_codes = HuffmanTree::new(counts.clone()).get_huffman_codes().unwrap();
    let encoded = encode(text, &huffman_codes).unwrap();
    let padding = encoded.padding.unwrap();
    assert!(padding <= 7);
    let back = decode(&encoded.data, counts, padding).unwrap();
    assert_eq!(back, text);
}

#[test]
fn codes_are_prefix_free() {
    let counts = count_symbols("abracadabra alakazam");
    let pairs = HuffmanTree::new(counts).get_huffman_codes().unwrap().to_pairs();
    for (a, ca) in &pairs {
        for (b, cb) in &pairs {
            if a != b {
                assert!(!cb.starts_with(ca.as_str()));
            }
        }
    }
}

#[test]
fn corrupt_payload_is_reported() {
    let counts = table(&[('a', 3), ('b', 2), ('c', 1)]);
    // "1" alone stops between the root and a leaf
    assert_eq!(
        decode(&[0b10000000], counts.clone(), 7),
        Err(DecodeError::CorruptPayload)
    );
    assert_eq!(
        decode(&[0u8], counts.clone(), 8),
        Err(DecodeError::CorruptPayload)
    );
    assert_eq!(decode(&[], counts.clone(), 1), Err(DecodeError::CorruptPayload));
    assert_eq!(decode(&[], counts, 0), Ok(String::new()));
}

#[test]
fn header_is_written_as_text() {
    let counts = table(&[('a', 3), ('b', 2), ('c', 1)]);
    let header = write_header(&counts, 7);
    assert_eq!(header, "{'a': 3, 'b': 2, 'c': 1}::7\n");
    let prefix = length_prefix(header.len()).unwrap();
    assert_eq!(prefix, "00000000000000000000000000011100");
    assert_eq!(
        write_header_line(&counts, 7),
        "00000000000000000000000000011100{'a': 3, 'b': 2, 'c': 1}::7\n"
    );
    // the length counts bytes, not characters
    let accents = table(&[('\u{e9}', 1), ('\u{4e2d}', 2)]);
    assert_eq!(
        write_header_line(&accents, 0),
        "00000000000000000000000000010111{'\u{e9}': 1, '\u{4e2d}': 2}::0\n"
    );
    let (back, padding) = get_huffman_table(&write_header_line(&accents, 0)).unwrap();
    assert_eq!(entries(&back), entries(&accents));
    assert_eq!(padding, 0);
    assert_eq!(write_header(&FrequencyTable::new(), 0), "{}::0\n");
}

#[test]
fn header_round_trip_with_escapes() {
    let counts = table(&[
        ('\n', 10),
        ('\\', 2),
        ('\'', 1),
        ('"', 4),
        ('\r', 5),
        ('\t', 6),
        ('\0', 7),
        (',', 8),
        (':', 9),
        (' ', 11),
        ('}', 12),
        ('\u{e9}', 13),
    ]);
    let header = write_header(&counts, 3);
    assert_eq!(
        header,
        "{'\\0': 7, '\\t': 6, '\\n': 10, '\\r': 5, ' ': 11, '\\\"': 4, '\\'': 1, ',': 8, ':': 9, '\\\\': 2, '}': 12, '\u{e9}': 13}::3\n"
    );
    let (back, padding) = get_table_padding(&header).unwrap();
    assert_eq!(entries(&back), entries(&counts));
    assert_eq!(padding, 3);
    let line = format!("{}{}", length_prefix(header.len()).unwrap(), header);
    let (back, padding) = get_huffman_table(&line).unwrap();
    assert_eq!(entries(&back), entries(&counts));
    assert_eq!(padding, 3);
}

#[test]
fn header_errors() {
    assert_eq!(get_table_padding("").unwrap_err(), DecodeError::InvalidHeader);
    assert_eq!(
        get_table_padding("{'a': 3}:7\n").unwrap_err(),
        DecodeError::InvalidHeader
    );
    assert_eq!(
        get_table_padding("{'a': 3}::77\n").unwrap_err(),
        DecodeError::InvalidHeader
    );
    assert_eq!(
        get_table_padding("{'a': 3}::x\n").unwrap_err(),
        DecodeError::InvalidHeader
    );
    assert_eq!(
        get_table_padding("{'a': x3}::7\n").unwrap_err(),
        DecodeError::InvalidHeaderValue
    );
    assert_eq!(
        get_table_padding("{'a': }::7\n").unwrap_err(),
        DecodeError::InvalidHeaderValue
    );
    assert_eq!(
        get_table_padding("{'a': 99999999999999999999999999}::7\n").unwrap_err(),
        DecodeError::InvalidHeaderValue
    );
    assert_eq!(
        get_table_padding("{'a': 3, 'a': 4}::7\n").unwrap_err(),
        DecodeError::InvalidHeader
    );
    assert_eq!(
        get_table_padding("'a': 3::7\n").unwrap_err(),
        DecodeError::InvalidHeader
    );
    let (t, p) = get_table_padding("{'b': 2, 'a': 3}::9\n").unwrap();
    assert_eq!(entries(&t), vec![('a', 3), ('b', 2)]);
    assert_eq!(p, 9);
    let (t, p) = get_table_padding("{}::0\n").unwrap();
    assert!(t.is_empty());
    assert_eq!(p, 0);
    assert_eq!(entries(&parse_table("{'x': 1}").unwrap()), vec![('x', 1)]);
    assert_eq!(parse_table("{'x': 1} ").unwrap_err(), DecodeError::InvalidHeader);
}

#[test]
fn header_line_errors() {
    let header = "{'a': 3, 'b': 2}::1\n";
    let good = format!("{:032b}{}", header.len(), header);
    assert!(get_huffman_table(&good).is_ok());
    let short = format!("{:032b}{}", header.len() - 1, header);
    assert_eq!(get_huffman_table(&short).unwrap_err(), DecodeError::InvalidHeader);
    let decimal = format!("{:032}{}", header.len(), header);
    assert_eq!(get_huffman_table(&decimal).unwrap_err(), DecodeError::InvalidHeader);
    assert_eq!(get_huffman_table("0101").unwrap_err(), DecodeError::InvalidHeader);
}

#[test]
fn length_prefix_limits() {
    assert_eq!(
        length_prefix(0).unwrap(),
        "00000000000000000000000000000000"
    );
    assert_eq!(
        length_prefix(0xffff_ffff).unwrap(),
        "11111111111111111111111111111111"
    );
    assert!(length_prefix(0x1_0000_0000).is_none());
}

#[test]
fn table_rejects_duplicates_and_overflow() {
    assert!(FrequencyTable::from_pairs(&vec![('a', 1), ('a', 2)]).is_none());
    assert!(FrequencyTable::from_pairs(&vec![('a', usize::MAX), ('b', 1)]).is_none());
    let mut t = FrequencyTable::new();
    assert!(t.insert('b', 2));
    assert!(!t.insert('b', 5));
    assert!(t.add('b'));
    assert!(t.add('a'));
    assert_eq!(entries(&t), vec![('a', 1), ('b', 3)]);
    assert_eq!(t.total(), 4);
    assert_eq!(t.get('b'), Some(3));
    assert_eq!(t.get('z'), None);
    assert!(t.contains('a'));
}

#[test]
fn code_table_lookup() {
    let mut t = CodeTable::new();
    t.insert('x', vec![true, false]);
    t.insert('a', vec![false]);
    assert_eq!(t.len(), 2);
    assert_eq!(t.get('x'), Some(&vec![true, false]));
    assert_eq!(t.code_string('a'), Some("0".to_string()));
    assert_eq!(t.code_string('q'), None);
}

#[test]
fn image_of_a_short_text() {
    let image = encode_image("aaabbc").unwrap();
    let mut expected = Vec::new();
    expected.extend_from_slice(b"00000000000000000000000000011100");
    expected.extend_from_slice(b"{'a': 3, 'b': 2, 'c': 1}::7\n");
    expected.extend_from_slice(&[0b00011111, 0b00000000]);
    assert_eq!(image, expected);
    assert_eq!(decode_image(&image).unwrap(), "aaabbc");
}

#[test]
fn image_round_trip() {
    let text = "Il \u{e9}tait une fois\n\tune \"table\" de 'fr\u{e9}quences' \\ \0 \u{1f600}\r\n";
    let image = encode_image(text).unwrap();
    assert_eq!(decode_image(&image).unwrap(), text);
}

#[test]
fn image_errors() {
    assert_eq!(encode_image(""), Err(EncodingError::EmptyAlphabet));
    assert_eq!(encode_image("aaaa"), Err(EncodingError::DegenerateAlphabet));
    assert_eq!(decode_image(b"0101"), Err(DecodeError::InvalidHeader));
    let image = encode_image("aaabbc").unwrap();
    // the header text cut in the middle of a character is no UTF-8
    let mut broken = Vec::new();
    broken.extend_from_slice(b"00000000000000000000000000000001");
    broken.push(0xc3);
    assert_eq!(decode_image(&broken), Err(DecodeError::InvalidHeader));
    // shorter than the prefix says
    assert_eq!(decode_image(&image[..40]), Err(DecodeError::InvalidHeader));
    // a digit of the prefix that is none
    let mut other = image.clone();
    other[0] = b'2';
    assert_eq!(decode_image(&other), Err(DecodeError::InvalidHeader));
    // a count that is no number
    let mut other = image.clone();
    other[32 + 6] = b'x';
    assert_eq!(decode_image(&other), Err(DecodeError::InvalidHeaderValue));
    // a payload that ends in the middle of a code
    let mut other = image.clone();
    let last = other.len() - 1;
    other[last - 1] = 0b00011100;
    other[last] = 0b10000000;
    assert_eq!(decode_image(&other), Err(DecodeError::CorruptPayload));
    // without its last byte the payload is the first of the codes
    let mut other = image.clone();
    other.pop();
    assert_eq!(decode_image(&other), Ok("a".to_string()));
    // a table of one symbol
    let header = "{'a': 4}::0\n";
    let mut one = format!("{:032b}{}", header.len(), header).into_bytes();
    one.push(0);
    assert_eq!(decode_image(&one), Err(DecodeError::DegenerateAlphabet));
    let header = "{}::0\n";
    let none = format!("{:032b}{}", header.len(), header).into_bytes();
    assert_eq!(decode_image(&none), Err(DecodeError::EmptyAlphabet));
}

fn check_weights(node: &HuffmanNode) -> usize {
    match node {
        HuffmanNode::Leaf(_, w) => *w,
        HuffmanNode::Internal(w, l, r) => {
            assert_eq!(*w, check_weights(l) + check_weights(r));
            *w
        }
    }
}

fn leaves(node: &HuffmanNode, out: &mut Vec<(char, usize)>) {
    match node {
        HuffmanNode::Leaf(c, w) => out.push((*c, *w)),
        HuffmanNode::Internal(_, l, r) => {
            leaves(l, out);
            leaves(r, out);
        }
    }
}

#[test]
fn internal_nodes_weigh_what_their_children_weigh() {
    let text = "so many symbols, so many weights: 0123456789 !";
    let counts = count_symbols(text);
    let root = HuffmanTree::new(counts.clone()).build_tree().unwrap();
    assert_eq!(check_weights(&root), text.chars().count());
    assert_eq!(root.weight_of(), counts.total());
    let mut found = Vec::new();
    leaves(&root, &mut found);
    found.sort();
    assert_eq!(found, entries(&counts));
}

#[test]
fn three_symbols_from_counting_to_bytes() {
    let mut chars = Characters::new("aabbc".to_string());
    assert!(chars.count_line("a"));
    let counts = chars.read_all();
    assert_eq!(entries(&counts), vec![('a', 3), ('b', 2), ('c', 1)]);
    assert_eq!(entries(&chars.counted), vec![('a', 3), ('b', 2), ('c', 1)]);
    let root = HuffmanTree::new(counts.clone()).build_tree().unwrap();
    let table = assign(&root);
    assert_eq!(table.to_pairs(), codes(&[('a', "0"), ('b', "11"), ('c', "10")]));
    assert_eq!(write_huffman_header(&table), "a::0\nb::11\nc::10\n");
    let encoded = encode("aaabbc", &table).unwrap();
    assert_eq!(encoded.data, vec![0b00011111, 0b00000000]);
    // nine bits in two bytes leave seven bits of filler
    assert_eq!(encoded.padding, Some(7));
    assert_eq!(8 * encoded.data.len(), 9 + 7);
    assert_eq!(decode(&encoded.data, counts, 7).unwrap(), "aaabbc");
}

#[test]
fn counting_line_by_line() {
    let mut chars = Characters::new(String::new());
    assert!(chars.count_line("ab\n"));
    assert!(chars.count_line("a\n"));
    assert_eq!(entries(&chars.counted), vec![('\n', 2), ('a', 2), ('b', 1)]);
    assert_eq!(chars.counted.total(), 5);
    // there is no text to read: the counts stay
    assert_eq!(entries(&chars.read_all()), vec![('\n', 2), ('a', 2), ('b', 1)]);
    assert_eq!(chars.counted.total(), 5);
}

#[test]
fn reading_adds_to_what_was_counted() {
    let mut chars = Characters::new("abc".to_string());
    assert!(chars.count_line("zza"));
    let counts = chars.read_all();
    assert_eq!(entries(&counts), vec![('a', 2), ('b', 1), ('c', 1), ('z', 2)]);
    assert_eq!(counts.total(), 6);
    // the text is used up
    assert_eq!(chars.source, "");
    let again = chars.read_all();
    assert_eq!(entries(&again), entries(&counts));
    assert_eq!(chars.counted.total(), 6);
}

#[test]
fn a_table_of_one_symbol_is_no_code() {
    let root = HuffmanTree::new(count_symbols("aaaa")).build_tree().unwrap();
    let table = assign(&root);
    assert_eq!(table.to_pairs(), codes(&[('a', "")]));
    assert_eq!(
        encode("aaaa", &table).unwrap_err(),
        EncodingError::DegenerateAlphabet
    );
    // a symbol that the table does not hold comes first
    assert_eq!(
        encode("xa", &table).unwrap_err(),
        EncodingError::UnknownCharacter('x')
    );
    assert_eq!(
        encode("ax", &table).unwrap_err(),
        EncodingError::DegenerateAlphabet
    );
    // no symbol, no missing code
    let r = encode("", &table).unwrap();
    assert!(r.data.is_empty());
    assert_eq!(r.padding, Some(0));
    let mut mixed = CodeTable::new();
    mixed.insert('a', vec![true]);
    mixed.insert('b', vec![]);
    assert_eq!(encode("aa", &mixed).unwrap().data, vec![0b11000000]);
    assert_eq!(
        encode("aab", &mixed).unwrap_err(),
        EncodingError::DegenerateAlphabet
    );
}

#[test]
fn the_form_of_the_header_goes_before_its_counts() {
    // no count is a number, but the text is no header either
    assert_eq!(
        get_table_padding("{'a': x}::12\n").unwrap_err(),
        DecodeError::InvalidHeader
    );
    assert_eq!(
        get_table_padding("{'a': x}::7").unwrap_err(),
        DecodeError::InvalidHeader
    );
    assert_eq!(
        get_table_padding("{'a': x, 'b' 3}::7\n").unwrap_err(),
        DecodeError::InvalidHeader
    );
    assert_eq!(
        get_table_padding("{'a': x::7\n").unwrap_err(),
        DecodeError::InvalidHeader
    );
    assert_eq!(parse_table("{'a': x} ").unwrap_err(), DecodeError::InvalidHeader);
    assert_eq!(parse_table("'a': x}").unwrap_err(), DecodeError::InvalidHeader);
    let header = "{'a': x}::12\n";
    let line = format!("{:032b}{}", header.len(), header);
    assert_eq!(get_huffman_table(&line).unwrap_err(), DecodeError::InvalidHeader);
    // in a header of the right form the count decides
    assert_eq!(
        get_table_padding("{'a': x}::7\n").unwrap_err(),
        DecodeError::InvalidHeaderValue
    );
    assert_eq!(
        get_table_padding("{'a': 3, 'a': x}::7\n").unwrap_err(),
        DecodeError::InvalidHeaderValue
    );
    assert_eq!(parse_table("{'a': x}").unwrap_err(), DecodeError::InvalidHeaderValue);
    let header = "{'b': 2, 'a': -1}::3\n";
    let line = format!("{:032b}{}", header.len(), header);
    assert_eq!(
        get_huffman_table(&line).unwrap_err(),
        DecodeError::InvalidHeaderValue
    );
}


#[test]
fn four_equal_weights_give_two_bits_each() {
    let counts = table(&[('a', 5), ('b', 5), ('c', 5), ('d', 5)]);
    let pairs = HuffmanTree::new(counts).get_huffman_codes().unwrap().to_pairs();
    assert_eq!(pairs.len(), 4);
    for (_, code) in pairs {
        assert_eq!(code.len(), 2);
    }
}

#[test]
fn leaves_go_before_internal_nodes_of_their_weight() {
    // a and b make a node of weight 2, which goes behind the leaf c
    let root = HuffmanTree::new(table(&[('a', 1), ('b', 1), ('c', 2)]))
        .build_tree()
        .unwrap();
    let expected = HuffmanNode::Internal(
        4,
        Box::new(HuffmanNode::Leaf('c', 2)),
        Box::new(HuffmanNode::Internal(
            2,
            Box::new(HuffmanNode::Leaf('a', 1)),
            Box::new(HuffmanNode::Leaf('b', 1)),
        )),
    );
    assert_eq!(root, expected);
}
