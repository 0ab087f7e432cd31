use bit_vec::BitVec;
use compression::huffman::implementation::HuffmanError;
use compression::huffman::predef_codes::mapping_on_bits;
use compression::huffman::trees::HuffmanTree;
use compression::huffman::utils::calc_distinct_symbols_num;
use compression::huffman::weights::WeightsCalculator;
use compression::huffman::HuffmanCodes;
use compression::huffman::HuffmanCompressor;
use compression::huffman::HuffmanTreeCreator;
use compression::utils::bitvec_ext::BitVecSlice;
use std::collections::HashMap;

fn bits(s: &str) -> BitVec {
    let mut b = BitVec::new();
    for c in s.chars() {
        b.push(c == '1');
    }
    b
}

#[test]
fn default_weights_cover_the_bytes_below_127() {
    let weights = WeightsCalculator::default();
    assert_eq!(weights.len(), 127);
    for b in 0..127u8 {
        assert_eq!(weights.get(&b), Some(&1));
    }
    assert_eq!(weights.get(&127), None);
    assert_eq!(weights.get(&255), None);
}

#[test]
fn fitted_weights_are_the_counts_while_they_fit() {
    let weights = WeightsCalculator::fitted_to_text("abcabcbabcbb".as_bytes());
    let mut expected = HashMap::new();
    expected.insert(b'a', 3u8);
    expected.insert(b'b', 6u8);
    expected.insert(b'c', 3u8);
    assert_eq!(weights, expected);

    let text = vec![b'x'; 255];
    let weights = WeightsCalculator::fitted_to_text(&text);
    assert_eq!(weights.get(&b'x'), Some(&127));
    let text = vec![b'x'; 254];
    let weights = WeightsCalculator::fitted_to_text(&text);
    assert_eq!(weights.get(&b'x'), Some(&254));
}

#[test]
fn fitted_weights_are_scaled_and_never_zero() {
    let mut text = vec![b'a'; 300];
    text.push(b'b');
    text.extend_from_slice(&[b'c'; 5]);
    let weights = WeightsCalculator::fitted_to_text(&text);
    // the scaler is 300 / 255 + 1 = 2
    let mut expected = HashMap::new();
    expected.insert(b'a', 150u8);
    expected.insert(b'b', 1u8);
    expected.insert(b'c', 2u8);
    assert_eq!(weights, expected);

    let text = vec![7u8; 100000];
    let weights = WeightsCalculator::fitted_to_text(&text);
    // the scaler is 100000 / 255 + 1 = 393
    assert_eq!(weights.get(&7), Some(&254));
    assert_eq!(weights.len(), 1);
}

#[test]
fn distinct_symbols_are_counted_as_a_byte() {
    assert_eq!(calc_distinct_symbols_num(&[]), 0);
    assert_eq!(calc_distinct_symbols_num("abcabcbabcbb".as_bytes()), 3);
    assert_eq!(calc_distinct_symbols_num(&[0, 255, 0, 255, 1]), 3);
    let all: Vec<u8> = (0..=255).collect();
    assert_eq!(calc_distinct_symbols_num(&all[..255]), 255);
    assert_eq!(calc_distinct_symbols_num(&all), 0);
}

#[test]
fn tree_of_one_symbol_has_the_code_of_one_bit() {
    let mut weights = HashMap::new();
    weights.insert(b'q', 9u8);
    let (on_bits, on_bytes) = HuffmanTreeCreator::get_mappings(&weights);
    assert_eq!(on_bits.len(), 1);
    assert_eq!(on_bits[&b'q'], bits("1"));
    assert_eq!(on_bytes.len(), 1);
    assert_eq!(on_bytes[&bits("1")], b'q');
    assert_eq!(HuffmanTree::single_node(b'q', 9).extract_mapping(), on_bits);
}

#[test]
fn tree_is_merged_by_hand_as_by_the_builder() {
    let mut a = HuffmanTree::single_node(b'a', 1);
    let b = HuffmanTree::single_node(b'b', 2);
    let mut ab = a.merge_right(b);
    let c = HuffmanTree::single_node(b'c', 3);
    let root = c.clone().merge_right(ab.clone());
    let codes = root.extract_mapping();
    assert_eq!(codes[&b'c'], bits("10"));
    assert_eq!(codes[&b'a'], bits("110"));
    assert_eq!(codes[&b'b'], bits("111"));
    let other = ab.merge_right(c);
    let codes = other.extract_mapping();
    assert_eq!(codes[&b'a'], bits("100"));
    assert_eq!(codes[&b'b'], bits("101"));
    assert_eq!(codes[&b'c'], bits("11"));
    let mut weights = HashMap::new();
    weights.insert(b'a', 1u8);
    weights.insert(b'b', 2u8);
    weights.insert(b'c', 3u8);
    assert_eq!(HuffmanTreeCreator::get_mapping_on_bits(&weights), codes);
}

#[test]
fn ties_are_broken_by_the_least_symbol() {
    let mut weights = HashMap::new();
    for s in [b'd', b'b', b'a', b'c'] {
        weights.insert(s, 1u8);
    }
    let codes = HuffmanTreeCreator::get_mapping_on_bits(&weights);
    // a and b are merged first, then c and d, then the two pairs
    assert_eq!(codes[&b'a'], bits("100"));
    assert_eq!(codes[&b'b'], bits("101"));
    assert_eq!(codes[&b'c'], bits("110"));
    assert_eq!(codes[&b'd'], bits("111"));
}

#[test]
fn codes_are_the_same_whenever_they_are_built() {
    let weights = WeightsCalculator::fitted_to_text(
        "the quick brown fox jumps over the lazy dog".as_bytes(),
    );
    let first = HuffmanTreeCreator::get_mapping_on_bits(&weights);
    for _ in 0..5 {
        let again: HashMap<u8, u8> = weights.iter().map(|(k, v)| (*k, *v)).collect();
        assert_eq!(HuffmanTreeCreator::get_mapping_on_bits(&again), first);
    }
}

#[test]
fn no_code_is_the_start_of_another() {
    let weights = WeightsCalculator::fitted_to_text(
        "abracadabra, said the sorcerer, and again: abracadabra!".as_bytes(),
    );
    let (on_bits, on_bytes) = HuffmanTreeCreator::get_mappings(&weights);
    assert_eq!(on_bits.len(), weights.len());
    assert_eq!(on_bytes.len(), weights.len());
    for (a, code_a) in &on_bits {
        assert_eq!(code_a.get(0), Some(true));
        assert_eq!(on_bytes[code_a], *a);
        for (b, code_b) in &on_bits {
            if a != b {
                let shorter = code_a.len() <= code_b.len();
                let is_start = shorter && (0..code_a.len()).all(|i| code_a[i] == code_b[i]);
                assert!(!is_start);
            }
        }
    }
}

#[test]
fn most_frequent_symbol_has_the_shortest_code() {
    let codes = HuffmanCodes::new_calc_on_bytes("abcabcbabcbb".as_bytes());
    let a = codes.map_on_bits(b'a');
    let b = codes.map_on_bits(b'b');
    let c = codes.map_on_bits(b'c');
    assert!(b.len() < a.len());
    assert!(b.len() < c.len());
    assert_eq!(b, bits("11"));
    assert_eq!(a, bits("100"));
    assert_eq!(c, bits("101"));
}

#[test]
fn compressed_stream_has_the_sparse_header_and_the_codes() {
    let compressed = HuffmanCompressor::compress(&Vec::from("aaa".as_bytes()), false);
    assert_eq!(compressed.len(), 27);
    assert_eq!(compressed.to_bytes(), vec![2, 97, 3, 0b1110_0000]);

    let compressed = HuffmanCompressor::compress(&Vec::from("abb".as_bytes()), false);
    // a has the weight 1 and the code 10, b the weight 2 and the code 11
    assert_eq!(compressed.len(), 8 * 5 + 6);
    assert_eq!(compressed.to_bytes(), vec![4, 97, 1, 98, 2, 0b1011_1100]);
}

#[test]
fn compressed_stream_has_the_dense_header_from_64_symbols_on() {
    let text: Vec<u8> = (32..96).collect();
    let compressed = HuffmanCompressor::compress(&text, false);
    let bytes = compressed.to_bytes();
    assert_eq!(bytes[0], 128);
    for s in 0..128usize {
        assert_eq!(bytes[1 + s], if (32..96).contains(&s) { 1 } else { 0 });
    }
    assert_eq!(compressed.len(), 8 * 129 + 64 * 7);
    assert_eq!(HuffmanCompressor::decompress(&compressed), Ok(text));

    let text: Vec<u8> = (33..96).collect();
    let compressed = HuffmanCompressor::compress(&text, false);
    assert_eq!(compressed.to_bytes()[0], 126);
    assert_eq!(HuffmanCompressor::decompress(&compressed), Ok(text));
}

#[test]
fn predefined_codes_always_give_the_dense_header() {
    let text = Vec::from("ab".as_bytes());
    let compressed = HuffmanCompressor::compress(&text, true);
    let bytes = compressed.to_bytes();
    assert_eq!(bytes[0], 128);
    for s in 0..127usize {
        assert_eq!(bytes[1 + s], 1);
    }
    assert_eq!(bytes[128], 0);
    assert_eq!(HuffmanCompressor::decompress(&compressed), Ok(text));
    let nothing = HuffmanCompressor::compress(&Vec::new(), true);
    assert_eq!(nothing.len(), 8 * 129);
    assert_eq!(HuffmanCompressor::decompress(&nothing), Ok(Vec::new()));
}

#[test]
fn symbol_127_is_carried_by_the_dense_header() {
    let text: Vec<u8> = (64..128).collect();
    let compressed = HuffmanCompressor::compress(&text, false);
    assert_eq!(compressed.to_bytes()[0], 128);
    assert_eq!(compressed.to_bytes()[128], 1);
    assert_eq!(HuffmanCompressor::decompress(&compressed), Ok(text));
}

#[test]
fn bytes_above_127_are_carried_by_the_sparse_header() {
    let text: Vec<u8> = vec![200, 255, 200, 0, 128, 255, 255];
    let compressed = HuffmanCompressor::compress(&text, false);
    assert_eq!(compressed.to_bytes()[0], 8);
    assert_eq!(&compressed.to_bytes()[1..9], &[0, 1, 128, 1, 200, 2, 255, 3]);
    assert_eq!(HuffmanCompressor::decompress(&compressed), Ok(text));
}

#[test]
fn stream_without_bits_is_empty() {
    assert_eq!(HuffmanCompressor::decompress(&BitVec::new()), Err(HuffmanError::EmptyStream));
    assert!(matches!(
        HuffmanCodes::remove_weights_enconding(&BitVec::new()),
        Err(HuffmanError::EmptyStream)
    ));
    assert!(matches!(
        HuffmanCodes::new_from_compression_result(&BitVec::new()),
        Err(HuffmanError::EmptyStream)
    ));
}

#[test]
fn header_that_ends_early_is_truncated() {
    let short = BitVec::from_bytes(&[4, 97, 1, 98]);
    assert_eq!(HuffmanCompressor::decompress(&short), Err(HuffmanError::TruncatedHeader));
    let odd = BitVec::from_bytes(&[3, 97, 1, 98]);
    assert_eq!(HuffmanCompressor::decompress(&odd), Err(HuffmanError::TruncatedHeader));
    let mut dense = vec![128u8];
    dense.extend_from_slice(&[1; 127]);
    assert_eq!(
        HuffmanCompressor::decompress(&BitVec::from_bytes(&dense)),
        Err(HuffmanError::TruncatedHeader)
    );
    assert_eq!(HuffmanCompressor::decompress(&bits("1")), Err(HuffmanError::TruncatedHeader));
}

#[test]
fn header_without_a_weight_gives_no_table() {
    assert_eq!(
        HuffmanCompressor::decompress(&BitVec::from_bytes(&[0])),
        Err(HuffmanError::EmptyWeightTable)
    );
    assert_eq!(
        HuffmanCompressor::decompress(&BitVec::from_bytes(&[2, 97, 0, 0xff])),
        Err(HuffmanError::EmptyWeightTable)
    );
    assert_eq!(HuffmanCompressor::decompress(&bits("0")), Err(HuffmanError::EmptyWeightTable));
}

#[test]
fn bits_that_are_no_code_are_unmatched() {
    let zeros = BitVec::from_bytes(&[2, 97, 1, 0]);
    assert_eq!(HuffmanCompressor::decompress(&zeros), Err(HuffmanError::UnmatchedBits));
    let mut cut = BitVec::from_bytes(&[4, 97, 1, 98, 2]);
    cut.push(true);
    cut.push(false);
    cut.push(true);
    assert_eq!(HuffmanCompressor::decompress(&cut), Err(HuffmanError::UnmatchedBits));
    cut.push(true);
    assert_eq!(HuffmanCompressor::decompress(&cut), Ok(vec![97, 98]));
}

#[test]
fn later_pair_of_the_header_replaces_an_earlier_one() {
    let mut stream = BitVec::from_bytes(&[6, 97, 1, 98, 1, 97, 5]);
    let codes = HuffmanCodes::new_from_compression_result(&stream).ok().unwrap();
    assert_eq!(codes.map_on_bits(b'b'), bits("10"));
    assert_eq!(codes.map_on_bits(b'a'), bits("11"));
    stream.push(true);
    stream.push(true);
    assert_eq!(HuffmanCompressor::decompress(&stream), Ok(vec![97]));
}

#[test]
fn header_is_put_in_front_and_taken_off() {
    let codes = HuffmanCodes::new_calc_on_bytes("abb".as_bytes());
    let with_header = codes.append_weights_encoding_tree(bits("10110"));
    assert_eq!(with_header.len(), 8 * 5 + 5);
    assert_eq!(with_header.to_bytes(), vec![4, 97, 1, 98, 2, 0b1011_0000]);
    let payload = HuffmanCodes::remove_weights_enconding(&with_header).ok().unwrap();
    assert_eq!(payload, bits("10110"));
    let only_header = HuffmanCodes::remove_weights_enconding(&BitVec::from_bytes(&[1, 7])).ok();
    assert_eq!(only_header, Some(BitVec::new()));
    let too_short = HuffmanCodes::remove_weights_enconding(&BitVec::from_bytes(&[9, 7])).ok();
    assert_eq!(too_short, Some(BitVec::new()));

    let predefined = HuffmanCodes::new_predefined("abb".as_bytes());
    let with_header = predefined.append_weights_encoding_tree(bits("1"));
    assert_eq!(with_header.len(), 8 * 129 + 1);
    assert_eq!(with_header.to_bytes()[0], 128);
}

#[test]
fn shortest_start_that_is_a_code_is_matched() {
    let codes = HuffmanCodes::new_calc_on_bytes("abcabcbabcbb".as_bytes());
    assert_eq!(codes.match_bits(&bits("11")), (Some(b'b'), 2));
    assert_eq!(codes.match_bits(&bits("1001")), (Some(b'a'), 3));
    assert_eq!(codes.match_bits(&bits("10111")), (Some(b'c'), 3));
    assert_eq!(codes.match_bits(&bits("10")), (None, 0));
    assert_eq!(codes.match_bits(&bits("0110")), (None, 0));
    assert_eq!(codes.match_bits(&bits("")), (None, 0));
}

#[test]
fn fixed_table_has_sixteen_bits_for_each_symbol() {
    let table = mapping_on_bits();
    assert_eq!(table.len(), 4);
    assert_eq!(table[&b'a'], BitVec::from_bytes(&[0, 0]));
    assert_eq!(table[&b'b'], bits("0000000000000001"));
    assert_eq!(table[&b'c'], bits("0000000100000000"));
    assert_eq!(table[&b'~'], bits("0000000100000001"));
}

#[test]
fn end_of_a_bit_vector_is_cut_off() {
    let v = bits("1101001");
    assert_eq!(v.slice(2, 7), bits("01001"));
    assert_eq!(v.slice(0, 7), v);
    assert_eq!(v.slice(7, 7), BitVec::new());
    assert_eq!(v.slice(9, 9), BitVec::new());
}

#[test]
fn every_byte_value_round_trips_in_small_alphabets() {
    for start in [0u8, 100, 193] {
        let text: Vec<u8> = (0..1000).map(|i| start + ((i * i) % 63) as u8).collect();
        let compressed = HuffmanCompressor::compress(&text, false);
        assert_eq!(HuffmanCompressor::decompress(&compressed), Ok(text));
    }
}

#[test]
fn dense_header_leaves_out_the_bytes_from_128_on() {
    let text: Vec<u8> = (100..=200).collect();
    let compressed = HuffmanCompressor::compress(&text, false);
    let bytes = compressed.to_bytes();
    assert_eq!(bytes[0], 128);
    for s in 0..128usize {
        assert_eq!(bytes[1 + s], if s >= 100 { 1 } else { 0 });
    }
    assert_ne!(HuffmanCompressor::decompress(&compressed), Ok(text));
}
