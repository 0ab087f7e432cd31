use compression::lz77::hashes::HashTable;
use compression::lz77::hashes::SingleHashTable;
use compression::lz77::implementation::decimal_bytes;
use compression::lz77::implementation::Lz77Error;
use compression::lz77::implementation::ResultEncoding;
use compression::lz77::implementation::ResultEncodingVec;
use compression::lz77::implementation::SlidingWindow;
use compression::lz77::LZ77Compressor;

fn text(s: &str) -> Vec<u8> {
    Vec::from(s.as_bytes())
}

#[test]
fn single_layer_hash_has_the_value_of_the_formula() {
    let s = text("a");
    let layer = SingleHashTable::new(&s, 1000000007, 27);
    // pow[0] = 27, pref[0] = 27 * 97, shifted by pow[0] once more
    assert_eq!(layer.get_hash(0, 0), 27 * 97 * 27);

    let s = text("ab");
    let layer = SingleHashTable::new(&s, 1000000007, 27);
    // pref = [27 * 97, 27 * 97 + 729 * 98], pow = [27, 729]
    assert_eq!(layer.get_hash(0, 0), 27 * 97 * 729);
    assert_eq!(layer.get_hash(1, 1), 729 * 98 * 27);
    assert_eq!(layer.get_hash(0, 1), (27 * 97 + 729 * 98) * 729);
}

#[test]
fn hash_is_reduced_modulo_the_modulus() {
    let s = text("zzzzzzzzzz");
    let layer = SingleHashTable::new(&s, 1000000007, 27);
    for i in 0..10 {
        for j in i..10 {
            assert!(layer.get_hash(i, j) < 1000000007);
        }
    }
    assert_eq!(layer.get_hash(0, 4), layer.get_hash(5, 9));
    assert_eq!(layer.get_hash(2, 3), layer.get_hash(7, 8));
}

#[test]
fn hash_table_has_two_layers_by_default_and_four_at_most() {
    let s = text("abcabc");
    let two = format!("{:?}", HashTable::new(&s, None).get_hash(0, 2));
    let four = format!("{:?}", HashTable::new(&s, Some(9)).get_hash(0, 2));
    let none = format!("{:?}", HashTable::new(&s, Some(0)).get_hash(0, 2));
    assert_eq!(two.matches(',').count(), 1);
    assert_eq!(four.matches(',').count(), 3);
    assert_eq!(none, "Hash([])");
}

#[test]
fn equal_substrings_hash_alike_in_every_layer() {
    let s = text("abcabcbabcbb");
    let table = HashTable::new(&s, Some(4));
    assert_eq!(table.get_hash(0, 2), table.get_hash(3, 5));
    assert_eq!(table.get_hash(1, 2), table.get_hash(4, 5));
    assert_eq!(table.get_hash(3, 6), table.get_hash(7, 10));
    assert_ne!(table.get_hash(0, 2), table.get_hash(1, 3));
    assert_eq!(table.get_hash(0, 2).packed(), table.get_hash(3, 5).packed());
    assert_ne!(table.get_hash(0, 2).packed(), table.get_hash(0, 3).packed());
}

#[test]
fn a_zero_byte_at_the_end_does_not_change_the_hash() {
    let s: Vec<u8> = vec![97, 0];
    let table = HashTable::new(&s, Some(4));
    assert_eq!(table.get_hash(0, 0), table.get_hash(0, 1));
    let s: Vec<u8> = vec![97, 1];
    let table = HashTable::new(&s, Some(4));
    assert_ne!(table.get_hash(0, 0), table.get_hash(0, 1));
}

#[test]
fn packed_hash_puts_the_first_layer_highest() {
    let s = text("a");
    let one = HashTable::new(&s, Some(1)).get_hash(0, 0).packed();
    assert_eq!(one, 27 * 97 * 27);
    let two = HashTable::new(&s, Some(2)).get_hash(0, 0).packed();
    assert_eq!(two, ((27 * 97 * 27) << 32) + 29 * 97 * 29);
}

#[test]
fn decimal_bytes_writes_without_leading_zeros() {
    assert_eq!(decimal_bytes(0), text("0"));
    assert_eq!(decimal_bytes(7), text("7"));
    assert_eq!(decimal_bytes(10), text("10"));
    assert_eq!(decimal_bytes(32768), text("32768"));
    assert_eq!(decimal_bytes(usize::MAX), text(&usize::MAX.to_string()));
}

#[test]
fn elements_are_written_as_the_format_says() {
    assert_eq!(ResultEncoding::get_separator(), 126);
    assert_eq!(ResultEncoding::len_treshold(), 6);
    assert_eq!(ResultEncoding::Ascii(b'x').to_ascii_bytes(), text("x"));
    assert_eq!(ResultEncoding::Reference(12, 6).to_ascii_bytes(), text("~12~6~"));
    assert_eq!(ResultEncoding::Reference(0, 0).to_ascii_bytes(), text("~0~0~"));
}

#[test]
fn stream_is_built_turned_and_expanded() {
    let mut stream = ResultEncodingVec::new();
    stream.push(ResultEncoding::Reference(1, 3));
    stream.push(ResultEncoding::Ascii(b'b'));
    stream.push(ResultEncoding::Ascii(b'a'));
    assert_eq!(stream.expand(), Err(Lz77Error::InvalidDistance));
    stream.reverse();
    assert_eq!(stream.expand(), Ok(text("abbbb")));
    assert_eq!(ResultEncodingVec::default().expand(), Ok(Vec::new()));
}

#[test]
fn overlapping_reference_repeats_what_it_copies() {
    let lz = LZ77Compressor::new(None, None);
    assert_eq!(lz.decompress(&text("a~1~5~")), Ok(text("aaaaaa")));
    assert_eq!(lz.decompress(&text("ab~2~5~")), Ok(text("abababa")));
    assert_eq!(lz.decompress(&text("abc~3~0~d")), Ok(text("abcd")));
    assert_eq!(lz.decompress(&text("~0~0~")), Ok(text("")));
    assert_eq!(lz.decompress(&text("abc~03~2~")), Ok(text("abcab")));
}

#[test]
fn parsing_reads_what_was_written() {
    let bytes = text("ab~2~6~c~10~7~");
    let stream = ResultEncodingVec::from_ascii_bytes(&bytes).unwrap();
    let mut expected = ResultEncodingVec::new();
    expected.push(ResultEncoding::Ascii(b'a'));
    expected.push(ResultEncoding::Ascii(b'b'));
    expected.push(ResultEncoding::Reference(2, 6));
    expected.push(ResultEncoding::Ascii(b'c'));
    expected.push(ResultEncoding::Reference(10, 7));
    assert_eq!(format!("{:?}", stream), format!("{:?}", expected));
}

#[test]
fn reference_without_its_separators_is_unterminated() {
    let lz = LZ77Compressor::new(None, None);
    assert_eq!(lz.decompress(&text("~")), Err(Lz77Error::UnterminatedReference));
    assert_eq!(lz.decompress(&text("abc~1")), Err(Lz77Error::UnterminatedReference));
    assert_eq!(lz.decompress(&text("abc~1~2")), Err(Lz77Error::UnterminatedReference));
    assert_eq!(lz.decompress(&text("abc~x~2")), Err(Lz77Error::UnterminatedReference));
}

#[test]
fn field_that_is_no_number_is_invalid() {
    let lz = LZ77Compressor::new(None, None);
    assert_eq!(lz.decompress(&text("abc~x~2~")), Err(Lz77Error::InvalidNumber));
    assert_eq!(lz.decompress(&text("abc~1~2x~")), Err(Lz77Error::InvalidNumber));
    assert_eq!(lz.decompress(&text("abc~~2~")), Err(Lz77Error::InvalidNumber));
    assert_eq!(lz.decompress(&text("abc~1~~")), Err(Lz77Error::InvalidNumber));
    assert_eq!(lz.decompress(&text("abc~+1~2~")), Err(Lz77Error::InvalidNumber));
    assert_eq!(lz.decompress(&text("abc~-1~2~")), Err(Lz77Error::InvalidNumber));
}

#[test]
fn field_that_does_not_fit_overflows() {
    let lz = LZ77Compressor::new(None, None);
    let big = format!("abc~{}0~2~", usize::MAX);
    assert_eq!(lz.decompress(big.as_bytes()), Err(Lz77Error::NumberOverflow));
    let next = format!("abc~1~{}~", usize::MAX as u128 + 1);
    assert_eq!(lz.decompress(next.as_bytes()), Err(Lz77Error::NumberOverflow));
    let fits = format!("abc~{}~0~", usize::MAX);
    assert_eq!(lz.decompress(fits.as_bytes()), Err(Lz77Error::InvalidDistance));
}

#[test]
fn reference_before_the_start_is_invalid() {
    let lz = LZ77Compressor::new(None, None);
    assert_eq!(lz.decompress(&text("~5~6~")), Err(Lz77Error::InvalidDistance));
    assert_eq!(lz.decompress(&text("ab~3~1~")), Err(Lz77Error::InvalidDistance));
    assert_eq!(lz.decompress(&text("a~0~1~")), Err(Lz77Error::InvalidDistance));
    assert_eq!(lz.decompress(&text("a~1~x~~9~9~")), Err(Lz77Error::InvalidNumber));
}

#[test]
fn empty_text_compresses_to_nothing() {
    let lz = LZ77Compressor::new(None, None);
    assert_eq!(lz.compress(&Vec::new()), Vec::<u8>::new());
    assert_eq!(lz.decompress(&[]), Ok(Vec::new()));
}

#[test]
fn text_shorter_than_the_threshold_stays_as_it_is() {
    let lz = LZ77Compressor::new(None, None);
    assert_eq!(lz.compress(&text("aaaaa")), text("aaaaa"));
    assert_eq!(lz.compress(&text("a")), text("a"));
    assert_eq!(lz.compress(&text("aaaaaaa")), text("a~1~6~"));
}

#[test]
fn longest_match_defaults_to_the_root_of_the_window() {
    let s = text("aaaaaabbbbbabbababbbbbbbbbbaaaaaaaaabbbbbbabbbbbababababab");
    let by_default = LZ77Compressor::new(Some(49), None).compress(&s);
    let seven = LZ77Compressor::new(Some(49), Some(7)).compress(&s);
    let six = LZ77Compressor::new(Some(49), Some(6)).compress(&s);
    assert_eq!(by_default, seven);
    assert_ne!(by_default, six);
    let by_default = LZ77Compressor::new(Some(48), None).compress(&s);
    let six = LZ77Compressor::new(Some(48), Some(6)).compress(&s);
    assert_eq!(by_default, six);
}

#[test]
fn most_recent_match_is_taken() {
    let lz = LZ77Compressor::new(None, Some(6));
    // "abcdef" stands at 0 and at 7; the third copy refers to the nearer one
    assert_eq!(
        lz.compress(&text("abcdef-abcdef+abcdef")),
        text("abcdef-~7~6~+~7~6~")
    );
}

#[test]
fn window_is_run_step_by_step() {
    let s = text("aaaaaaaaaabbbbbbbbbb");
    let mut window = SlidingWindow::new(&s, 8, Some(6));
    window.run();
    assert_eq!(window.get_result(), text("aaaa~1~6~bbbb~1~6~"));
    let empty: Vec<u8> = Vec::new();
    let mut window = SlidingWindow::new(&empty, 8, Some(6));
    window.run();
    assert_eq!(window.get_result(), Vec::<u8>::new());
}

#[test]
fn compressed_text_decompresses_to_itself() {
    let texts = [
        "",
        "a",
        "abcabcabcabcabcabcabcabc",
        "the quick brown fox jumps over the lazy dog the quick brown fox",
        "0123456789012345678901234567890123456789",
    ];
    for t in texts {
        for (w, l) in [(None, None), (Some(8), Some(6)), (Some(3), None), (Some(1000), Some(20))] {
            let lz = LZ77Compressor::new(w, l);
            let bytes = text(t);
            assert_eq!(lz.decompress(&lz.compress(&bytes)), Ok(bytes));
        }
    }
}

#[test]
fn written_stream_is_read_back_and_written_the_same() {
    let lz = LZ77Compressor::new(None, Some(7));
    let compressed = lz.compress(&text("aaaaaabbbbbbccccccaaabbbccc"));
    let stream = ResultEncodingVec::from_ascii_bytes(&compressed).unwrap();
    let again = ResultEncodingVec::from_ascii_bytes(&text("aaaaaabbbbbbccccccaaa~12~6~")).unwrap();
    assert_eq!(format!("{:?}", stream), format!("{:?}", again));
    assert_eq!(stream.expand(), Ok(text("aaaaaabbbbbbccccccaaabbbccc")));
}

#[test]
fn different_substrings_of_the_corpus_hash_differently() {
    let corpus = [
        "abcabcbabcbb",
        "aaaaaaaaaabbbbbbbbbb",
        "aaaaaabbbbbbccccccaaabbbccc",
        "aaaaaabbbbbabbababbbbbbbbbbaaaaaaaaabbbbbbabbbbbababababab",
    ];
    for t in corpus {
        let s = text(t);
        let table = HashTable::new(&s, None);
        for len in 1..=8 {
            for a in 0..=s.len() - len {
                for b in 0..=s.len() - len {
                    let same_bytes = s[a..a + len] == s[b..b + len];
                    let same_hash = table.get_hash(a, a + len - 1) == table.get_hash(b, b + len - 1);
                    assert_eq!(same_bytes, same_hash);
                }
            }
        }
    }
}

#[test]
fn substrings_that_hash_alike_are_taken_for_each_other() {
    let first = "MTLNLQMOMPOTNP";
    let second = "RKSRSNSQROPLRO";
    let s = text(&format!("{first}{second}"));
    let two_layers = HashTable::new(&s, None);
    assert_eq!(two_layers.get_hash(0, 13), two_layers.get_hash(14, 27));
    let four_layers = HashTable::new(&s, Some(4));
    assert_ne!(four_layers.get_hash(0, 13), four_layers.get_hash(14, 27));

    let lz = LZ77Compressor::new(None, Some(14));
    let compressed = lz.compress(&s);
    assert_eq!(compressed, text("MTLNLQMOMPOTNP~14~14~"));
    assert_eq!(lz.decompress(&compressed), Ok(text(&format!("{first}{first}"))));

    let shorter = LZ77Compressor::new(None, Some(13));
    assert_eq!(shorter.decompress(&shorter.compress(&s)), Ok(s));
}
