use bit_vec::BitVec;
use compression::huffman::implementation::HuffmanError;
use compression::lz77::implementation::Lz77Error;
use compression::utils::TypeOr;
use compression::CompressionParams;
use compression::DeflateCompression;
use compression::DeflateError;
use compression::HelpDisplayer;
use compression::Params;

fn settings(pairs: &[(&str, usize)]) -> CompressionParams {
    let mut params = CompressionParams::new();
    for (alias, value) in pairs {
        params.update(&alias.to_string(), *value);
    }
    params
}

#[test]
fn settings_start_with_their_defaults() {
    let params = CompressionParams::new();
    assert_eq!(params.get_param(&Params::WindowSize), None);
    assert_eq!(params.get_param(&Params::MaxBlockSize), None);
    assert_eq!(params.get_param(&Params::CodesPredef), Some(0));
    assert_eq!(params.get_param(&Params::ApplyHuffman), Some(1));
    assert_eq!(params.get_param(&Params::ApplyLZ77), Some(1));
    let params = CompressionParams::default();
    assert_eq!(params.get_param(&Params::WindowSize), None);
    assert_eq!(params.get_param(&Params::ApplyLZ77), Some(1));
}

#[test]
fn setting_is_changed_by_its_alias() {
    let mut params = CompressionParams::new();
    params.update(&"-window_size".to_string(), 64);
    assert_eq!(params.get_param(&Params::WindowSize), Some(64));
    assert_eq!(params.get_param(&Params::MaxBlockSize), None);
    params.update(&"-max_len_of_block".to_string(), 8);
    params.update(&"-codes_predef".to_string(), 1);
    params.update(&"-huff".to_string(), 0);
    params.update(&"-lz77".to_string(), 0);
    assert_eq!(params.get_param(&Params::WindowSize), Some(64));
    assert_eq!(params.get_param(&Params::MaxBlockSize), Some(8));
    assert_eq!(params.get_param(&Params::CodesPredef), Some(1));
    assert_eq!(params.get_param(&Params::ApplyHuffman), Some(0));
    assert_eq!(params.get_param(&Params::ApplyLZ77), Some(0));
}

#[test]
fn alias_names_its_setting() {
    let known = [
        ("-window_size", Params::WindowSize),
        ("-max_len_of_block", Params::MaxBlockSize),
        ("-codes_predef", Params::CodesPredef),
        ("-huff", Params::ApplyHuffman),
        ("-lz77", Params::ApplyLZ77),
    ];
    for (alias, param) in known {
        assert_eq!(CompressionParams::param_for_alias(&alias.to_string()), Some(param));
        assert_eq!(param.alias(), alias);
    }
    for alias in ["", "window_size", "-LZ77", "-huff ", "--huff"] {
        assert_eq!(CompressionParams::param_for_alias(&alias.to_string()), None);
    }
}

#[test]
fn every_setting_is_explained() {
    assert_eq!(
        Params::MaxBlockSize.explain(),
        "Max length of word we will spot in sliding window."
    );
    assert_eq!(
        Params::ApplyLZ77.explain(),
        "If 0 then lz77 algorithm is not applied in compression, otherwise it is"
    );
    assert!(Params::WindowSize.explain().starts_with("Length of the interval"));
    assert!(Params::CodesPredef.explain().starts_with("If 0 then huffman codes"));
    assert!(Params::ApplyHuffman.explain().starts_with("If 0 then huffman algorithm"));
}

#[test]
fn help_text_lists_every_option() {
    let params = CompressionParams::new();
    let message = HelpDisplayer::new(&params).message();
    assert!(message.starts_with(
        "INFO:\n-----------------------\n\nUsage is: cargo run -- [options value]\nPossible 'options' are:\n"
    ));
    assert!(message.ends_with("    Value should be an integer\n-----------------------\n"));
    assert!(message.contains("-huff: If 0 then huffman algorithm is not applied in compression, otherwise it is\n"));
    assert!(message.contains("-max_len_of_block: Max length of word we will spot in sliding window.\n"));
    assert_eq!(message.lines().count(), 12);
}

#[test]
fn every_combination_of_stages_gives_the_text_back() {
    let text = String::from("abcabcbabcbbhjklijhga789! abcabcbabcbbhjklijhga789!");
    for huff in [0, 1] {
        for lz in [0, 1] {
            for predefined in [0, 1] {
                let params = settings(&[("-huff", huff), ("-lz77", lz), ("-codes_predef", predefined)]);
                let mut compressor = DeflateCompression::new(&params);
                let compressed = compressor.deflate_compress(&text);
                assert_eq!(matches!(compressed, TypeOr::Left(_)), huff == 1);
                assert_eq!(compressor.deflate_decompress(&compressed), Ok(text.clone()));
            }
        }
    }
}

#[test]
fn stage_that_is_off_leaves_the_bytes_alone() {
    let text = String::from("aaaaaaaaaabbbbbbbbbb");
    let mut plain = DeflateCompression::new(&settings(&[("-huff", 0), ("-lz77", 0)]));
    assert_eq!(plain.deflate_compress(&text), TypeOr::Right(Vec::from(text.as_bytes())));
    let mut only_lz = DeflateCompression::new(&settings(&[
        ("-huff", 0),
        ("-window_size", 8),
        ("-max_len_of_block", 6),
    ]));
    assert_eq!(
        only_lz.deflate_compress(&text),
        TypeOr::Right(Vec::from("aaaa~1~6~bbbb~1~6~".as_bytes()))
    );
    let mut only_huffman = DeflateCompression::new(&settings(&[("-lz77", 0)]));
    match only_huffman.deflate_compress(&String::from("aaa")) {
        TypeOr::Left(bits) => assert_eq!(bits.to_bytes(), vec![2, 97, 3, 0b1110_0000]),
        TypeOr::Right(_) => panic!("the Huffman stage is on"),
    }
}

#[test]
fn text_of_more_than_one_byte_per_character_comes_back() {
    let text = String::from("zażółć gęślą jaźń, zażółć gęślą jaźń");
    let mut compressor = DeflateCompression::new(&CompressionParams::new());
    let compressed = compressor.deflate_compress(&text);
    assert_eq!(compressor.deflate_decompress(&compressed), Ok(text));
}

#[test]
fn failure_of_a_stage_is_handed_on() {
    let both = DeflateCompression::new(&CompressionParams::new());
    assert_eq!(
        both.deflate_decompress(&TypeOr::Left(BitVec::new())),
        Err(DeflateError::Huffman(HuffmanError::EmptyStream))
    );
    assert_eq!(
        both.deflate_decompress(&TypeOr::Right(Vec::from("ab~9~9~".as_bytes()))),
        Err(DeflateError::Lz77(Lz77Error::InvalidDistance))
    );
    assert_eq!(
        both.deflate_decompress(&TypeOr::Right(vec![0xff, 0xfe])),
        Err(DeflateError::InvalidUtf8)
    );
    let plain = DeflateCompression::new(&settings(&[("-huff", 0), ("-lz77", 0)]));
    assert_eq!(
        plain.deflate_decompress(&TypeOr::Right(vec![0xc3])),
        Err(DeflateError::InvalidUtf8)
    );
    assert_eq!(
        plain.deflate_decompress(&TypeOr::Right(Vec::from("a~b".as_bytes()))),
        Ok(String::from("a~b"))
    );
}
