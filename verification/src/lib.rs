//! A lossless compressor for byte sequences: LZ77 back-references followed by
//! Huffman coding, each stage optional.

pub mod huffman;
pub mod lz77;
pub mod utils;

use crate::huffman::implementation::HuffmanError;
use crate::huffman::HuffmanCompressor;
use crate::lz77::implementation::Lz77Error;
use crate::lz77::implementation::ResultEncoding;
use crate::lz77::implementation::DEFAULT_WINDOW_SIZE;
use crate::lz77::round_trip::bytes_below;
use crate::lz77::round_trip::lemma_compress_bytes;
use crate::lz77::round_trip::walk_faithful;
use crate::lz77::LZ77Compressor;
use crate::utils::bitvec_ext::bits_of;
use crate::utils::TypeOr;
use bit_vec::BitVec;
use vstd::prelude::*;
use vstd::string::*;
use vstd::utf8::decode_utf8;
use vstd::utf8::encode_utf8;
use vstd::utf8::valid_utf8;

verus! {

/// The settings that a caller can change.
#[derive(Hash, PartialEq, Eq, Clone, Copy, Debug, Structural)]
pub enum Params {
    WindowSize,
    MaxBlockSize,
    CodesPredef,
    ApplyHuffman,
    ApplyLZ77,
}

impl Params {
    /// What the setting is for.
    pub open spec fn spec_explain(self) -> Seq<char> {
        match self {
            Params::WindowSize => "Length of the interval in which in case of identical words occurence, the later one will be compressed."@,
            Params::MaxBlockSize => "Max length of word we will spot in sliding window."@,
            Params::CodesPredef => "If 0 then huffman codes won't be predefined, otherwise we will calculate it according to the given text."@,
            Params::ApplyHuffman => "If 0 then huffman algorithm is not applied in compression, otherwise it is"@,
            Params::ApplyLZ77 => "If 0 then lz77 algorithm is not applied in compression, otherwise it is"@,
        }
    }

    /// The name by which the setting is given on the command line.
    pub open spec fn spec_alias(self) -> Seq<char> {
        match self {
            Params::WindowSize => "-window_size"@,
            Params::MaxBlockSize => "-max_len_of_block"@,
            Params::CodesPredef => "-codes_predef"@,
            Params::ApplyHuffman => "-huff"@,
            Params::ApplyLZ77 => "-lz77"@,
        }
    }

    /// What the setting is for.
    pub fn explain(&self) -> (r: &'static str)
        ensures
            r@ == self.spec_explain(),
    {
        match self {
            Params::WindowSize => "Length of the interval in which in case of identical words occurence, the later one will be compressed.",
            Params::MaxBlockSize => "Max length of word we will spot in sliding window.",
            Params::CodesPredef => "If 0 then huffman codes won't be predefined, otherwise we will calculate it according to the given text.",
            Params::ApplyHuffman => "If 0 then huffman algorithm is not applied in compression, otherwise it is",
            Params::ApplyLZ77 => "If 0 then lz77 algorithm is not applied in compression, otherwise it is",
        }
    }

    /// The name by which the setting is given on the command line.
    pub fn alias(&self) -> (r: &'static str)
        ensures
            r@ == self.spec_alias(),
    {
        match self {
            Params::WindowSize => "-window_size",
            Params::MaxBlockSize => "-max_len_of_block",
            Params::CodesPredef => "-codes_predef",
            Params::ApplyHuffman => "-huff",
            Params::ApplyLZ77 => "-lz77",
        }
    }
}

/// The setting that a command-line name stands for, if it stands for one.
pub open spec fn spec_alias_param(alias: Seq<char>) -> Option<Params> {
    if alias == Params::WindowSize.spec_alias() {
        Some(Params::WindowSize)
    } else if alias == Params::MaxBlockSize.spec_alias() {
        Some(Params::MaxBlockSize)
    } else if alias == Params::CodesPredef.spec_alias() {
        Some(Params::CodesPredef)
    } else if alias == Params::ApplyHuffman.spec_alias() {
        Some(Params::ApplyHuffman)
    } else if alias == Params::ApplyLZ77.spec_alias() {
        Some(Params::ApplyLZ77)
    } else {
        None
    }
}

/// The values of the settings; `None` where the default of the stage itself is to be used.
pub struct CompressionParams {
    window_size: Option<usize>,
    max_block_size: Option<usize>,
    codes_predef: Option<usize>,
    apply_huffman: Option<usize>,
    apply_lz77: Option<usize>,
}

impl Default for CompressionParams {
    /// The settings as they are before any change.
    fn default() -> (r: Self)
        ensures
            r == CompressionParams::spec_new(),
            r.spec_get_param(Params::WindowSize) == None::<usize>,
            r.spec_get_param(Params::MaxBlockSize) == None::<usize>,
            r.spec_get_param(Params::CodesPredef) == Some(0usize),
            r.spec_get_param(Params::ApplyHuffman) == Some(1usize),
            r.spec_get_param(Params::ApplyLZ77) == Some(1usize),
    {
        Self::new()
    }
}

impl CompressionParams {
    /// The value of a setting.
    pub closed spec fn spec_get_param(&self, param: Params) -> Option<usize> {
        match param {
            Params::WindowSize => self.window_size,
            Params::MaxBlockSize => self.max_block_size,
            Params::CodesPredef => self.codes_predef,
            Params::ApplyHuffman => self.apply_huffman,
            Params::ApplyLZ77 => self.apply_lz77,
        }
    }

    /// The settings as they are before any change: both stages on, fitted codes, and the
    /// window and the longest match left to the LZ77 stage.
    pub closed spec fn spec_new() -> Self {
        CompressionParams {
            window_size: None,
            max_block_size: None,
            codes_predef: Some(0),
            apply_huffman: Some(1),
            apply_lz77: Some(1),
        }
    }

    /// The settings as they are before any change.
    pub fn new() -> (r: Self)
        ensures
            r == Self::spec_new(),
            r.spec_get_param(Params::WindowSize) == None::<usize>,
            r.spec_get_param(Params::MaxBlockSize) == None::<usize>,
            r.spec_get_param(Params::CodesPredef) == Some(0usize),
            r.spec_get_param(Params::ApplyHuffman) == Some(1usize),
            r.spec_get_param(Params::ApplyLZ77) == Some(1usize),
    {
        CompressionParams {
            window_size: None,
            max_block_size: None,
            codes_predef: Some(0),
            apply_huffman: Some(1),
            apply_lz77: Some(1),
        }
    }

    /// The setting that a command-line name stands for, if it stands for one.
    pub fn param_for_alias(alias: &String) -> (r: Option<Params>)
        ensures
            r == spec_alias_param(alias@),
    {
        if *alias == String::from_str(Params::WindowSize.alias()) {
            Some(Params::WindowSize)
        } else if *alias == String::from_str(Params::MaxBlockSize.alias()) {
            Some(Params::MaxBlockSize)
        } else if *alias == String::from_str(Params::CodesPredef.alias()) {
            Some(Params::CodesPredef)
        } else if *alias == String::from_str(Params::ApplyHuffman.alias()) {
            Some(Params::ApplyHuffman)
        } else if *alias == String::from_str(Params::ApplyLZ77.alias()) {
            Some(Params::ApplyLZ77)
        } else {
            None
        }
    }

    /// Sets the setting that `alias` names to `value`.
    pub fn update(&mut self, alias: &String, value: usize)
        requires
            spec_alias_param(alias@) is Some,
        ensures
            final(self).spec_get_param(spec_alias_param(alias@)->Some_0) == Some(value),
            forall|other: Params|
                other != spec_alias_param(alias@)->Some_0 ==> final(self).spec_get_param(other)
                    == old(self).spec_get_param(other),
    {
        match CompressionParams::param_for_alias(alias).unwrap() {
            Params::WindowSize => {
                self.window_size = Some(value);
            },
            Params::MaxBlockSize => {
                self.max_block_size = Some(value);
            },
            Params::CodesPredef => {
                self.codes_predef = Some(value);
            },
            Params::ApplyHuffman => {
                self.apply_huffman = Some(value);
            },
            Params::ApplyLZ77 => {
                self.apply_lz77 = Some(value);
            },
        }
    }

    /// The value of a setting.
    pub fn get_param(&self, param: &Params) -> (r: Option<usize>)
        ensures
            r == self.spec_get_param(*param),
    {
        match param {
            Params::WindowSize => self.window_size,
            Params::MaxBlockSize => self.max_block_size,
            Params::CodesPredef => self.codes_predef,
            Params::ApplyHuffman => self.apply_huffman,
            Params::ApplyLZ77 => self.apply_lz77,
        }
    }
}

/// Writes the help text for a set of settings.
pub struct HelpDisplayer<'a> {
    compression_params: &'a CompressionParams,
}

/// The line of the help text for one setting.
pub open spec fn spec_option_line(param: Params) -> Seq<char> {
    param.spec_alias() + ": "@ + param.spec_explain() + "\n"@
}

impl<'a> HelpDisplayer<'a> {
    /// The settings that the text is written for.
    pub closed spec fn params(&self) -> &CompressionParams {
        self.compression_params
    }

    /// The help text: a heading, the usage line, one line for each setting, and a closing
    /// rule.
    pub open spec fn spec_message() -> Seq<char> {
        "INFO:\n-----------------------\n\nUsage is: cargo run -- [options value]\nPossible 'options' are:\n"@
            + spec_option_line(Params::WindowSize) + spec_option_line(Params::MaxBlockSize)
            + spec_option_line(Params::CodesPredef) + spec_option_line(Params::ApplyHuffman)
            + spec_option_line(Params::ApplyLZ77)
            + "    Value should be an integer\n-----------------------\n"@
    }

    /// A writer of the help text for these settings.
    pub fn new(compression_params: &'a CompressionParams) -> (r: Self)
        ensures
            r.params() == compression_params,
    {
        HelpDisplayer { compression_params }
    }

    /// The line of the help text for one setting.
    fn option_line(param: Params) -> (r: String)
        ensures
            r@ == spec_option_line(param),
    {
        let mut line = String::from_str(param.alias());
        line.append(": ");
        line.append(param.explain());
        line.append("\n");
        line
    }

    /// The help text.
    pub fn message(&self) -> (r: String)
        ensures
            r@ == Self::spec_message(),
    {
        let mut text = String::from_str(
            "INFO:\n-----------------------\n\nUsage is: cargo run -- [options value]\nPossible 'options' are:\n",
        );
        text.append(HelpDisplayer::option_line(Params::WindowSize).as_str());
        text.append(HelpDisplayer::option_line(Params::MaxBlockSize).as_str());
        text.append(HelpDisplayer::option_line(Params::CodesPredef).as_str());
        text.append(HelpDisplayer::option_line(Params::ApplyHuffman).as_str());
        text.append(HelpDisplayer::option_line(Params::ApplyLZ77).as_str());
        text.append("    Value should be an integer\n-----------------------\n");
        text
    }
}

/// Why a compressed value cannot be turned back into a text.
#[derive(Clone, Copy, Debug, PartialEq, Eq, Structural)]
pub enum DeflateError {
    /// The Huffman stage could not decode the bit stream.
    Huffman(HuffmanError),
    /// The LZ77 stage could not read or expand the reference stream.
    Lz77(Lz77Error),
    /// The bytes that came out are not UTF-8.
    InvalidUtf8,
}

/// What a compressed value holds: the bits of a bit stream, or the bytes of a byte stream.
pub open spec fn compressed_view(c: TypeOr<BitVec, Vec<u8>>) -> TypeOr<Seq<bool>, Seq<u8>> {
    match c {
        TypeOr::Left(bits) => TypeOr::Left(bits_of(bits)),
        TypeOr::Right(bytes) => TypeOr::Right(bytes@),
    }
}

/// `String::from_utf8`: the string that the bytes are the UTF-8 form of, or nothing where
/// they are not valid UTF-8.
#[verifier::external_body]
fn string_from_utf8(bytes: Vec<u8>) -> (r: Option<String>)
    ensures
        r is Some <==> valid_utf8(bytes@),
        r is Some ==> r->Some_0@ == decode_utf8(bytes@),
{
    match String::from_utf8(bytes) {
        Ok(text) => Some(text),
        Err(_) => None,
    }
}

/// The whole pipeline with its configuration.
pub struct DeflateCompression {
    lz77_compressor: LZ77Compressor,
    apply_huffman: bool,
    huffman_codes_predefined: bool,
    apply_lz77: bool,
}

impl DeflateCompression {
    /// The window size of the LZ77 stage.
    pub closed spec fn window_size(&self) -> usize {
        self.lz77_compressor.window_size()
    }

    /// The longest match of the LZ77 stage, if one was named.
    pub closed spec fn max_len_to_reduce(&self) -> Option<usize> {
        self.lz77_compressor.max_len_to_reduce()
    }

    /// Whether the Huffman stage is on.
    pub closed spec fn apply_huffman(&self) -> bool {
        self.apply_huffman
    }

    /// Whether the Huffman stage uses the predefined codes.
    pub closed spec fn huffman_codes_predefined(&self) -> bool {
        self.huffman_codes_predefined
    }

    /// Whether the LZ77 stage is on.
    pub closed spec fn apply_lz77(&self) -> bool {
        self.apply_lz77
    }

    /// Whether a setting is on: it is on when its value is above zero.
    pub open spec fn is_on(value: Option<usize>, default: usize) -> bool {
        match value {
            Some(v) => v > 0,
            None => default > 0,
        }
    }

    /// The pipeline for the given settings. A window or a longest match of zero is no setting
    /// that the pipeline can be made with.
    pub fn new(compression_params: &CompressionParams) -> (r: Self)
        requires
            compression_params.spec_get_param(Params::WindowSize) != Some(0usize),
            compression_params.spec_get_param(Params::MaxBlockSize) != Some(0usize),
        ensures
            r.window_size() == match compression_params.spec_get_param(Params::WindowSize) {
                Some(w) => w,
                None => DEFAULT_WINDOW_SIZE,
            },
            r.max_len_to_reduce() == compression_params.spec_get_param(Params::MaxBlockSize),
            r.huffman_codes_predefined() == Self::is_on(
                compression_params.spec_get_param(Params::CodesPredef),
                0,
            ),
            r.apply_huffman() == Self::is_on(
                compression_params.spec_get_param(Params::ApplyHuffman),
                1,
            ),
            r.apply_lz77() == Self::is_on(compression_params.spec_get_param(Params::ApplyLZ77), 1),
    {
        let window_size = compression_params.get_param(&Params::WindowSize);
        let max_block_size = compression_params.get_param(&Params::MaxBlockSize);
        let predefined_codes = match compression_params.get_param(&Params::CodesPredef) {
            Some(v) => v,
            None => 0,
        } > 0;
        let apply_huffman = match compression_params.get_param(&Params::ApplyHuffman) {
            Some(v) => v,
            None => 1,
        } > 0;
        let apply_lz77 = match compression_params.get_param(&Params::ApplyLZ77) {
            Some(v) => v,
            None => 1,
        } > 0;
        DeflateCompression {
            lz77_compressor: LZ77Compressor::new(window_size, max_block_size),
            apply_huffman,
            huffman_codes_predefined: predefined_codes,
            apply_lz77,
        }
    }

    /// What the Huffman stage is given, or what is handed out where that stage is off.
    pub open spec fn spec_stage_input(&self, bytes: Seq<u8>) -> Seq<u8> {
        if self.apply_lz77() {
            crate::lz77::implementation::spec_compress(
                bytes,
                self.window_size(),
                self.max_len_to_reduce(),
            )
        } else {
            bytes
        }
    }

    /// The compressed form of `bytes`.
    pub open spec fn spec_compress(&self, bytes: Seq<u8>) -> TypeOr<Seq<bool>, Seq<u8>> {
        if self.apply_huffman() {
            TypeOr::Left(
                crate::huffman::implementation::spec_compress(
                    self.spec_stage_input(bytes),
                    self.huffman_codes_predefined(),
                ),
            )
        } else {
            TypeOr::Right(self.spec_stage_input(bytes))
        }
    }

    /// The bytes that a compressed value stands for.
    pub open spec fn spec_decompress_bytes(&self, c: TypeOr<Seq<bool>, Seq<u8>>) -> Result<
        Seq<u8>,
        DeflateError,
    > {
        let staged = match c {
            TypeOr::Left(bits) => match crate::huffman::implementation::spec_decompress(bits) {
                Ok(bytes) => Ok(bytes),
                Err(e) => Err(DeflateError::Huffman(e)),
            },
            TypeOr::Right(bytes) => Ok(bytes),
        };
        match staged {
            Err(e) => Err(e),
            Ok(bytes) => if self.apply_lz77() {
                match crate::lz77::implementation::spec_decompress(bytes) {
                    Ok(out) => Ok(out),
                    Err(e) => Err(DeflateError::Lz77(e)),
                }
            } else {
                Ok(bytes)
            },
        }
    }

    /// The text that a compressed value stands for.
    pub open spec fn spec_decompress(&self, c: TypeOr<Seq<bool>, Seq<u8>>) -> Result<
        Seq<char>,
        DeflateError,
    > {
        match self.spec_decompress_bytes(c) {
            Err(e) => Err(e),
            Ok(bytes) => if valid_utf8(bytes) {
                Ok(decode_utf8(bytes))
            } else {
                Err(DeflateError::InvalidUtf8)
            },
        }
    }

    /// The texts that can be compressed. Where the Huffman stage is on: with the predefined
    /// codes every byte is below 127, with fitted codes the text is not empty, and the
    /// text is short enough for the bit stream to be held.
    pub open spec fn accepts(&self, bytes: Seq<u8>) -> bool {
        self.apply_huffman() ==> {
            &&& self.huffman_codes_predefined() ==> bytes_below(bytes, 127)
            &&& !self.huffman_codes_predefined() ==> bytes.len() > 0
            &&& bytes.len() * 43 * 256 + 8 * 513 <= usize::MAX
        }
    }

    /// Compresses `text`: the stages that are on, one after the other. The result is a bit
    /// stream where the Huffman stage is on, else a byte stream.
    pub fn deflate_compress(&mut self, text: &String) -> (r: TypeOr<BitVec, Vec<u8>>)
        requires
            old(self).accepts(encode_utf8(text@)),
        ensures
            *final(self) == *old(self),
            compressed_view(r) == old(self).spec_compress(encode_utf8(text@)),
    {
        let mut result = text.as_str().as_bytes_vec();
        proof {
            if self.apply_huffman {
                lemma_compress_bytes(
                    result@,
                    self.window_size(),
                    self.max_len_to_reduce(),
                    if self.huffman_codes_predefined {
                        127
                    } else {
                        256
                    },
                );
            }
        }
        if self.apply_lz77 {
            result = self.lz77_compressor.compress(&result);
        }
        if self.apply_huffman {
            return TypeOr::Left(
                HuffmanCompressor::compress(&result, self.huffman_codes_predefined),
            );
        }
        TypeOr::Right(result)
    }

    /// Turns a compressed value back into a text: the stages that are on, in the other order.
    pub fn deflate_decompress(&self, seq: &TypeOr<BitVec, Vec<u8>>) -> (r: Result<
        String,
        DeflateError,
    >)
        ensures
            match self.spec_decompress(compressed_view(*seq)) {
                Err(e) => r == Err::<String, DeflateError>(e),
                Ok(text) => r is Ok && r->Ok_0@ == text,
            },
    {
        let result: Vec<u8> = match seq {
            TypeOr::Left(bits) => match HuffmanCompressor::decompress(bits) {
                Ok(bytes) => bytes,
                Err(e) => {
                    return Err(DeflateError::Huffman(e));
                },
            },
            TypeOr::Right(bytes) => bytes.clone(),
        };
        let result: Vec<u8> = if self.apply_lz77 {
            match self.lz77_compressor.decompress(result.as_slice()) {
                Ok(bytes) => bytes,
                Err(e) => {
                    return Err(DeflateError::Lz77(e));
                },
            }
        } else {
            result
        };
        match string_from_utf8(result) {
            Some(text) => Ok(text),
            None => Err(DeflateError::InvalidUtf8),
        }
    }
}

/// A text decompresses from its compressed form to itself, whichever stages are on, as
/// long as each stage that is on gives its own input back: the LZ77 stage where the text
/// holds no separator byte and every back-reference is faithful, the Huffman stage on the
/// inputs that it can carry.
pub proof fn lemma_round_trip(cfg: DeflateCompression, text: Seq<char>)
    requires
        encode_utf8(text).len() <= usize::MAX,
        cfg.apply_lz77() ==> {
            &&& forall|k: int|
                0 <= k < encode_utf8(text).len() ==> #[trigger] encode_utf8(text)[k]
                    != ResultEncoding::spec_separator()
            &&& walk_faithful(
                encode_utf8(text),
                crate::lz77::implementation::spec_records(
                    encode_utf8(text),
                    crate::lz77::implementation::effective_window(
                        cfg.window_size(),
                        encode_utf8(text).len(),
                    ) as int,
                    crate::lz77::implementation::effective_max_len(
                        cfg.window_size(),
                        cfg.max_len_to_reduce(),
                        encode_utf8(text).len(),
                    ) as int,
                ),
                encode_utf8(text).len() - 1,
            )
        },
        cfg.apply_huffman() ==> crate::huffman::round_trip::round_trip_input(
            cfg.spec_stage_input(encode_utf8(text)),
            cfg.huffman_codes_predefined(),
        ),
    ensures
        cfg.spec_decompress(cfg.spec_compress(encode_utf8(text))) == Ok::<Seq<char>, DeflateError>(
            text,
        ),
{
    let bytes = encode_utf8(text);
    if cfg.apply_lz77() {
        crate::lz77::round_trip::lemma_round_trip(
            bytes,
            cfg.window_size(),
            cfg.max_len_to_reduce(),
        );
    }
    if cfg.apply_huffman() {
        crate::huffman::round_trip::lemma_round_trip(
            cfg.spec_stage_input(bytes),
            cfg.huffman_codes_predefined(),
        );
    }
    vstd::utf8::encode_utf8_valid_utf8(text);
    vstd::utf8::encode_utf8_decode_utf8(text);
}

/// A text of bytes below 127 without the separator byte decompresses from its compressed
/// form to itself in all four combinations of the stages, as long as every back-reference is
/// faithful and, where the codes are fitted, the text is not empty.
pub proof fn lemma_round_trip_of_plain_text(cfg: DeflateCompression, text: Seq<char>)
    requires
        encode_utf8(text).len() <= usize::MAX,
        bytes_below(encode_utf8(text), 127),
        forall|k: int|
            0 <= k < encode_utf8(text).len() ==> #[trigger] encode_utf8(text)[k]
                != ResultEncoding::spec_separator(),
        cfg.apply_huffman() && !cfg.huffman_codes_predefined() ==> text.len() > 0,
        cfg.apply_lz77() ==> walk_faithful(
            encode_utf8(text),
            crate::lz77::implementation::spec_records(
                encode_utf8(text),
                crate::lz77::implementation::effective_window(
                    cfg.window_size(),
                    encode_utf8(text).len(),
                ) as int,
                crate::lz77::implementation::effective_max_len(
                    cfg.window_size(),
                    cfg.max_len_to_reduce(),
                    encode_utf8(text).len(),
                ) as int,
            ),
            encode_utf8(text).len() - 1,
        ),
    ensures
        cfg.spec_decompress(cfg.spec_compress(encode_utf8(text))) == Ok::<Seq<char>, DeflateError>(
            text,
        ),
{
    let bytes = encode_utf8(text);
    lemma_compress_bytes(bytes, cfg.window_size(), cfg.max_len_to_reduce(), 127);
    if text.len() > 0 {
        assert(bytes.len() > 0) by {
            if bytes.len() == 0 {
                vstd::utf8::encode_utf8_decode_utf8(text);
                assert(decode_utf8(bytes).len() == 0);
            }
        }
    }
    let staged = cfg.spec_stage_input(bytes);
    assert(bytes_below(staged, 127));
    if cfg.apply_huffman() {
        if cfg.huffman_codes_predefined() {
            assert(crate::huffman::round_trip::round_trip_input(staged, true));
        } else {
            assert forall|i: int| 0 <= i < staged.len() implies #[trigger] staged[i] < 128 by {
                assert(staged[i] < 127);
            }
            assert(crate::huffman::round_trip::round_trip_input(staged, false));
        }
    }
    lemma_round_trip(cfg, text);
}

} // verus!
