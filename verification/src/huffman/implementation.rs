//! The Huffman codec: the header that carries the weight table, the coding of a text, and
//! the decoding of a bit stream.

use crate::huffman::trees::code_table;
use crate::huffman::trees::inverse_codes;
use crate::huffman::trees::lemma_code_length;
use crate::huffman::trees::lemma_spec_tree;
use crate::huffman::trees::non_empty_table;
use crate::huffman::trees::spec_codes;
use crate::huffman::trees::HuffmanTreeCreator;
use crate::huffman::utils::calc_distinct_symbols_num;
use crate::huffman::utils::distinct_symbols;
use crate::huffman::weights::lemma_occurrences_contains;
use crate::huffman::weights::spec_default_weights;
use crate::huffman::weights::spec_fitted;
use crate::huffman::weights::WeightsCalculator;
use crate::utils::bitvec_ext::bits_clone;
use crate::utils::bitvec_ext::bits_extend;
use crate::utils::bitvec_ext::bits_from_bytes;
use crate::utils::bitvec_ext::bits_get;
use crate::utils::bitvec_ext::bits_len;
use crate::utils::bitvec_ext::bits_new;
use crate::utils::bitvec_ext::bits_of;
use crate::utils::bitvec_ext::bits_push;
use crate::utils::bitvec_ext::bits_to_byte_vec;
use crate::utils::bitvec_ext::bits_to_bytes;
use crate::utils::bitvec_ext::bytes_to_bits;
use crate::utils::bitvec_ext::code_index;
use crate::utils::bitvec_ext::index_get;
use crate::utils::bitvec_ext::CodeIndex;
use crate::utils::concat_all;
use bit_vec::BitVec;
use std::collections::HashMap;
use vstd::prelude::*;

verus! {

/// From this many different symbols on, the header holds one weight for each of the
/// first 128 byte values.
pub const HALF_ASCII_SZ: u8 = 64;

/// The size byte of a header of the dense kind, and the number of weights in it.
pub const ASCII_SZ: u8 = 128;

/// The number of bits in a byte.
pub const NUM_OF_BITS_IN_BYTE: u8 = 8;

/// Why a bit stream cannot be decoded.
#[derive(Clone, Copy, Debug, PartialEq, Eq, Structural)]
pub enum HuffmanError {
    /// The stream holds no bit, so it has no size byte.
    EmptyStream,
    /// The size byte announces more header bytes than the stream holds.
    TruncatedHeader,
    /// The header gives no symbol a positive weight.
    EmptyWeightTable,
    /// The bits that are left are not the start of any code word.
    UnmatchedBits,
}

/// The pairs (symbol, weight) of the table for the symbols below `k`, in ascending order.
pub open spec fn pairs_below(w: Map<u8, u8>, k: int) -> Seq<u8>
    decreases k,
{
    if k <= 0 {
        Seq::empty()
    } else {
        let before = pairs_below(w, k - 1);
        if w.contains_key((k - 1) as u8) {
            before.push((k - 1) as u8).push(w[(k - 1) as u8])
        } else {
            before
        }
    }
}

/// The weights of the byte values 0 to 127, zero for a symbol that the table lacks.
pub open spec fn dense_table(w: Map<u8, u8>) -> Seq<u8> {
    Seq::new(
        128,
        |i: int|
            if w.contains_key(i as u8) {
                w[i as u8]
            } else {
                0u8
            },
    )
}

/// The header for a table: the size byte, then the weights in the dense or the sparse form.
pub open spec fn spec_header(w: Map<u8, u8>, symbols_num: u8) -> Seq<u8> {
    if symbols_num >= 64 {
        seq![128u8] + dense_table(w)
    } else {
        seq![(symbols_num * 2) as u8] + pairs_below(w, 256)
    }
}

/// The table that the first `pairs` pairs after the size byte give; a pair with weight
/// zero is passed over, and a later pair for a symbol replaces an earlier one.
pub open spec fn sparse_weights(bytes: Seq<u8>, pairs: int) -> Map<u8, u8>
    decreases pairs,
{
    if pairs <= 0 {
        Map::empty()
    } else {
        let before = sparse_weights(bytes, pairs - 1);
        if bytes[2 * pairs] > 0 {
            before.insert(bytes[2 * pairs - 1], bytes[2 * pairs])
        } else {
            before
        }
    }
}

/// The table that `size` weights after the size byte give, one for each symbol from 0 on.
pub open spec fn dense_weights(bytes: Seq<u8>, size: int) -> Map<u8, u8> {
    Map::new(|s: u8| s < size && bytes[s + 1] > 0, |s: u8| bytes[s + 1])
}

/// The weight table that the header at the start of `bytes` holds.
pub open spec fn spec_header_weights(bytes: Seq<u8>) -> Result<Map<u8, u8>, HuffmanError> {
    if bytes.len() == 0 {
        Err(HuffmanError::EmptyStream)
    } else {
        let size = bytes[0] as int;
        if size < 128 {
            let pairs = (size + 1) / 2;
            if bytes.len() < 2 * pairs + 1 {
                Err(HuffmanError::TruncatedHeader)
            } else {
                Ok(sparse_weights(bytes, pairs))
            }
        } else {
            if bytes.len() < size + 1 {
                Err(HuffmanError::TruncatedHeader)
            } else {
                Ok(dense_weights(bytes, size))
            }
        }
    }
}

/// The bits after the header: all that follows the size byte and the bytes it announces.
pub open spec fn spec_payload(bits: Seq<bool>) -> Seq<bool> {
    let skip = 8 * (1 + bits_to_bytes(bits)[0]);
    if skip <= bits.len() {
        bits.subrange(skip, bits.len() as int)
    } else {
        Seq::empty()
    }
}

/// The length of the shortest start of `s` that is longer than `tried` bits and is a code
/// word, or 0 if there is none.
pub open spec fn match_len(index: Map<Seq<bool>, u8>, s: Seq<bool>, tried: int) -> int
    decreases s.len() - tried,
{
    if tried < 0 || tried >= s.len() {
        0
    } else if index.contains_key(s.subrange(0, tried + 1)) {
        tried + 1
    } else {
        match_len(index, s, tried + 1)
    }
}

/// The symbol of the shortest start of `s` that is a code word, with its length; or
/// `(None, 0)`.
pub open spec fn spec_match(index: Map<Seq<bool>, u8>, s: Seq<bool>) -> (Option<u8>, usize) {
    let n = match_len(index, s, 0);
    if n > 0 {
        (Some(index[s.subrange(0, n)]), n as usize)
    } else {
        (None, 0)
    }
}

/// The symbols that the bits of `s` from `pos` on decode to, one code word after another.
pub open spec fn decode_from(index: Map<Seq<bool>, u8>, s: Seq<bool>, pos: int) -> Result<
    Seq<u8>,
    HuffmanError,
>
    decreases
            (if pos < s.len() {
                s.len() - pos
            } else {
                0
            }),
{
    if pos < 0 || pos >= s.len() {
        Ok(Seq::empty())
    } else {
        let rest = s.subrange(pos, s.len() as int);
        let n = match_len(index, rest, 0);
        if n <= 0 {
            Err(HuffmanError::UnmatchedBits)
        } else {
            match decode_from(index, s, pos + n) {
                Err(e) => Err(e),
                Ok(tail) => Ok(seq![index[rest.subrange(0, n)]] + tail),
            }
        }
    }
}

/// What a bit stream decompresses to.
pub open spec fn spec_decompress(bits: Seq<bool>) -> Result<Seq<u8>, HuffmanError> {
    match spec_header_weights(bits_to_bytes(bits)) {
        Err(e) => Err(e),
        Ok(w) => if !non_empty_table(w) {
            Err(HuffmanError::EmptyWeightTable)
        } else {
            decode_from(inverse_codes(spec_codes(w)), spec_payload(bits), 0)
        },
    }
}

/// The code words of the bytes of `s`, one after another.
pub open spec fn spec_encode(codes: Map<u8, Seq<bool>>, s: Seq<u8>) -> Seq<bool>
    decreases s.len(),
{
    if s.len() == 0 {
        Seq::empty()
    } else {
        spec_encode(codes, s.drop_last()) + codes[s.last()]
    }
}

/// The weight table that is used to compress `s`.
pub open spec fn compress_weights(s: Seq<u8>, predefined: bool) -> Map<u8, u8> {
    if predefined {
        spec_default_weights()
    } else {
        spec_fitted(s)
    }
}

/// The number of symbols that selects the kind of header: the size of the predefined
/// table, or the number of different bytes of `s`.
pub open spec fn compress_symbols_num(s: Seq<u8>, predefined: bool) -> u8 {
    if predefined {
        127
    } else {
        (distinct_symbols(s) % 256) as u8
    }
}

/// The compressed form of `s`: the header, then the code words of its bytes.
pub open spec fn spec_compress(s: Seq<u8>, predefined: bool) -> Seq<bool> {
    bytes_to_bits(
        spec_header(compress_weights(s, predefined), compress_symbols_num(s, predefined)),
    ) + spec_encode(spec_codes(compress_weights(s, predefined)), s)
}

/// The number of symbols below `k` that the table holds.
pub open spec fn keys_below(w: Map<u8, u8>, k: int) -> nat
    decreases k,
{
    if k <= 0 {
        0
    } else {
        keys_below(w, k - 1) + if w.contains_key((k - 1) as u8) {
            1nat
        } else {
            0nat
        }
    }
}

/// The bits of two byte sequences joined are the bits of the one, then those of the other.
pub proof fn lemma_bytes_to_bits_concat(a: Seq<u8>, b: Seq<u8>)
    ensures
        bytes_to_bits(a + b) == bytes_to_bits(a) + bytes_to_bits(b),
{
    let joined = bytes_to_bits(a + b);
    let parts = bytes_to_bits(a) + bytes_to_bits(b);
    assert(joined.len() == parts.len());
    assert forall|i: int| 0 <= i < joined.len() implies joined[i] == parts[i] by {
        if i < a.len() * 8 {
            assert((a + b)[i / 8] == a[i / 8]);
        } else {
            let j = i - a.len() * 8;
            assert(j / 8 == i / 8 - a.len());
            assert(j % 8 == i % 8);
            assert((a + b)[i / 8] == b[j / 8]);
        }
    }
    assert(joined =~= parts);
}

/// The sparse table holds two bytes for every symbol of the weight table.
pub proof fn lemma_pairs_below(w: Map<u8, u8>, k: int)
    requires
        0 <= k <= 256,
    ensures
        pairs_below(w, k).len() == 2 * keys_below(w, k),
        keys_below(w, k) <= k,
        keys_below(w, k) > 0 <==> exists|s: u8| s < k && w.contains_key(s),
    decreases k,
{
    if k > 0 {
        lemma_pairs_below(w, k - 1);
        if keys_below(w, k) > 0 {
            if w.contains_key((k - 1) as u8) {
                assert(((k - 1) as u8) < k && w.contains_key((k - 1) as u8));
            } else {
                let s = choose|s: u8| s < k - 1 && w.contains_key(s);
                assert(s < k && w.contains_key(s));
            }
        }
        if exists|s: u8| s < k && w.contains_key(s) {
            let s = choose|s: u8| s < k && w.contains_key(s);
            if s < k - 1 {
                assert(s < k - 1 && w.contains_key(s));
            }
        }
    }
}

/// A weight table with the code words that it gives.
pub struct HuffmanCodes {
    symbols_weights: HashMap<u8, u8>,
    symbols_num: Option<u8>,
    mapping_on_bits: HashMap<u8, BitVec>,
    mapping_on_bytes: CodeIndex,
}

impl HuffmanCodes {
    /// The weight table.
    pub closed spec fn weights(&self) -> Map<u8, u8> {
        self.symbols_weights@
    }

    /// The number of symbols that selects the kind of header.
    pub closed spec fn symbols_num(&self) -> Option<u8> {
        self.symbols_num
    }

    /// Whether the table names a symbol and both code tables are those of the weight table.
    pub closed spec fn wf(&self) -> bool {
        &&& non_empty_table(self.symbols_weights@)
        &&& self.symbols_num is Some
        &&& code_table(self.mapping_on_bits@) == spec_codes(self.symbols_weights@)
        &&& code_index(self.mapping_on_bytes) == inverse_codes(spec_codes(self.symbols_weights@))
    }

    /// The codes of the predefined table. The header of a stream coded with them is of
    /// the dense kind, whatever `bytes` holds.
    pub fn new_predefined(bytes: &[u8]) -> (r: Self)
        ensures
            r.wf(),
            r.weights() == spec_default_weights(),
            r.symbols_num() == Some(127u8),
    {
        let weights = WeightsCalculator::default();
        assert(weights@.contains_key(0u8));
        let (on_bits, on_bytes) = HuffmanTreeCreator::get_mappings(&weights);
        HuffmanCodes {
            symbols_weights: weights,
            symbols_num: Some(crate::huffman::weights::ASCII_SZ),
            mapping_on_bits: on_bits,
            mapping_on_bytes: on_bytes,
        }
    }

    /// The codes of the table fitted to `bytes`.
    pub fn new_calc_on_bytes(bytes: &[u8]) -> (r: Self)
        requires
            bytes@.len() > 0,
        ensures
            r.wf(),
            r.weights() == spec_fitted(bytes@),
            r.symbols_num() == Some((distinct_symbols(bytes@) % 256) as u8),
    {
        let weights = WeightsCalculator::fitted_to_text(bytes);
        proof {
            lemma_occurrences_contains(bytes@, bytes@[0]);
            assert(weights@.contains_key(bytes@[0]));
        }
        let (on_bits, on_bytes) = HuffmanTreeCreator::get_mappings(&weights);
        HuffmanCodes {
            symbols_weights: weights,
            symbols_num: Some(calc_distinct_symbols_num(bytes)),
            mapping_on_bits: on_bits,
            mapping_on_bytes: on_bytes,
        }
    }

    /// The codes of the table that the header of a compressed stream holds.
    pub fn new_from_compression_result(compression_result_bits: &BitVec) -> (r: Result<
        Self,
        HuffmanError,
    >)
        ensures
            match spec_header_weights(bits_to_bytes(bits_of(*compression_result_bits))) {
                Err(e) => r == Err::<Self, HuffmanError>(e),
                Ok(w) => if non_empty_table(w) {
                    &&& r is Ok
                    &&& r->Ok_0.wf()
                    &&& r->Ok_0.weights() == w
                    &&& r->Ok_0.symbols_num() == Some((keys_below(w, 256) % 256) as u8)
                } else {
                    r == Err::<Self, HuffmanError>(HuffmanError::EmptyWeightTable)
                },
            },
    {
        let weights = match HuffmanCodes::extract_weights_from_compression_result(
            compression_result_bits,
        ) {
            Ok(w) => w,
            Err(e) => {
                return Err(e);
            },
        };
        let mut symbols_num: usize = 0;
        let mut k: usize = 0;
        while k < 256
            invariant
                k <= 256,
                symbols_num == keys_below(weights@, k as int),
                symbols_num <= k,
            decreases 256 - k,
        {
            let symbol = k as u8;
            if weights.contains_key(&symbol) {
                symbols_num += 1;
            }
            k += 1;
        }
        proof {
            lemma_pairs_below(weights@, 256);
        }
        if symbols_num == 0 {
            return Err(HuffmanError::EmptyWeightTable);
        }
        let (on_bits, on_bytes) = HuffmanTreeCreator::get_mappings(&weights);
        Ok(
            HuffmanCodes {
                symbols_weights: weights,
                symbols_num: Some((symbols_num % 256) as u8),
                mapping_on_bits: on_bits,
                mapping_on_bytes: on_bytes,
            },
        )
    }

    /// Reads the weight table from the header at the start of the stream.
    fn extract_weights_from_compression_result(compression_result_bits: &BitVec) -> (r: Result<
        HashMap<u8, u8>,
        HuffmanError,
    >)
        ensures
            match spec_header_weights(bits_to_bytes(bits_of(*compression_result_bits))) {
                Err(e) => r == Err::<HashMap<u8, u8>, HuffmanError>(e),
                Ok(w) => r is Ok && r->Ok_0@ == w,
            },
    {
        let bytes = bits_to_byte_vec(compression_result_bits);
        if bytes.len() == 0 {
            return Err(HuffmanError::EmptyStream);
        }
        let encoding_weights_space: usize = bytes[0] as usize;
        let version_bit = encoding_weights_space < ASCII_SZ as usize;
        let mut weights: HashMap<u8, u8> = HashMap::new();
        if version_bit {
            let pairs = (encoding_weights_space + 1) / 2;
            if bytes.len() < 2 * pairs + 1 {
                return Err(HuffmanError::TruncatedHeader);
            }
            let mut p: usize = 0;
            while p < pairs
                invariant
                    p <= pairs <= 64,
                    2 * pairs + 1 <= bytes@.len(),
                    weights@ == sparse_weights(bytes@, p as int),
                decreases pairs - p,
            {
                let i = 2 * p + 1;
                let symbol = bytes[i];
                let weight = bytes[i + 1];
                if weight > 0 {
                    weights.insert(symbol, weight);
                }
                p += 1;
            }
        } else {
            if bytes.len() < encoding_weights_space + 1 {
                return Err(HuffmanError::TruncatedHeader);
            }
            let mut i: usize = 1;
            while i < encoding_weights_space + 1
                invariant
                    1 <= i <= encoding_weights_space + 1,
                    encoding_weights_space <= 255,
                    encoding_weights_space + 1 <= bytes@.len(),
                    weights@ == dense_weights(bytes@, i - 1),
                decreases encoding_weights_space + 1 - i,
            {
                let symbol = (i - 1) as u8;
                let weight = bytes[i];
                if weight > 0 {
                    weights.insert(symbol, weight);
                }
                assert(weights@ =~= dense_weights(bytes@, i as int));
                i += 1;
            }
        }
        Ok(weights)
    }

    /// Puts the header for the weight table before `bits`.
    pub fn append_weights_encoding_tree(&self, bits: BitVec) -> (r: BitVec)
        requires
            self.wf(),
            bits_of(bits).len() + 8 * 513 <= usize::MAX,
        ensures
            bits_of(r) == bytes_to_bits(spec_header(self.weights(), self.symbols_num()->Some_0))
                + bits_of(bits),
    {
        let symbols_num_in_seq = self.symbols_num.unwrap();
        let mut result = bits_new();
        let encoding_bytes_space: u8 = if symbols_num_in_seq >= HALF_ASCII_SZ {
            ASCII_SZ
        } else {
            symbols_num_in_seq * 2
        };
        let mut first: Vec<u8> = Vec::new();
        first.push(encoding_bytes_space);
        bits_extend(&mut result, bits_from_bytes(first.as_slice()));
        let weights: Vec<u8> = if symbols_num_in_seq >= HALF_ASCII_SZ {
            let mut table: Vec<u8> = Vec::new();
            let mut i: u8 = 0;
            while i < ASCII_SZ
                invariant
                    i <= ASCII_SZ,
                    table@.len() == i,
                    forall|j: int| 0 <= j < i ==> #[trigger] table@[j] == dense_table(
                        self.symbols_weights@,
                    )[j],
                decreases ASCII_SZ - i,
            {
                let weight: u8 = match self.symbols_weights.get(&i) {
                    Some(w) => *w,
                    None => 0,
                };
                table.push(weight);
                i += 1;
            }
            assert(table@ =~= dense_table(self.symbols_weights@));
            table
        } else {
            let mut parts: Vec<Vec<u8>> = Vec::new();
            let mut k: usize = 0;
            while k < 256
                invariant
                    k <= 256,
                    parts@.map_values(|v: Vec<u8>| v@).flatten() == pairs_below(
                        self.symbols_weights@,
                        k as int,
                    ),
                decreases 256 - k,
            {
                let symbol = k as u8;
                let ghost before = parts@.map_values(|v: Vec<u8>| v@);
                match self.symbols_weights.get(&symbol) {
                    Some(weight) => {
                        let mut pair: Vec<u8> = Vec::new();
                        pair.push(symbol);
                        pair.push(*weight);
                        parts.push(pair);
                        proof {
                            assert(parts@.map_values(|v: Vec<u8>| v@) =~= before.push(pair@));
                            before.lemma_flatten_push(pair@);
                            assert(before.flatten() + pair@ =~= before.flatten().push(symbol).push(
                                *weight,
                            ));
                        }
                    },
                    None => {},
                }
                k += 1;
            }
            concat_all(parts)
        };
        proof {
            lemma_pairs_below(self.symbols_weights@, 256);
            lemma_bytes_to_bits_concat(first@, weights@);
            assert(first@ =~= seq![encoding_bytes_space]);
            assert(bits_of(result) =~= bytes_to_bits(first@));
        }
        bits_extend(&mut result, bits_from_bytes(weights.as_slice()));
        bits_extend(&mut result, bits);
        result
    }

    /// The bits of a compressed stream that follow its header.
    pub fn remove_weights_enconding(bits: &BitVec) -> (r: Result<BitVec, HuffmanError>)
        ensures
            bits_of(*bits).len() == 0 ==> r == Err::<BitVec, HuffmanError>(
                HuffmanError::EmptyStream,
            ),
            bits_of(*bits).len() > 0 ==> r is Ok && bits_of(r->Ok_0) == spec_payload(bits_of(*bits)),
    {
        let bytes = bits_to_byte_vec(bits);
        if bytes.len() == 0 {
            return Err(HuffmanError::EmptyStream);
        }
        let unit: usize = NUM_OF_BITS_IN_BYTE as usize;
        assert(unit == 8);
        let mut encoding_weights_space: usize = bytes[0] as usize + 1;
        encoding_weights_space = encoding_weights_space * unit;
        let len = bits_len(bits);
        let mut rest = bits_new();
        let mut i: usize = encoding_weights_space;
        if i > len {
            return Ok(rest);
        }
        while i < len
            invariant
                encoding_weights_space <= i <= len,
                len == bits_of(*bits).len(),
                bits_of(rest) == bits_of(*bits).subrange(encoding_weights_space as int, i as int),
            decreases len - i,
        {
            let bit = bits_get(bits, i).unwrap();
            bits_push(&mut rest, bit);
            assert(bits_of(rest) =~= bits_of(*bits).subrange(
                encoding_weights_space as int,
                i + 1,
            ));
            i += 1;
        }
        Ok(rest)
    }

    /// The code word of `c`.
    pub fn map_on_bits(&self, c: u8) -> (r: BitVec)
        requires
            self.wf(),
            self.weights().contains_key(c),
        ensures
            bits_of(r) == spec_codes(self.weights())[c],
    {
        proof {
            lemma_spec_tree(self.symbols_weights@);
            assert(code_table(self.mapping_on_bits@).contains_key(c));
        }
        bits_clone(self.mapping_on_bits.get(&c).unwrap())
    }

    /// The symbol of the shortest start of `bits` that is a code word, and its length.
    pub fn match_bits(&self, bits: &BitVec) -> (r: (Option<u8>, usize))
        requires
            self.wf(),
        ensures
            r == spec_match(inverse_codes(spec_codes(self.weights())), bits_of(*bits)),
    {
        assert(bits_of(*bits).subrange(0, bits_of(*bits).len() as int) =~= bits_of(*bits));
        self.match_bits_at(bits, 0)
    }

    /// As `match_bits`, on the bits from index `start` on.
    fn match_bits_at(&self, bits: &BitVec, start: usize) -> (r: (Option<u8>, usize))
        requires
            self.wf(),
            start <= bits_of(*bits).len(),
        ensures
            r == spec_match(
                inverse_codes(spec_codes(self.weights())),
                bits_of(*bits).subrange(start as int, bits_of(*bits).len() as int),
            ),
    {
        let len = bits_len(bits);
        let ghost rest = bits_of(*bits).subrange(start as int, len as int);
        let ghost index = inverse_codes(spec_codes(self.symbols_weights@));
        let mut prefix = bits_new();
        let mut i: usize = start;
        while i < len
            invariant
                start <= i <= len,
                len == bits_of(*bits).len(),
                self.wf(),
                rest == bits_of(*bits).subrange(start as int, len as int),
                index == inverse_codes(spec_codes(self.symbols_weights@)),
                bits_of(prefix) == rest.subrange(0, i - start),
                match_len(index, rest, 0) == match_len(index, rest, i - start),
            decreases len - i,
        {
            let bit = bits_get(bits, i).unwrap();
            bits_push(&mut prefix, bit);
            assert(bits_of(prefix) =~= rest.subrange(0, i - start + 1));
            match index_get(&self.mapping_on_bytes, &prefix) {
                Some(c) => {
                    return (Some(*c), i - start + 1);
                },
                None => {},
            }
            i += 1;
        }
        (None, 0)
    }
}

/// The Huffman stage.
pub struct HuffmanCompressor;

impl HuffmanCompressor {
    /// Codes `ascii_bytes` with the predefined table or with the table fitted to them, and
    /// puts the header before the code words.
    pub fn compress(ascii_bytes: &Vec<u8>, predefined_codes: bool) -> (r: BitVec)
        requires
            predefined_codes ==> forall|i: int|
                0 <= i < ascii_bytes@.len() ==> #[trigger] ascii_bytes@[i] < 127,
            !predefined_codes ==> ascii_bytes@.len() > 0,
            ascii_bytes@.len() * 256 + 8 * 513 <= usize::MAX,
        ensures
            bits_of(r) == spec_compress(ascii_bytes@, predefined_codes),
    {
        let huffman_codes = match predefined_codes {
            true => HuffmanCodes::new_predefined(ascii_bytes.as_slice()),
            false => HuffmanCodes::new_calc_on_bytes(ascii_bytes.as_slice()),
        };
        let ghost w = compress_weights(ascii_bytes@, predefined_codes);
        let mut encoded_input = bits_new();
        let mut i: usize = 0;
        while i < ascii_bytes.len()
            invariant
                i <= ascii_bytes.len(),
                huffman_codes.wf(),
                huffman_codes.weights() == w,
                w == compress_weights(ascii_bytes@, predefined_codes),
                predefined_codes ==> forall|i: int|
                    0 <= i < ascii_bytes@.len() ==> #[trigger] ascii_bytes@[i] < 127,
                ascii_bytes@.len() * 256 + 8 * 513 <= usize::MAX,
                bits_of(encoded_input) == spec_encode(
                    spec_codes(w),
                    ascii_bytes@.subrange(0, i as int),
                ),
                bits_of(encoded_input).len() <= 256 * i,
            decreases ascii_bytes.len() - i,
        {
            let c = ascii_bytes[i];
            proof {
                if !predefined_codes {
                    lemma_occurrences_contains(ascii_bytes@, c);
                }
                assert(w.contains_key(c));
                lemma_code_length(w, c);
                assert(ascii_bytes@.subrange(0, i + 1).drop_last() =~= ascii_bytes@.subrange(
                    0,
                    i as int,
                ));
            }
            let char_bits = huffman_codes.map_on_bits(c);
            bits_extend(&mut encoded_input, char_bits);
            i += 1;
        }
        assert(ascii_bytes@.subrange(0, i as int) =~= ascii_bytes@);
        huffman_codes.append_weights_encoding_tree(encoded_input)
    }

    /// Reads the weight table from the header, then decodes the rest one code word after
    /// another.
    pub fn decompress(bits: &BitVec) -> (r: Result<Vec<u8>, HuffmanError>)
        ensures
            match spec_decompress(bits_of(*bits)) {
                Err(e) => r == Err::<Vec<u8>, HuffmanError>(e),
                Ok(out) => r is Ok && r->Ok_0@ == out,
            },
    {
        let huffman_codes = match HuffmanCodes::new_from_compression_result(bits) {
            Ok(codes) => codes,
            Err(e) => {
                return Err(e);
            },
        };
        let payload = match HuffmanCodes::remove_weights_enconding(bits) {
            Ok(rest) => rest,
            Err(e) => {
                return Err(e);
            },
        };
        let ghost index = inverse_codes(spec_codes(huffman_codes.weights()));
        let len = bits_len(&payload);
        let mut index_in_bits: usize = 0;
        let mut chars: Vec<u8> = Vec::new();
        while index_in_bits < len
            invariant
                index_in_bits <= len,
                len == bits_of(payload).len(),
                huffman_codes.wf(),
                spec_decompress(bits_of(*bits)) == decode_from(index, bits_of(payload), 0),
                index == inverse_codes(spec_codes(huffman_codes.weights())),
                match decode_from(index, bits_of(payload), index_in_bits as int) {
                    Err(e) => decode_from(index, bits_of(payload), 0) == Err::<
                        Seq<u8>,
                        HuffmanError,
                    >(e),
                    Ok(tail) => decode_from(index, bits_of(payload), 0) == Ok::<
                        Seq<u8>,
                        HuffmanError,
                    >(chars@ + tail),
                },
            decreases len - index_in_bits,
        {
            let (c, increment) = huffman_codes.match_bits_at(&payload, index_in_bits);
            let ghost before = chars@;
            match c {
                Some(symbol) => {
                    chars.push(symbol);
                    proof {
                        lemma_match_len_range(
                            index,
                            bits_of(payload).subrange(index_in_bits as int, len as int),
                            0,
                        );
                        match decode_from(index, bits_of(payload), index_in_bits + increment) {
                            Err(e) => {},
                            Ok(tail) => {
                                assert(before + (seq![symbol] + tail) =~= chars@ + tail);
                            },
                        }
                    }
                    index_in_bits += increment;
                },
                None => {
                    proof {
                        let rest = bits_of(payload).subrange(index_in_bits as int, len as int);
                        assert(match_len(index, rest, 0) <= 0);
                        assert(decode_from(index, bits_of(payload), index_in_bits as int) == Err::<
                            Seq<u8>,
                            HuffmanError,
                        >(HuffmanError::UnmatchedBits));
                    }
                    return Err(HuffmanError::UnmatchedBits);
                },
            }
        }
        assert(chars@ + Seq::<u8>::empty() =~= chars@);
        Ok(chars)
    }
}

/// A match is never longer than the bits it was found in.
pub proof fn lemma_match_len_range(index: Map<Seq<bool>, u8>, s: Seq<bool>, tried: int)
    requires
        0 <= tried,
    ensures
        match_len(index, s, tried) == 0 || tried < match_len(index, s, tried) <= s.len(),
    decreases s.len() - tried,
{
    if tried < s.len() && !index.contains_key(s.subrange(0, tried + 1)) {
        lemma_match_len_range(index, s, tried + 1);
    }
}

} // verus!
