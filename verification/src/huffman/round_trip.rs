//! What holds of the Huffman stage as a whole: a compressed stream decodes to the bytes
//! it was made from.

use crate::huffman::implementation::compress_symbols_num;
use crate::huffman::implementation::compress_weights;
use crate::huffman::implementation::decode_from;
use crate::huffman::implementation::dense_table;
use crate::huffman::implementation::dense_weights;
use crate::huffman::implementation::keys_below;
use crate::huffman::implementation::lemma_pairs_below;
use crate::huffman::implementation::match_len;
use crate::huffman::implementation::pairs_below;
use crate::huffman::implementation::sparse_weights;
use crate::huffman::implementation::spec_compress;
use crate::huffman::implementation::spec_decompress;
use crate::huffman::implementation::spec_encode;
use crate::huffman::implementation::spec_header_weights;
use crate::huffman::implementation::spec_payload;
use crate::huffman::implementation::HuffmanError;
use crate::huffman::trees::inverse_codes;
use crate::huffman::trees::lemma_code_length;
use crate::huffman::trees::lemma_inverse_codes;
use crate::huffman::trees::lemma_prefix_free;
use crate::huffman::trees::lemma_spec_tree;
use crate::huffman::trees::non_empty_table;
use crate::huffman::trees::spec_codes;
use crate::huffman::utils::distinct_symbols;
use crate::huffman::utils::lemma_present_below_bound;
use crate::huffman::utils::present_below;
use crate::huffman::weights::lemma_fitted_weight_positive;
use crate::huffman::weights::lemma_occurrences_contains;
use crate::huffman::weights::spec_fitted;
use crate::utils::bitvec_ext::bit_value;
use crate::utils::bitvec_ext::bit_weight;
use crate::utils::bitvec_ext::bits_to_bytes;
use crate::utils::bitvec_ext::byte_at;
use crate::utils::bitvec_ext::byte_bit;
use crate::utils::bitvec_ext::bytes_to_bits;
use vstd::prelude::*;

verus! {

/// The inputs that the Huffman stage gives back unchanged. With the predefined table: those
/// made of bytes below 127. With a fitted table: the non-empty ones that have fewer than 64
/// different bytes or only bytes below 128.
pub open spec fn round_trip_input(s: Seq<u8>, predefined: bool) -> bool {
    if predefined {
        forall|i: int| 0 <= i < s.len() ==> #[trigger] s[i] < 127
    } else {
        &&& s.len() > 0
        &&& (distinct_symbols(s) < 64 || forall|i: int| 0 <= i < s.len() ==> #[trigger] s[i] < 128)
    }
}

/// Whether every weight of the table is positive.
pub open spec fn positive_weights(w: Map<u8, u8>) -> bool {
    forall|s: u8| w.contains_key(s) ==> #[trigger] w[s] > 0
}

/// Whether every symbol of the table is below 128.
pub open spec fn small_symbols(w: Map<u8, u8>) -> bool {
    forall|s: u8| #[trigger] w.contains_key(s) ==> s < 128
}

proof fn lemma_halves(b: u8)
    ensures
        b as int / 1 == b,
        (b as int / 1) / 2 == b as int / 2,
        (b as int / 2) / 2 == b as int / 4,
        (b as int / 4) / 2 == b as int / 8,
        (b as int / 8) / 2 == b as int / 16,
        (b as int / 16) / 2 == b as int / 32,
        (b as int / 32) / 2 == b as int / 64,
        (b as int / 64) / 2 == b as int / 128,
        0 <= b as int / 128 <= 1,
{
}

proof fn lemma_byte_from_bits(b: u8)
    ensures
        b == (if byte_bit(b, 0) {
            128int
        } else {
            0
        }) + (if byte_bit(b, 1) {
            64int
        } else {
            0
        }) + (if byte_bit(b, 2) {
            32int
        } else {
            0
        }) + (if byte_bit(b, 3) {
            16int
        } else {
            0
        }) + (if byte_bit(b, 4) {
            8int
        } else {
            0
        }) + (if byte_bit(b, 5) {
            4int
        } else {
            0
        }) + (if byte_bit(b, 6) {
            2int
        } else {
            0
        }) + (if byte_bit(b, 7) {
            1int
        } else {
            0
        }),
{
    lemma_halves(b);
    let q0 = b as int / 128;
    let q1 = b as int / 64;
    let q2 = b as int / 32;
    let q3 = b as int / 16;
    let q4 = b as int / 8;
    let q5 = b as int / 4;
    let q6 = b as int / 2;
    let q7 = b as int / 1;
    assert(q1 == 2 * q0 + q1 % 2);
    assert(q2 == 2 * q1 + q2 % 2);
    assert(q3 == 2 * q2 + q3 % 2);
    assert(q4 == 2 * q3 + q4 % 2);
    assert(q5 == 2 * q4 + q5 % 2);
    assert(q6 == 2 * q5 + q6 % 2);
    assert(q7 == 2 * q6 + q7 % 2);
    assert(q0 % 2 == q0);
}

proof fn lemma_header_bit(h: Seq<u8>, payload: Seq<bool>, k: int, j: int)
    requires
        0 <= k < h.len(),
        0 <= j < 8,
    ensures
        bit_value(bytes_to_bits(h) + payload, 8 * k + j) == if byte_bit(h[k], j) {
            bit_weight(j)
        } else {
            0
        },
{
    let i = 8 * k + j;
    assert(i / 8 == k && i % 8 == j);
    assert((bytes_to_bits(h) + payload)[i] == bytes_to_bits(h)[i]);
}

proof fn lemma_header_byte(h: Seq<u8>, payload: Seq<bool>, k: int)
    requires
        0 <= k < h.len(),
    ensures
        byte_at(bytes_to_bits(h) + payload, k) == h[k],
{
    lemma_byte_from_bits(h[k]);
    lemma_header_bit(h, payload, k, 0);
    lemma_header_bit(h, payload, k, 1);
    lemma_header_bit(h, payload, k, 2);
    lemma_header_bit(h, payload, k, 3);
    lemma_header_bit(h, payload, k, 4);
    lemma_header_bit(h, payload, k, 5);
    lemma_header_bit(h, payload, k, 6);
    lemma_header_bit(h, payload, k, 7);
}

/// The bytes of a bit stream that starts with the bits of `h` start with `h`.
pub proof fn lemma_bytes_of_bits_prefix(h: Seq<u8>, payload: Seq<bool>)
    ensures
        bits_to_bytes(bytes_to_bits(h) + payload).len() >= h.len(),
        forall|k: int|
            0 <= k < h.len() ==> #[trigger] bits_to_bytes(bytes_to_bits(h) + payload)[k] == h[k],
{
    let bits = bytes_to_bits(h) + payload;
    let bytes = bits_to_bytes(bits);
    assert(bits.len() >= 8 * h.len());
    assert forall|k: int| 0 <= k < h.len() implies #[trigger] bytes[k] == h[k] by {
        lemma_header_byte(h, payload, k);
    }
}

proof fn lemma_dense_parse(w: Map<u8, u8>, bytes: Seq<u8>)
    requires
        bytes.len() >= 129,
        bytes[0] == 128,
        forall|j: int| 0 <= j < 128 ==> #[trigger] bytes[j + 1] == dense_table(w)[j],
        positive_weights(w),
        small_symbols(w),
    ensures
        spec_header_weights(bytes) == Ok::<Map<u8, u8>, HuffmanError>(w),
{
    let got = dense_weights(bytes, 128);
    assert forall|s: u8| got.contains_key(s) <==> w.contains_key(s) by {
        if s < 128 {
            assert(bytes[s as int + 1] == dense_table(w)[s as int]);
        }
        if w.contains_key(s) {
            assert(w[s] > 0);
        }
    }
    assert forall|s: u8| got.contains_key(s) implies got[s] == w[s] by {
        assert(bytes[s as int + 1] == dense_table(w)[s as int]);
    }
    assert(got =~= w);
}

proof fn lemma_sparse_parse(w: Map<u8, u8>, bytes: Seq<u8>, k: int)
    requires
        0 <= k <= 256,
        bytes.len() >= 1 + pairs_below(w, k).len(),
        forall|j: int|
            0 <= j < pairs_below(w, k).len() ==> #[trigger] bytes[j + 1] == pairs_below(w, k)[j],
        positive_weights(w),
    ensures
        sparse_weights(bytes, keys_below(w, k) as int) == Map::new(
            |s: u8| s < k && w.contains_key(s),
            |s: u8| w[s],
        ),
    decreases k,
{
    let target = Map::new(|s: u8| s < k && w.contains_key(s), |s: u8| w[s]);
    lemma_pairs_below(w, k);
    if k > 0 {
        lemma_pairs_below(w, k - 1);
        let before = pairs_below(w, k - 1);
        let now = pairs_below(w, k);
        assert forall|j: int| 0 <= j < before.len() implies #[trigger] bytes[j + 1]
            == before[j] by {
            assert(bytes[j + 1] == now[j]);
        }
        lemma_sparse_parse(w, bytes, k - 1);
        let earlier = Map::new(|s: u8| s < k - 1 && w.contains_key(s), |s: u8| w[s]);
        if w.contains_key((k - 1) as u8) {
            let p = keys_below(w, k) as int;
            assert(now.len() == 2 * p);
            assert(bytes[(2 * p - 2) + 1] == now[2 * p - 2]);
            assert(bytes[(2 * p - 1) + 1] == now[2 * p - 1]);
            assert(bytes[2 * p - 1] == (k - 1) as u8);
            assert(bytes[2 * p] == w[(k - 1) as u8]);
            assert(w[(k - 1) as u8] > 0);
            assert(sparse_weights(bytes, p) == earlier.insert((k - 1) as u8, w[(k - 1) as u8]));
            assert(earlier.insert((k - 1) as u8, w[(k - 1) as u8]) =~= target);
        } else {
            assert(earlier =~= target);
        }
    } else {
        assert(sparse_weights(bytes, 0) =~= target);
    }
}

/// The fitted table has one entry for every different byte of the text.
pub proof fn lemma_fitted_keys(s: Seq<u8>, k: int)
    requires
        0 <= k <= 256,
    ensures
        keys_below(spec_fitted(s), k) == present_below(s, k),
    decreases k,
{
    if k > 0 {
        lemma_fitted_keys(s, k - 1);
        lemma_occurrences_contains(s, (k - 1) as u8);
    }
}

proof fn lemma_encode_front(codes: Map<u8, Seq<bool>>, s: Seq<u8>)
    requires
        s.len() > 0,
    ensures
        spec_encode(codes, s) == codes[s[0]] + spec_encode(codes, s.drop_first()),
    decreases s.len(),
{
    if s.len() == 1 {
        assert(s.drop_last() =~= Seq::<u8>::empty());
        assert(s.drop_first() =~= Seq::<u8>::empty());
        assert(spec_encode(codes, s) =~= codes[s[0]] + spec_encode(codes, s.drop_first()));
    } else {
        lemma_encode_front(codes, s.drop_last());
        assert(s.drop_last().drop_first() =~= s.drop_first().drop_last());
        assert(s.drop_first().last() == s.last());
        assert(s.drop_last()[0] == s[0]);
        assert(spec_encode(codes, s) =~= codes[s[0]] + spec_encode(codes, s.drop_first()));
    }
}

proof fn lemma_match_len_finds(index: Map<Seq<bool>, u8>, s: Seq<bool>, tried: int, target: int)
    requires
        0 <= tried < target <= s.len(),
        forall|k: int| tried < k < target ==> !index.contains_key(#[trigger] s.subrange(0, k)),
        index.contains_key(s.subrange(0, target)),
    ensures
        match_len(index, s, tried) == target,
    decreases target - tried,
{
    if tried + 1 < target {
        assert(!index.contains_key(s.subrange(0, tried + 1)));
        lemma_match_len_finds(index, s, tried + 1, target);
    }
}

/// In front of any bits, the code word of a symbol is matched whole, and as that symbol.
proof fn lemma_match_code(w: Map<u8, u8>, x: u8, rest: Seq<bool>)
    requires
        w.contains_key(x),
    ensures
        match_len(inverse_codes(spec_codes(w)), spec_codes(w)[x] + rest, 0) == spec_codes(
            w,
        )[x].len(),
        inverse_codes(spec_codes(w))[spec_codes(w)[x]] == x,
        spec_codes(w)[x].len() >= 1,
{
    let codes = spec_codes(w);
    let index = inverse_codes(codes);
    let c = codes[x];
    let s = c + rest;
    lemma_spec_tree(w);
    lemma_inverse_codes(w, x);
    lemma_code_length(w, x);
    assert(s.subrange(0, c.len() as int) =~= c);
    assert forall|k: int| 0 < k < c.len() implies !index.contains_key(
        #[trigger] s.subrange(0, k),
    ) by {
        let part = s.subrange(0, k);
        if index.contains_key(part) {
            let y = choose|y: u8| codes.contains_key(y) && codes[y] == part;
            assert(part =~= c.subrange(0, k));
            assert(codes[y].is_prefix_of(c));
            if y != x {
                lemma_prefix_free(w, y, x);
            }
        }
    }
    lemma_match_len_finds(index, s, 0, c.len() as int);
}

proof fn lemma_decode_shift(index: Map<Seq<bool>, u8>, pre: Seq<bool>, s: Seq<bool>, i: int)
    requires
        0 <= i,
    ensures
        decode_from(index, pre + s, pre.len() + i) == decode_from(index, s, i),
    decreases s.len() - i,
{
    if i < s.len() {
        let full = pre + s;
        let rest = s.subrange(i, s.len() as int);
        assert(full.subrange(pre.len() + i, full.len() as int) =~= rest);
        let n = match_len(index, rest, 0);
        if n > 0 {
            crate::huffman::implementation::lemma_match_len_range(index, rest, 0);
            if i + n < s.len() {
                lemma_decode_shift(index, pre, s, i + n);
            }
        }
    }
}

/// The code words of a text, one after another, decode to the text.
pub proof fn lemma_decode_encode(w: Map<u8, u8>, s: Seq<u8>)
    requires
        forall|i: int| 0 <= i < s.len() ==> w.contains_key(#[trigger] s[i]),
    ensures
        decode_from(inverse_codes(spec_codes(w)), spec_encode(spec_codes(w), s), 0) == Ok::<
            Seq<u8>,
            HuffmanError,
        >(s),
    decreases s.len(),
{
    let codes = spec_codes(w);
    let index = inverse_codes(codes);
    let e = spec_encode(codes, s);
    if s.len() == 0 {
        assert(s =~= Seq::<u8>::empty());
    } else {
        let tail = s.drop_first();
        let c = codes[s[0]];
        let tail_bits = spec_encode(codes, tail);
        assert(w.contains_key(s[0]));
        assert forall|i: int| 0 <= i < tail.len() implies w.contains_key(#[trigger] tail[i]) by {
            assert(tail[i] == s[i + 1]);
        }
        lemma_encode_front(codes, s);
        lemma_match_code(w, s[0], tail_bits);
        lemma_decode_encode(w, tail);
        lemma_decode_shift(index, c, tail_bits, 0);
        assert(e.subrange(0, e.len() as int) =~= e);
        assert(e.subrange(0, c.len() as int) =~= c);
        assert(seq![s[0]] + tail =~= s);
    }
}

proof fn lemma_header_dense(w: Map<u8, u8>, payload: Seq<bool>)
    requires
        positive_weights(w),
        small_symbols(w),
    ensures
        spec_header_weights(
            bits_to_bytes(bytes_to_bits(seq![128u8] + dense_table(w)) + payload),
        ) == Ok::<Map<u8, u8>, HuffmanError>(w),
        spec_payload(bytes_to_bits(seq![128u8] + dense_table(w)) + payload) == payload,
{
    let h = seq![128u8] + dense_table(w);
    let bits = bytes_to_bits(h) + payload;
    let bytes = bits_to_bytes(bits);
    lemma_bytes_of_bits_prefix(h, payload);
    assert(h.len() == 129);
    assert(bytes[0] == h[0]);
    assert forall|j: int| 0 <= j < 128 implies #[trigger] bytes[j + 1] == dense_table(w)[j] by {
        assert(bytes[j + 1] == h[j + 1]);
    }
    lemma_dense_parse(w, bytes);
    assert(bits.subrange(8 * 129int, bits.len() as int) =~= payload);
}

proof fn lemma_header_sparse(w: Map<u8, u8>, payload: Seq<bool>)
    requires
        keys_below(w, 256) < 64,
        positive_weights(w),
    ensures
        spec_header_weights(
            bits_to_bytes(
                bytes_to_bits(seq![(2 * keys_below(w, 256)) as u8] + pairs_below(w, 256))
                    + payload,
            ),
        ) == Ok::<Map<u8, u8>, HuffmanError>(w),
        spec_payload(
            bytes_to_bits(seq![(2 * keys_below(w, 256)) as u8] + pairs_below(w, 256)) + payload,
        ) == payload,
{
    let num = keys_below(w, 256) as int;
    let pairs = pairs_below(w, 256);
    let h = seq![(2 * num) as u8] + pairs;
    let bits = bytes_to_bits(h) + payload;
    let bytes = bits_to_bytes(bits);
    lemma_bytes_of_bits_prefix(h, payload);
    lemma_pairs_below(w, 256);
    assert(h.len() == 1 + 2 * num);
    assert(bytes[0] == h[0]);
    assert(bytes[0] == 2 * num);
    assert forall|j: int| 0 <= j < pairs.len() implies #[trigger] bytes[j + 1] == pairs[j] by {
        assert(bytes[j + 1] == h[j + 1]);
    }
    lemma_sparse_parse(w, bytes, 256);
    assert(Map::new(|b: u8| b < 256 && w.contains_key(b), |b: u8| w[b]) =~= w);
    assert((2 * num + 1) / 2 == num);
    assert(bits.subrange(8 * (1 + 2 * num), bits.len() as int) =~= payload);
}

proof fn lemma_present_small(s: Seq<u8>, k: int)
    requires
        0 <= k <= 256,
        forall|i: int| 0 <= i < s.len() ==> #[trigger] s[i] < 128,
    ensures
        present_below(s, k) <= 128,
        present_below(s, k) <= k,
    decreases k,
{
    if k > 0 {
        lemma_present_small(s, k - 1);
        if k > 128 && s.contains((k - 1) as u8) {
            let i = choose|i: int| 0 <= i < s.len() && s[i] == (k - 1) as u8;
            assert(s[i] < 128);
        }
    }
}

proof fn lemma_fitted_table(s: Seq<u8>)
    requires
        s.len() > 0,
    ensures
        positive_weights(spec_fitted(s)),
        non_empty_table(spec_fitted(s)),
        forall|i: int| 0 <= i < s.len() ==> spec_fitted(s).contains_key(#[trigger] s[i]),
        keys_below(spec_fitted(s), 256) == distinct_symbols(s),
        (forall|i: int| 0 <= i < s.len() ==> #[trigger] s[i] < 128) ==> small_symbols(
            spec_fitted(s),
        ),
{
    let w = spec_fitted(s);
    assert forall|b: u8| w.contains_key(b) implies #[trigger] w[b] > 0 by {
        lemma_fitted_weight_positive(s, b);
    }
    assert forall|i: int| 0 <= i < s.len() implies w.contains_key(#[trigger] s[i]) by {
        lemma_occurrences_contains(s, s[i]);
    }
    assert(w.contains_key(s[0]));
    lemma_fitted_keys(s, 256);
    if forall|i: int| 0 <= i < s.len() ==> #[trigger] s[i] < 128 {
        assert forall|b: u8| #[trigger] w.contains_key(b) implies b < 128 by {
            lemma_occurrences_contains(s, b);
            let i = choose|i: int| 0 <= i < s.len() && s[i] == b;
            assert(s[i] < 128);
        }
    }
}

proof fn lemma_round_trip_fitted(s: Seq<u8>)
    requires
        round_trip_input(s, false),
    ensures
        spec_decompress(spec_compress(s, false)) == Ok::<Seq<u8>, HuffmanError>(s),
{
    let w = spec_fitted(s);
    let num = compress_symbols_num(s, false);
    let payload = spec_encode(spec_codes(w), s);
    lemma_fitted_table(s);
    lemma_present_below_bound(s, 256);
    if forall|i: int| 0 <= i < s.len() ==> #[trigger] s[i] < 128 {
        lemma_present_small(s, 256);
    }
    assert(distinct_symbols(s) < 256);
    assert(num == distinct_symbols(s));
    if num >= 64 {
        lemma_header_dense(w, payload);
    } else {
        lemma_header_sparse(w, payload);
    }
    lemma_decode_encode(w, s);
}

proof fn lemma_round_trip_predefined(s: Seq<u8>)
    requires
        round_trip_input(s, true),
    ensures
        spec_decompress(spec_compress(s, true)) == Ok::<Seq<u8>, HuffmanError>(s),
{
    let w = compress_weights(s, true);
    let payload = spec_encode(spec_codes(w), s);
    assert(w.contains_key(0u8));
    assert(positive_weights(w));
    assert(small_symbols(w));
    assert forall|i: int| 0 <= i < s.len() implies w.contains_key(#[trigger] s[i]) by {
        assert(s[i] < 127);
    }
    lemma_header_dense(w, payload);
    lemma_decode_encode(w, s);
}

/// The bytes that the Huffman stage gives back unchanged decompress from their compressed
/// form to themselves.
pub proof fn lemma_round_trip(s: Seq<u8>, predefined: bool)
    requires
        round_trip_input(s, predefined),
    ensures
        spec_decompress(spec_compress(s, predefined)) == Ok::<Seq<u8>, HuffmanError>(s),
{
    if predefined {
        lemma_round_trip_predefined(s);
    } else {
        lemma_round_trip_fitted(s);
    }
}

} // verus!
