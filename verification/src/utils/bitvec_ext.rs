//! Bit streams: the bit vector of the `bit_vec` crate, with what this library relies on
//! stated over the sequence of bits that a vector holds.

use bit_vec::BitVec;
use std::collections::HashMap;
use vstd::prelude::*;

verus! {

/// The bit vector of the `bit_vec` crate. What such a vector holds is known only through
/// the functions below.
#[verifier::external_type_specification]
#[verifier::external_body]
#[verifier::reject_recursive_types(B)]
pub struct ExBitVec<B>(BitVec<B>);

/// A lookup table from code words to symbols.
pub type CodeIndex = HashMap<BitVec, u8>;

/// The bits that a bit vector holds, in order.
pub uninterp spec fn bits_of(b: BitVec) -> Seq<bool>;

/// The code words that a lookup table holds, each with its symbol.
pub uninterp spec fn code_index(m: CodeIndex) -> Map<Seq<bool>, u8>;

/// The value of bit `k` of a byte, counted from the most significant.
pub open spec fn bit_weight(k: int) -> int {
    if k == 0 {
        128
    } else if k == 1 {
        64
    } else if k == 2 {
        32
    } else if k == 3 {
        16
    } else if k == 4 {
        8
    } else if k == 5 {
        4
    } else if k == 6 {
        2
    } else {
        1
    }
}

/// Whether bit `k` of `byte` is set, counted from the most significant.
pub open spec fn byte_bit(byte: u8, k: int) -> bool {
    (byte as int / bit_weight(k)) % 2 == 1
}

/// The bits of a byte sequence: eight per byte, the most significant first.
pub open spec fn bytes_to_bits(bytes: Seq<u8>) -> Seq<bool> {
    Seq::new(bytes.len() * 8, |i: int| byte_bit(bytes[i / 8], i % 8))
}

/// What bit `i` adds to its byte: its weight if it is there and set, else nothing.
pub open spec fn bit_value(bits: Seq<bool>, i: int) -> int {
    if 0 <= i < bits.len() && bits[i] {
        bit_weight(i % 8)
    } else {
        0
    }
}

/// Byte `k` of a bit sequence, with zero bits where the sequence has ended.
pub open spec fn byte_at(bits: Seq<bool>, k: int) -> u8 {
    (bit_value(bits, 8 * k) + bit_value(bits, 8 * k + 1) + bit_value(bits, 8 * k + 2) + bit_value(
        bits,
        8 * k + 3,
    ) + bit_value(bits, 8 * k + 4) + bit_value(bits, 8 * k + 5) + bit_value(bits, 8 * k + 6)
        + bit_value(bits, 8 * k + 7)) as u8
}

/// The bytes of a bit sequence, the last one padded with zero bits.
pub open spec fn bits_to_bytes(bits: Seq<bool>) -> Seq<u8> {
    Seq::new((bits.len() + 7) / 8, |k: int| byte_at(bits, k))
}

/// `BitVec::new`: a vector with no bits.
#[verifier::external_body]
pub(crate) fn bits_new() -> (r: BitVec)
    ensures
        bits_of(r) == Seq::<bool>::empty(),
{
    BitVec::new()
}

/// `BitVec::push`: one more bit at the end. It panics when the number of bits would
/// pass `usize::MAX`, which the precondition rules out.
#[verifier::external_body]
pub(crate) fn bits_push(b: &mut BitVec, bit: bool)
    requires
        bits_of(*old(b)).len() < usize::MAX,
    ensures
        bits_of(*final(b)) == bits_of(*old(b)).push(bit),
{
    b.push(bit)
}

/// `BitVec::pop`: takes the last bit off and gives it, or gives `None` for an empty vector.
#[verifier::external_body]
pub(crate) fn bits_pop(b: &mut BitVec) -> (r: Option<bool>)
    ensures
        bits_of(*old(b)).len() == 0 ==> r is None && bits_of(*final(b)) == bits_of(*old(b)),
        bits_of(*old(b)).len() > 0 ==> r == Some(bits_of(*old(b)).last()) && bits_of(*final(b))
            == bits_of(*old(b)).drop_last(),
{
    b.pop()
}

/// `BitVec::get`: the bit at index `i`, or `None` past the end.
#[verifier::external_body]
pub(crate) fn bits_get(b: &BitVec, i: usize) -> (r: Option<bool>)
    ensures
        r == if i < bits_of(*b).len() {
            Some(bits_of(*b)[i as int])
        } else {
            None
        },
{
    b.get(i)
}

/// `BitVec::len`: the number of bits.
#[verifier::external_body]
pub(crate) fn bits_len(b: &BitVec) -> (r: usize)
    ensures
        r == bits_of(*b).len(),
{
    b.len()
}

/// `BitVec::from_bytes`: eight bits per byte, the most significant first. It panics when
/// eight times the number of bytes does not fit in `usize`, which the precondition rules out.
#[verifier::external_body]
pub(crate) fn bits_from_bytes(bytes: &[u8]) -> (r: BitVec)
    requires
        bytes@.len() * 8 <= usize::MAX,
    ensures
        bits_of(r) == bytes_to_bits(bytes@),
{
    BitVec::from_bytes(bytes)
}

/// `BitVec::to_bytes`: the bits packed eight to a byte, the first bit the most significant,
/// the last byte padded with zero bits.
#[verifier::external_body]
pub(crate) fn bits_to_byte_vec(b: &BitVec) -> (r: Vec<u8>)
    ensures
        r@ == bits_to_bytes(bits_of(*b)),
{
    b.to_bytes()
}

/// `Extend::extend` of a `BitVec` by the bits of another: it pushes them one by one. It
/// panics when the number of bits would pass `usize::MAX`, which the precondition rules out.
#[verifier::external_body]
pub(crate) fn bits_extend(b: &mut BitVec, more: BitVec)
    requires
        bits_of(*old(b)).len() + bits_of(more).len() <= usize::MAX,
    ensures
        bits_of(*final(b)) == bits_of(*old(b)) + bits_of(more),
{
    b.extend(more)
}

/// `Clone::clone` of a `BitVec`: a vector with the same bits.
#[verifier::external_body]
pub(crate) fn bits_clone(b: &BitVec) -> (r: BitVec)
    ensures
        bits_of(r) == bits_of(*b),
{
    b.clone()
}

/// `HashMap::new` for a table keyed by bit vectors: it holds nothing.
#[verifier::external_body]
pub(crate) fn index_new() -> (r: CodeIndex)
    ensures
        code_index(r) == (Map::<Seq<bool>, u8>::empty()),
{
    HashMap::new()
}

/// `HashMap::insert` with a bit vector as key. Two bit vectors are equal, and hash alike,
/// exactly when they hold the same bits, so the table is a map from bit sequences.
#[verifier::external_body]
pub(crate) fn index_insert(m: &mut CodeIndex, code: BitVec, symbol: u8)
    ensures
        code_index(*final(m)) == code_index(*old(m)).insert(bits_of(code), symbol),
{
    m.insert(code, symbol);
}

/// `HashMap::get` with a bit vector as key: the symbol under these bits, if there is one.
#[verifier::external_body]
pub(crate) fn index_get<'a>(m: &'a CodeIndex, code: &BitVec) -> (r: Option<&'a u8>)
    ensures
        match r {
            Some(symbol) => code_index(*m).contains_key(bits_of(*code)) && code_index(*m)[bits_of(
                *code,
            )] == *symbol,
            None => !code_index(*m).contains_key(bits_of(*code)),
        },
{
    m.get(code)
}

/// Cutting the end off a bit vector.
pub trait BitVecSlice {
    /// The bits of the vector.
    spec fn all_bits(&self) -> Seq<bool>;

    /// The bits from `start` up to the end of the vector; `end` is the length of the vector,
    /// or equal to `start` where nothing is cut out.
    fn slice(&self, start: usize, end: usize) -> (r: BitVec)
        requires
            start <= end,
            end >= self.all_bits().len(),
            start == end || end == self.all_bits().len(),
        ensures
            bits_of(r) == if start == end {
                Seq::<bool>::empty()
            } else {
                self.all_bits().subrange(start as int, end as int)
            },
    ;
}

impl BitVecSlice for BitVec {
    open spec fn all_bits(&self) -> Seq<bool> {
        bits_of(*self)
    }

    fn slice(&self, start: usize, end: usize) -> (r: BitVec) {
        let mut slice = bits_new();
        let mut i: usize = start;
        while i < end
            invariant
                start <= i <= end,
                start < end ==> end == bits_of(*self).len(),
                i == start ==> bits_of(slice) == Seq::<bool>::empty(),
                i > start ==> bits_of(slice) == bits_of(*self).subrange(start as int, i as int),
            decreases end - i,
        {
            let bit = bits_get(self, i).unwrap();
            bits_push(&mut slice, bit);
            assert(bits_of(slice) =~= bits_of(*self).subrange(start as int, i + 1));
            i += 1;
        }
        slice
    }
}

} // verus!
