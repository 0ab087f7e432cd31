//! A small table of fixed code words.

use crate::huffman::trees::code_table;
use crate::utils::bitvec_ext::bits_from_bytes;
use crate::utils::bitvec_ext::bytes_to_bits;
use bit_vec::BitVec;
use std::collections::HashMap;
use vstd::prelude::*;

verus! {

/// A small fixed table: sixteen bits for each of `a`, `b`, `c` and `~`.
pub open spec fn spec_mapping_on_bits() -> Map<u8, Seq<bool>> {
    Map::<u8, Seq<bool>>::empty().insert(97u8, bytes_to_bits(seq![0u8, 0u8])).insert(
        98u8,
        bytes_to_bits(seq![0u8, 1u8]),
    ).insert(99u8, bytes_to_bits(seq![1u8, 0u8])).insert(126u8, bytes_to_bits(seq![1u8, 1u8]))
}

/// The sixteen bits of two bytes.
fn two_bytes(first: u8, second: u8) -> (r: BitVec)
    ensures
        crate::utils::bitvec_ext::bits_of(r) == bytes_to_bits(seq![first, second]),
{
    let mut bytes: Vec<u8> = Vec::new();
    bytes.push(first);
    bytes.push(second);
    assert(bytes@ =~= seq![first, second]);
    bits_from_bytes(bytes.as_slice())
}

/// The fixed table.
pub fn mapping_on_bits() -> (r: HashMap<u8, BitVec>)
    ensures
        code_table(r@) == spec_mapping_on_bits(),
{
    let mut mapping: HashMap<u8, BitVec> = HashMap::new();
    mapping.insert(97, two_bytes(0, 0));
    mapping.insert(98, two_bytes(0, 1));
    mapping.insert(99, two_bytes(1, 0));
    mapping.insert(126, two_bytes(1, 1));
    assert(code_table(mapping@) =~= spec_mapping_on_bits());
    mapping
}

} // verus!
