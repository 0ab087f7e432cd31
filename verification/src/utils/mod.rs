//! Small pieces that both stages share.

pub mod bitvec_ext;

use vstd::prelude::*;

verus! {

/// A value of one of two types.
#[derive(Debug, PartialEq, Eq, Clone)]
pub enum TypeOr<L, R> {
    Left(L),
    Right(R),
}

/// `itertools::concat` on a vector of byte vectors. It extends the first vector by each of the
/// others in turn, and gives the empty vector where there is none: the result holds the bytes
/// of all the parts, in order.
#[verifier::external_body]
pub(crate) fn concat_all(parts: Vec<Vec<u8>>) -> (r: Vec<u8>)
    ensures
        r@ == parts@.map_values(|v: Vec<u8>| v@).flatten(),
{
    itertools::concat(parts)
}

} // verus!
