//! Counting the different bytes of a text.

use vstd::prelude::*;

verus! {

/// The number of byte values below `k` that occur in `s`.
pub open spec fn present_below(s: Seq<u8>, k: int) -> nat
    decreases k,
{
    if k <= 0 {
        0
    } else {
        present_below(s, k - 1) + if s.contains((k - 1) as u8) {
            1nat
        } else {
            0nat
        }
    }
}

/// The number of different byte values that occur in `s`.
pub open spec fn distinct_symbols(s: Seq<u8>) -> nat {
    present_below(s, 256)
}

/// Among the byte values below `k`, at most `k` occur.
pub proof fn lemma_present_below_bound(s: Seq<u8>, k: int)
    requires
        0 <= k,
    ensures
        present_below(s, k) <= k,
    decreases k,
{
    if k > 0 {
        lemma_present_below_bound(s, k - 1);
    }
}

/// The number of different byte values in `bytes`, as a byte: 256 of them count as 0.
pub fn calc_distinct_symbols_num(bytes: &[u8]) -> (r: u8)
    ensures
        r == distinct_symbols(bytes@) % 256,
{
    let mut seen: Vec<bool> = Vec::new();
    let mut k: usize = 0;
    while k < 256
        invariant
            k <= 256,
            seen@.len() == k,
            forall|b: int| 0 <= b < k ==> !(#[trigger] seen@[b]),
        decreases 256 - k,
    {
        seen.push(false);
        k += 1;
    }
    let mut i: usize = 0;
    while i < bytes.len()
        invariant
            i <= bytes.len(),
            seen@.len() == 256,
            forall|b: int|
                0 <= b < 256 ==> (#[trigger] seen@[b] <==> bytes@.subrange(0, i as int).contains(
                    b as u8,
                )),
        decreases bytes.len() - i,
    {
        let c = bytes[i];
        let ghost before = bytes@.subrange(0, i as int);
        let ghost after = bytes@.subrange(0, i + 1);
        seen.set(c as usize, true);
        proof {
            assert(after =~= before.push(c));
            assert forall|b: int| 0 <= b < 256 implies (#[trigger] seen@[b] <==> after.contains(
                b as u8,
            )) by {
                if before.contains(b as u8) {
                    let j = choose|j: int| 0 <= j < before.len() && before[j] == b as u8;
                    assert(after[j] == b as u8);
                }
                if b == c {
                    assert(after[i as int] == c);
                }
                if after.contains(b as u8) && b != c {
                    let j = choose|j: int| 0 <= j < after.len() && after[j] == b as u8;
                    assert(before[j] == b as u8);
                }
            }
        }
        i += 1;
    }
    assert(bytes@.subrange(0, i as int) =~= bytes@);
    let mut count: usize = 0;
    let mut k: usize = 0;
    while k < 256
        invariant
            k <= 256,
            seen@.len() == 256,
            count == present_below(bytes@, k as int),
            count <= k,
            forall|b: int| 0 <= b < 256 ==> (#[trigger] seen@[b] <==> bytes@.contains(b as u8)),
        decreases 256 - k,
    {
        if seen[k] {
            count += 1;
        }
        k += 1;
    }
    (count % 256) as u8
}

} // verus!
