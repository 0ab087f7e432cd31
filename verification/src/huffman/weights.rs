//! Weight tables: the predefined one, and the one fitted to a text.

use std::collections::HashMap;
use vstd::prelude::*;

verus! {

/// The symbols of the predefined table are the bytes below this.
pub const ASCII_SZ: u8 = 127;

/// The predefined table: weight 1 for every byte from 0 to 126.
pub open spec fn spec_default_weights() -> Map<u8, u8> {
    Map::new(|b: u8| b < 127, |b: u8| 1u8)
}

/// How often `b` occurs in `s`.
pub open spec fn occurrences(s: Seq<u8>, b: u8) -> nat
    decreases s.len(),
{
    if s.len() == 0 {
        0
    } else {
        occurrences(s.drop_last(), b) + if s.last() == b {
            1nat
        } else {
            0nat
        }
    }
}

/// The largest number of occurrences among the byte values below `k`.
pub open spec fn max_occurrences(s: Seq<u8>, k: int) -> nat
    decreases k,
{
    if k <= 0 {
        0
    } else {
        let rest = max_occurrences(s, k - 1);
        if occurrences(s, (k - 1) as u8) > rest {
            occurrences(s, (k - 1) as u8)
        } else {
            rest
        }
    }
}

/// The number by which the counts are divided so that every weight fits in a byte.
pub open spec fn spec_scaler(s: Seq<u8>) -> nat {
    max_occurrences(s, 256) / 255 + 1
}

/// The weight of a symbol that occurs in `s`: its count divided by the scaler, but at least 1.
pub open spec fn fitted_weight(s: Seq<u8>, b: u8) -> u8 {
    let q = occurrences(s, b) / spec_scaler(s);
    if q >= 1 {
        q as u8
    } else {
        1
    }
}

/// The table fitted to a text: one entry for every byte value that occurs in it.
pub open spec fn spec_fitted(s: Seq<u8>) -> Map<u8, u8> {
    Map::new(|b: u8| occurrences(s, b) > 0, |b: u8| fitted_weight(s, b))
}

/// A byte occurs in a text exactly when its count is positive.
pub proof fn lemma_occurrences_contains(s: Seq<u8>, b: u8)
    ensures
        occurrences(s, b) > 0 <==> s.contains(b),
        occurrences(s, b) <= s.len(),
    decreases s.len(),
{
    if s.len() > 0 {
        lemma_occurrences_contains(s.drop_last(), b);
        if s.drop_last().contains(b) {
            let j = choose|j: int| 0 <= j < s.drop_last().len() && s.drop_last()[j] == b;
            assert(s[j] == b);
        }
        if s.last() == b {
            assert(s[s.len() - 1] == b);
        }
        if s.contains(b) && s.last() != b {
            let j = choose|j: int| 0 <= j < s.len() && s[j] == b;
            assert(s.drop_last()[j] == b);
        }
    }
}

proof fn lemma_max_occurrences(s: Seq<u8>, k: int, b: u8)
    requires
        0 <= b < k,
    ensures
        occurrences(s, b) <= max_occurrences(s, k),
    decreases k,
{
    if b < k - 1 {
        lemma_max_occurrences(s, k - 1, b);
    }
}

proof fn lemma_scaled_fits(count: nat, top: nat)
    requires
        count <= top,
    ensures
        count / (top / 255 + 1) <= 255,
{
    let d = top / 255 + 1;
    vstd::arithmetic::div_mod::lemma_fundamental_div_mod(top as int, 255);
    assert(top < 255 * d);
    assert(count / d <= 255) by (nonlinear_arith)
        requires
            count < 255 * d,
            d > 0,
    ;
}

/// A fitted weight is never zero.
pub proof fn lemma_fitted_weight_positive(s: Seq<u8>, b: u8)
    ensures
        fitted_weight(s, b) >= 1,
{
    lemma_max_occurrences(s, 256, b);
    lemma_scaled_fits(occurrences(s, b), max_occurrences(s, 256));
}

/// Makes weight tables.
pub struct WeightsCalculator;

impl WeightsCalculator {
    /// The predefined table.
    pub fn default() -> (r: HashMap<u8, u8>)
        ensures
            r@ == spec_default_weights(),
    {
        let mut mapping: HashMap<u8, u8> = HashMap::new();
        let mut i: u8 = 0;
        while i < ASCII_SZ
            invariant
                i <= ASCII_SZ,
                mapping@ == Map::new(|b: u8| b < i, |b: u8| 1u8),
            decreases ASCII_SZ - i,
        {
            mapping.insert(i, 1);
            assert(mapping@ =~= Map::new(|b: u8| b < i + 1, |b: u8| 1u8));
            i += 1;
        }
        mapping
    }

    /// The table fitted to `bytes`: counts the occurrences of every byte value, then scales
    /// the counts down so that the largest fits in a byte.
    pub fn fitted_to_text(bytes: &[u8]) -> (r: HashMap<u8, u8>)
        requires
            bytes@.len() > 0,
        ensures
            r@ == spec_fitted(bytes@),
    {
        let mut symbol_counter: HashMap<u8, usize> = HashMap::new();
        let mut i: usize = 0;
        while i < bytes.len()
            invariant
                i <= bytes.len(),
                symbol_counter@ == Map::new(
                    |b: u8| occurrences(bytes@.subrange(0, i as int), b) > 0,
                    |b: u8| occurrences(bytes@.subrange(0, i as int), b) as usize,
                ),
            decreases bytes.len() - i,
        {
            let s = bytes[i];
            let ghost before = bytes@.subrange(0, i as int);
            let ghost after = bytes@.subrange(0, i + 1);
            proof {
                assert(after.drop_last() =~= before);
                lemma_occurrences_contains(before, s);
            }
            let count: usize = match symbol_counter.get(&s) {
                Some(count) => *count,
                None => 0,
            };
            symbol_counter.insert(s, count + 1);
            assert(symbol_counter@ =~= Map::new(
                |b: u8| occurrences(after, b) > 0,
                |b: u8| occurrences(after, b) as usize,
            ));
            i += 1;
        }
        assert(bytes@.subrange(0, i as int) =~= bytes@);
        let n = bytes.len();
        let mut count_max: usize = 0;
        let mut k: usize = 0;
        while k < 256
            invariant
                k <= 256,
                n == bytes@.len(),
                count_max == max_occurrences(bytes@, k as int),
                symbol_counter@ == Map::new(
                    |b: u8| occurrences(bytes@, b) > 0,
                    |b: u8| occurrences(bytes@, b) as usize,
                ),
            decreases 256 - k,
        {
            let symbol = k as u8;
            proof {
                lemma_occurrences_contains(bytes@, symbol);
                assert(symbol_counter@.contains_key(symbol) <==> occurrences(bytes@, symbol) > 0);
                assert(symbol_counter@.contains_key(symbol) ==> symbol_counter@[symbol]
                    == occurrences(bytes@, symbol));
            }
            match symbol_counter.get(&symbol) {
                Some(count) => {
                    if *count > count_max {
                        count_max = *count;
                    }
                },
                None => {},
            }
            k += 1;
        }
        let scaler = count_max / 255 + 1;
        let mut mapping: HashMap<u8, u8> = HashMap::new();
        let mut k: usize = 0;
        while k < 256
            invariant
                k <= 256,
                n == bytes@.len(),
                scaler == spec_scaler(bytes@),
                symbol_counter@ == Map::new(
                    |b: u8| occurrences(bytes@, b) > 0,
                    |b: u8| occurrences(bytes@, b) as usize,
                ),
                mapping@ == Map::new(
                    |b: u8| b < k && occurrences(bytes@, b) > 0,
                    |b: u8| fitted_weight(bytes@, b),
                ),
            decreases 256 - k,
        {
            let symbol = k as u8;
            proof {
                lemma_occurrences_contains(bytes@, symbol);
                assert(symbol_counter@.contains_key(symbol) <==> occurrences(bytes@, symbol) > 0);
                assert(symbol_counter@.contains_key(symbol) ==> symbol_counter@[symbol]
                    == occurrences(bytes@, symbol));
            }
            match symbol_counter.get(&symbol) {
                Some(occurences) => {
                    proof {
                        lemma_max_occurrences(bytes@, 256, symbol);
                        lemma_scaled_fits(
                            occurrences(bytes@, symbol),
                            max_occurrences(bytes@, 256),
                        );
                    }
                    let scaled = (*occurences / scaler) as u8;
                    let weight = if scaled >= 1 {
                        scaled
                    } else {
                        1
                    };
                    mapping.insert(symbol, weight);
                },
                None => {},
            }
            assert(mapping@ =~= Map::new(
                |b: u8| b < k + 1 && occurrences(bytes@, b) > 0,
                |b: u8| fitted_weight(bytes@, b),
            ));
            k += 1;
        }
        assert(mapping@ =~= spec_fitted(bytes@));
        mapping
    }
}

} // verus!
