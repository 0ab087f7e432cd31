//! The rolling-hash index: prefix hashes of a text in up to four layers, each with its own
//! modulus and base, from which the hash of any substring is had in constant time.

use vstd::arithmetic::div_mod::*;
use vstd::arithmetic::power::*;
use vstd::prelude::*;

verus! {

/// The number of layers of a table when the caller names none.
pub const DEFAULT_NUM_OF_HASH_LAYERS: usize = 2;

/// No table has more layers than this.
pub const MAX_REASONABLE_NUM_OF_HASH_LAYERS: usize = 4;

/// The modulus of layer `k`.
pub open spec fn layer_modulo(k: int) -> u64 {
    if k == 0 {
        1000000007
    } else if k == 1 {
        100000009
    } else if k == 2 {
        1000000021
    } else {
        100000033
    }
}

/// The base of layer `k`.
pub open spec fn layer_base(k: int) -> u64 {
    if k == 0 {
        27
    } else if k == 1 {
        29
    } else if k == 2 {
        31
    } else {
        37
    }
}

/// `p` to the power `i + 1`, reduced modulo `m` after every multiplication.
pub open spec fn spec_pow(m: int, p: int, i: int) -> int
    decreases i,
{
    if i <= 0 {
        p % m
    } else {
        (spec_pow(m, p, i - 1) * p) % m
    }
}

/// The sum of `spec_pow(m, p, k) * t[k]` over `k <= i`, reduced modulo `m` after every addition.
pub open spec fn spec_pref(t: Seq<u8>, m: int, p: int, i: int) -> int
    decreases i + 1,
{
    if i < 0 {
        0
    } else {
        (spec_pref(t, m, p, i - 1) + spec_pow(m, p, i) * t[i]) % m
    }
}

/// The hash of `t[i..=j]` in the layer with modulus `m` and base `p`: the difference of two
/// prefix sums, shifted by a power that depends on where the substring starts.
pub open spec fn spec_hash(t: Seq<u8>, m: int, p: int, i: int, j: int) -> int {
    (((m + spec_pref(t, m, p, j) - spec_pref(t, m, p, i - 1)) % m) * spec_pow(
        m,
        p,
        t.len() - i - 1,
    )) % m
}

/// The hashes of `t[i..=j]` in the first `layers` layers.
pub open spec fn spec_hash_tuple(t: Seq<u8>, layers: nat, i: int, j: int) -> Seq<usize> {
    Seq::new(layers, |k: int| spec_hash(t, layer_modulo(k) as int, layer_base(k) as int, i, j) as usize)
}

/// The modulus of layer `k`.
fn modulo_of_layer(k: usize) -> (m: u64)
    ensures
        m == layer_modulo(k as int),
{
    if k == 0 {
        1000000007
    } else if k == 1 {
        100000009
    } else if k == 2 {
        1000000021
    } else {
        100000033
    }
}

/// The base of layer `k`.
fn base_of_layer(k: usize) -> (p: u64)
    ensures
        p == layer_base(k as int),
{
    if k == 0 {
        27
    } else if k == 1 {
        29
    } else if k == 2 {
        31
    } else {
        37
    }
}

/// The hashes of one substring, one per layer.
#[derive(Hash, PartialEq, Eq, Debug)]
pub struct Hash(Vec<usize>);

impl Clone for Hash {
    fn clone(&self) -> (r: Self)
        ensures
            r@ == self@,
    {
        proof {
            use_type_invariant(self);
        }
        let values = self.0.clone();
        assert(values@ =~= self.0@);
        Hash(values)
    }
}

impl View for Hash {
    type V = Seq<usize>;

    closed spec fn view(&self) -> Seq<usize> {
        self.0@
    }
}

/// The values of a tuple read as the digits of one number in base 2^32, the first value
/// the most significant.
pub open spec fn spec_pack(s: Seq<usize>) -> nat
    decreases s.len(),
{
    if s.len() == 0 {
        0
    } else {
        spec_pack(s.drop_last()) * 0x1_0000_0000 + s.last() as nat
    }
}

/// Whether every value of the tuple is below 2^32.
pub open spec fn small_values(s: Seq<usize>) -> bool {
    forall|k: int| 0 <= k < s.len() ==> #[trigger] s[k] < 0x1_0000_0000
}

spec fn pack_limit(len: int) -> nat {
    if len <= 0 {
        1
    } else if len == 1 {
        0x1_0000_0000
    } else if len == 2 {
        0x1_0000_0000_0000_0000
    } else if len == 3 {
        0x1_0000_0000_0000_0000_0000_0000
    } else {
        u128::MAX as nat + 1
    }
}

proof fn lemma_pack_limit(s: Seq<usize>)
    requires
        s.len() <= 4,
        small_values(s),
    ensures
        spec_pack(s) < pack_limit(s.len() as int),
    decreases s.len(),
{
    if s.len() > 0 {
        let t = s.drop_last();
        assert(small_values(t)) by {
            assert forall|k: int| 0 <= k < t.len() implies #[trigger] t[k] < 0x1_0000_0000 by {
                assert(t[k] == s[k]);
            }
        }
        lemma_pack_limit(t);
        assert(s[s.len() - 1] < 0x1_0000_0000);
    }
}

/// Two tuples of one length with small values that pack to the same number are the same tuple.
pub proof fn lemma_pack_injective(a: Seq<usize>, b: Seq<usize>)
    requires
        a.len() == b.len(),
        small_values(a),
        small_values(b),
        spec_pack(a) == spec_pack(b),
    ensures
        a == b,
    decreases a.len(),
{
    if a.len() > 0 {
        let a0 = a.drop_last();
        let b0 = b.drop_last();
        assert(small_values(a0)) by {
            assert forall|k: int| 0 <= k < a0.len() implies #[trigger] a0[k] < 0x1_0000_0000 by {
                assert(a0[k] == a[k]);
            }
        }
        assert(small_values(b0)) by {
            assert forall|k: int| 0 <= k < b0.len() implies #[trigger] b0[k] < 0x1_0000_0000 by {
                assert(b0[k] == b[k]);
            }
        }
        assert(a[a.len() - 1] < 0x1_0000_0000);
        assert(b[b.len() - 1] < 0x1_0000_0000);
        assert(spec_pack(a0) == spec_pack(b0) && a.last() == b.last());
        lemma_pack_injective(a0, b0);
        assert(a =~= a0.push(a.last()));
        assert(b =~= b0.push(b.last()));
    } else {
        assert(a =~= b);
    }
}

impl Hash {
    #[verifier::type_invariant]
    spec fn well_formed(&self) -> bool {
        self.0@.len() <= MAX_REASONABLE_NUM_OF_HASH_LAYERS && small_values(self.0@)
    }

    /// The tuple as one number, to key a map by.
    pub fn packed(&self) -> (r: u128)
        ensures
            r == spec_pack(self@),
            self@.len() <= MAX_REASONABLE_NUM_OF_HASH_LAYERS,
            small_values(self@),
    {
        proof {
            use_type_invariant(self);
        }
        let mut acc: u128 = 0;
        let mut k: usize = 0;
        while k < self.0.len()
            invariant
                k <= self.0.len() <= 4,
                small_values(self.0@),
                acc == spec_pack(self.0@.subrange(0, k as int)),
                acc < pack_limit(k as int),
            decreases self.0.len() - k,
        {
            let ghost next = self.0@.subrange(0, k + 1);
            proof {
                assert(next.drop_last() =~= self.0@.subrange(0, k as int));
                assert(next.last() == self.0@[k as int]);
                assert(self.0@[k as int] < 0x1_0000_0000);
            }
            acc = acc * 0x1_0000_0000 + self.0[k] as u128;
            k += 1;
        }
        assert(self.0@.subrange(0, k as int) =~= self.0@);
        acc
    }
}

/// One layer of the index: prefix hashes of a text for one modulus and one base.
pub struct SingleHashTable<'a> {
    text: &'a Vec<u8>,
    pref: Vec<u32>,
    pow: Vec<u32>,
    modulo: u64,
    base: u64,
}

impl<'a> SingleHashTable<'a> {
    #[verifier::type_invariant]
    spec fn well_formed(&self) -> bool {
        &&& 1 <= self.modulo <= 0x1_0000_0000
        &&& self.pow.len() == self.text.len()
        &&& self.pref.len() == self.text.len()
        &&& forall|i: int|
            0 <= i < self.pow.len() ==> #[trigger] self.pow[i] == spec_pow(
                self.modulo as int,
                self.base as int,
                i,
            )
        &&& forall|i: int|
            0 <= i < self.pref.len() ==> #[trigger] self.pref[i] == spec_pref(
                self.text@,
                self.modulo as int,
                self.base as int,
                i,
            )
    }

    /// The indexed text.
    pub closed spec fn text(&self) -> Seq<u8> {
        self.text@
    }

    /// The modulus of the layer.
    pub closed spec fn modulo(&self) -> u64 {
        self.modulo
    }

    /// The base of the layer.
    pub closed spec fn base(&self) -> u64 {
        self.base
    }

    /// The layer over `ascii_bytes` with modulus `m` and base `p`. The modulus is at most
    /// 2^32, and its product with the base fits in 64 bits.
    pub fn new(ascii_bytes: &'a Vec<u8>, m: u64, p: u64) -> (r: Self)
        requires
            1 <= m <= 0x1_0000_0000,
            m * p <= u64::MAX,
        ensures
            r.text() == ascii_bytes@,
            r.modulo() == m,
            r.base() == p,
    {
        let pows = SingleHashTable::calc_pow(ascii_bytes.len(), m, p);
        let prefs = SingleHashTable::calc_pref(ascii_bytes, &pows, m, Ghost(p));
        SingleHashTable { text: ascii_bytes, pref: prefs, pow: pows, modulo: m, base: p }
    }

    /// The powers of the base: entry `i` is `p` to the power `i + 1` modulo `m`.
    fn calc_pow(size: usize, m: u64, p: u64) -> (r: Vec<u32>)
        requires
            1 <= m <= 0x1_0000_0000,
            m * p <= u64::MAX,
        ensures
            r.len() == size,
            forall|i: int| 0 <= i < size ==> #[trigger] r[i] == spec_pow(m as int, p as int, i),
    {
        let mut x: u64 = 1;
        let mut r: Vec<u32> = Vec::new();
        let mut i: usize = 0;
        while i < size
            invariant
                i <= size,
                r.len() == i,
                1 <= m <= 0x1_0000_0000,
                m * p <= u64::MAX,
                x <= m,
                i == 0 ==> x == 1,
                i > 0 ==> x == spec_pow(m as int, p as int, i - 1),
                forall|k: int| 0 <= k < i ==> #[trigger] r[k] == spec_pow(m as int, p as int, k),
            decreases size - i,
        {
            assert(x * p <= m * p) by (nonlinear_arith)
                requires
                    x <= m,
            ;
            x = (x * p) % m;
            r.push(x as u32);
            i += 1;
        }
        r
    }

    /// The prefix sums: entry `i` is the sum of power times byte over the indices up to `i`,
    /// modulo `m`.
    fn calc_pref(ascii_bytes: &Vec<u8>, pows: &Vec<u32>, m: u64, Ghost(p): Ghost<u64>) -> (r: Vec<
        u32,
    >)
        requires
            1 <= m <= 0x1_0000_0000,
            pows.len() == ascii_bytes.len(),
            forall|i: int|
                0 <= i < pows.len() ==> #[trigger] pows[i] == spec_pow(m as int, p as int, i),
        ensures
            r.len() == ascii_bytes.len(),
            forall|i: int|
                0 <= i < r.len() ==> #[trigger] r[i] == spec_pref(
                    ascii_bytes@,
                    m as int,
                    p as int,
                    i,
                ),
    {
        let mut x: u64 = 0;
        let mut r: Vec<u32> = Vec::new();
        let mut i: usize = 0;
        while i < ascii_bytes.len()
            invariant
                i <= ascii_bytes.len(),
                r.len() == i,
                1 <= m <= 0x1_0000_0000,
                pows.len() == ascii_bytes.len(),
                forall|k: int|
                    0 <= k < pows.len() ==> #[trigger] pows[k] == spec_pow(m as int, p as int, k),
                x < m,
                x == spec_pref(ascii_bytes@, m as int, p as int, i - 1),
                forall|k: int|
                    0 <= k < i ==> #[trigger] r[k] == spec_pref(
                        ascii_bytes@,
                        m as int,
                        p as int,
                        k,
                    ),
            decreases ascii_bytes.len() - i,
        {
            let pw: u64 = pows[i] as u64;
            let c: u64 = ascii_bytes[i] as u64;
            assert(pw * c <= 0xffff_ffff * 0xff) by (nonlinear_arith)
                requires
                    pw <= 0xffff_ffff,
                    c <= 0xff,
            ;
            x = (x + pw * c) % m;
            r.push(x as u32);
            i += 1;
        }
        r
    }

    /// The hash of the bytes from `start` to `stop`, both included.
    pub fn get_hash(&self, start: usize, stop: usize) -> (r: usize)
        requires
            start < self.text().len(),
            stop < self.text().len(),
        ensures
            r == spec_hash(
                self.text(),
                self.modulo() as int,
                self.base() as int,
                start as int,
                stop as int,
            ),
            r < self.modulo(),
    {
        proof {
            use_type_invariant(self);
        }
        let to_subtract: u32 = if start == 0 {
            0
        } else {
            self.pref[start - 1]
        };
        let interval: u64 = (self.modulo + self.pref[stop] as u64 - to_subtract as u64)
            % self.modulo;
        let shift = self.text.len() - start - 1;
        let pw: u64 = self.pow[shift] as u64;
        assert(interval * pw <= 0xffff_ffff * 0xffff_ffff) by (nonlinear_arith)
            requires
                interval <= 0xffff_ffff,
                pw <= 0xffff_ffff,
        ;
        let shifted_interval = (interval * pw) % self.modulo;
        shifted_interval as usize
    }
}

/// The whole index: up to four layers over one text.
pub struct HashTable<'a> {
    text: &'a Vec<u8>,
    single_hashes: Vec<SingleHashTable<'a>>,
}

impl<'a> HashTable<'a> {
    #[verifier::type_invariant]
    spec fn well_formed(&self) -> bool {
        &&& self.single_hashes.len() <= MAX_REASONABLE_NUM_OF_HASH_LAYERS
        &&& forall|k: int|
            0 <= k < self.single_hashes.len() ==> {
                &&& (#[trigger] self.single_hashes[k]).text() == self.text@
                &&& self.single_hashes[k].modulo() == layer_modulo(k)
                &&& self.single_hashes[k].base() == layer_base(k)
            }
    }

    /// The indexed text.
    pub closed spec fn text(&self) -> Seq<u8> {
        self.text@
    }

    /// The number of layers.
    pub closed spec fn layers(&self) -> nat {
        self.single_hashes.len() as nat
    }

    /// The number of layers that a request for `num_of_hash_layers` gives.
    pub open spec fn spec_layers(num_of_hash_layers: Option<usize>) -> nat {
        let asked = match num_of_hash_layers {
            Some(n) => n,
            None => DEFAULT_NUM_OF_HASH_LAYERS,
        };
        if asked <= MAX_REASONABLE_NUM_OF_HASH_LAYERS {
            asked as nat
        } else {
            MAX_REASONABLE_NUM_OF_HASH_LAYERS as nat
        }
    }

    /// The index over `ascii_bytes` with the number of layers asked for: two where none is
    /// named, and never more than four.
    pub fn new(ascii_bytes: &'a Vec<u8>, num_of_hash_layers: Option<usize>) -> (r: Self)
        ensures
            r.text() == ascii_bytes@,
            r.layers() == Self::spec_layers(num_of_hash_layers),
    {
        let hash_num = match num_of_hash_layers {
            Some(n) => n,
            None => DEFAULT_NUM_OF_HASH_LAYERS,
        };
        let hash_num = if hash_num <= MAX_REASONABLE_NUM_OF_HASH_LAYERS {
            hash_num
        } else {
            MAX_REASONABLE_NUM_OF_HASH_LAYERS
        };
        let mut single_hashes: Vec<SingleHashTable<'a>> = Vec::new();
        let mut i: usize = 0;
        while i < hash_num
            invariant
                i <= hash_num <= MAX_REASONABLE_NUM_OF_HASH_LAYERS,
                single_hashes.len() == i,
                forall|k: int|
                    0 <= k < i ==> {
                        &&& (#[trigger] single_hashes[k]).text() == ascii_bytes@
                        &&& single_hashes[k].modulo() == layer_modulo(k)
                        &&& single_hashes[k].base() == layer_base(k)
                    },
            decreases hash_num - i,
        {
            let layer = SingleHashTable::new(ascii_bytes, modulo_of_layer(i), base_of_layer(i));
            single_hashes.push(layer);
            i += 1;
        }
        HashTable { text: ascii_bytes, single_hashes }
    }

    /// The hashes of the bytes from `start` to `stop`, both included, one per layer.
    pub fn get_hash(&self, start: usize, stop: usize) -> (r: Hash)
        requires
            start < self.text().len(),
            stop < self.text().len(),
        ensures
            r@ == spec_hash_tuple(self.text(), self.layers(), start as int, stop as int),
    {
        proof {
            use_type_invariant(self);
        }
        let mut values: Vec<usize> = Vec::new();
        let mut k: usize = 0;
        while k < self.single_hashes.len()
            invariant
                k <= self.single_hashes.len(),
                values.len() == k,
                start < self.text@.len(),
                stop < self.text@.len(),
                self.well_formed(),
                forall|l: int|
                    0 <= l < k ==> #[trigger] values[l] == spec_hash(
                        self.text@,
                        layer_modulo(l) as int,
                        layer_base(l) as int,
                        start as int,
                        stop as int,
                    ) && values[l] < layer_modulo(l),
            decreases self.single_hashes.len() - k,
        {
            let h = self.single_hashes[k].get_hash(start, stop);
            values.push(h);
            k += 1;
        }
        assert(values@ =~= spec_hash_tuple(self.text(), self.layers(), start as int, stop as int));
        assert(small_values(values@)) by {
            assert forall|l: int| 0 <= l < values@.len() implies #[trigger] values@[l]
                < 0x1_0000_0000 by {
                assert(values[l] < layer_modulo(l));
            }
        }
        Hash(values)
    }
}

/// The sum of `p^k * w[k]` over the indices `k` of `w`.
pub open spec fn weighted_sum(w: Seq<u8>, p: int) -> int
    decreases w.len(),
{
    if w.len() == 0 {
        0
    } else {
        weighted_sum(w.drop_last(), p) + pow(p, (w.len() - 1) as nat) * w.last()
    }
}

proof fn lemma_spec_pow(m: int, p: int, i: int)
    requires
        m > 0,
        i >= 0,
    ensures
        spec_pow(m, p, i) == pow(p, (i + 1) as nat) % m,
    decreases i,
{
    lemma_pow1(p);
    if i > 0 {
        lemma_spec_pow(m, p, i - 1);
        lemma_mul_mod_noop_left(pow(p, i as nat), p, m);
        lemma_pow_adds(p, i as nat, 1);
    }
}

proof fn lemma_spec_pref_bound(t: Seq<u8>, m: int, p: int, i: int)
    requires
        m > 0,
    ensures
        0 <= spec_pref(t, m, p, i) < m,
{
    if i >= 0 {
        lemma_mod_bound(spec_pref(t, m, p, i - 1) + spec_pow(m, p, i) * t[i], m);
    }
}

proof fn lemma_spec_pref(t: Seq<u8>, m: int, p: int, a: int, j: int)
    requires
        m > 0,
        -1 <= a <= j < t.len(),
    ensures
        spec_pref(t, m, p, j) == (spec_pref(t, m, p, a) + pow(p, (a + 2) as nat) * weighted_sum(
            t.subrange(a + 1, j + 1),
            p,
        )) % m,
    decreases j - a,
{
    let base = spec_pref(t, m, p, a);
    let lead = pow(p, (a + 2) as nat);
    if j == a {
        lemma_spec_pref_bound(t, m, p, a);
        assert(t.subrange(a + 1, j + 1).len() == 0);
        assert(lead * 0 == 0);
        lemma_small_mod(base as nat, m as nat);
    } else {
        lemma_spec_pref(t, m, p, a, j - 1);
        lemma_spec_pow(m, p, j);
        let w = t.subrange(a + 1, j + 1);
        assert(w.drop_last() =~= t.subrange(a + 1, j));
        assert(w.last() == t[j]);
        let w0 = weighted_sum(w.drop_last(), p);
        let step = pow(p, (j - a - 1) as nat);
        let top = pow(p, (j + 1) as nat);
        let c = t[j] as int;
        assert(weighted_sum(w, p) == w0 + step * c);
        assert(lead * step == top) by {
            lemma_pow_adds(p, (a + 2) as nat, (j - a - 1) as nat);
        }
        assert(lead * (w0 + step * c) == lead * w0 + top * c) by (nonlinear_arith)
            requires
                lead * step == top,
        ;
        let x = base + lead * w0;
        let y = top * c;
        let y1 = (top % m) * c;
        assert(spec_pref(t, m, p, j) == (x % m + y1) % m);
        lemma_mul_mod_noop_left(top, c, m);
        assert(y1 % m == y % m);
        lemma_add_mod_noop(x % m, y1, m);
        lemma_mod_twice(x, m);
        lemma_add_mod_noop(x, y, m);
    }
}

/// The hash of a substring is the weighted sum of its own bytes, times a power that depends on
/// the length of the text alone.
pub proof fn lemma_hash_is_weighted_sum(t: Seq<u8>, m: int, p: int, i: int, j: int)
    requires
        m > 0,
        0 <= i <= j < t.len(),
    ensures
        spec_hash(t, m, p, i, j) == (pow(p, (t.len() + 1) as nat) * weighted_sum(
            t.subrange(i, j + 1),
            p,
        )) % m,
{
    let n = t.len() as int;
    let w = weighted_sum(t.subrange(i, j + 1), p);
    let a = spec_pref(t, m, p, i - 1);
    let lead = pow(p, (i + 1) as nat);
    let shift = pow(p, (n - i) as nat);
    let x = lead * w;
    lemma_spec_pref(t, m, p, i - 1, j);
    lemma_spec_pow(m, p, n - i - 1);
    lemma_spec_pref_bound(t, m, p, i - 1);
    let interval = (m + spec_pref(t, m, p, j) - a) % m;
    assert(interval == x % m) by {
        lemma_mod_add_multiples_vanish((a + x) % m - a, m);
        lemma_small_mod(a as nat, m as nat);
        lemma_sub_mod_noop(a + x, a, m);
    }
    assert(spec_hash(t, m, p, i, j) == ((x % m) * (shift % m)) % m);
    lemma_mul_mod_noop_general(x, shift % m, m);
    lemma_mul_mod_noop_general(x, shift, m);
    assert(lead * shift == pow(p, (n + 1) as nat)) by {
        lemma_pow_adds(p, (i + 1) as nat, (n - i) as nat);
    }
    assert(x * shift == pow(p, (n + 1) as nat) * w) by (nonlinear_arith)
        requires
            x == lead * w,
            lead * shift == pow(p, (n + 1) as nat),
    ;
}

/// Two substrings of the indexed text that hold the same bytes have the same hash in every
/// layer, wherever they start.
pub proof fn lemma_hash_consistency(t: Seq<u8>, layers: nat, i1: int, j1: int, i2: int, j2: int)
    requires
        0 <= i1 <= j1 < t.len(),
        0 <= i2 <= j2 < t.len(),
        t.subrange(i1, j1 + 1) == t.subrange(i2, j2 + 1),
    ensures
        spec_hash_tuple(t, layers, i1, j1) == spec_hash_tuple(t, layers, i2, j2),
{
    assert forall|k: int| 0 <= k < layers implies spec_hash(
        t,
        layer_modulo(k) as int,
        layer_base(k) as int,
        i1,
        j1,
    ) == spec_hash(t, layer_modulo(k) as int, layer_base(k) as int, i2, j2) by {
        lemma_hash_is_weighted_sum(t, layer_modulo(k) as int, layer_base(k) as int, i1, j1);
        lemma_hash_is_weighted_sum(t, layer_modulo(k) as int, layer_base(k) as int, i2, j2);
    }
    assert(spec_hash_tuple(t, layers, i1, j1) =~= spec_hash_tuple(t, layers, i2, j2));
}

/// The inverse of the base of layer `k` modulo the modulus of that layer.
pub open spec fn layer_base_inverse(k: int) -> int {
    if k == 0 {
        370370373
    } else if k == 1 {
        79310352
    } else if k == 2 {
        161290326
    } else {
        13513518
    }
}

proof fn lemma_layer_base_inverse(k: int)
    ensures
        (layer_base(k) * layer_base_inverse(k)) % (layer_modulo(k) as int) == 1,
{
    if k == 0 {
        lemma_fundamental_div_mod_converse(27int * 370370373int, 1000000007, 10, 1);
    } else if k == 1 {
        lemma_fundamental_div_mod_converse(29int * 79310352int, 100000009, 23, 1);
    } else if k == 2 {
        lemma_fundamental_div_mod_converse(31int * 161290326int, 1000000021, 5, 1);
    } else {
        lemma_fundamental_div_mod_converse(37int * 13513518int, 100000033, 5, 1);
    }
}

proof fn lemma_pow_of_inverse(p: int, q: int, m: int, e: nat)
    requires
        m > 1,
        (p * q) % m == 1,
    ensures
        (pow(p, e) * pow(q, e)) % m == 1,
    decreases e,
{
    if e == 0 {
        lemma_pow0(p);
        lemma_pow0(q);
        lemma_small_mod(1, m as nat);
    } else {
        lemma_pow_of_inverse(p, q, m, (e - 1) as nat);
        let x = pow(p, (e - 1) as nat);
        let y = pow(q, (e - 1) as nat);
        lemma_pow_adds(p, 1, (e - 1) as nat);
        lemma_pow_adds(q, 1, (e - 1) as nat);
        lemma_pow1(p);
        lemma_pow1(q);
        assert(pow(p, e) * pow(q, e) == (p * q) * (x * y)) by (nonlinear_arith)
            requires
                pow(p, e) == p * x,
                pow(q, e) == q * y,
        ;
        lemma_mul_mod_noop_general(p * q, x * y, m);
        lemma_mul_mod_noop_general(1, x * y, m);
        lemma_small_mod(1, m as nat);
    }
}

/// In one layer, two substrings that start at the same place hash alike exactly when the
/// weighted sums of their bytes differ by a multiple of the modulus.
pub proof fn lemma_hash_difference(t: Seq<u8>, m: int, p: int, q: int, i: int, j1: int, j2: int)
    requires
        m > 1,
        (p * q) % m == 1,
        0 <= i <= j1 < t.len(),
        i <= j2 < t.len(),
    ensures
        spec_hash(t, m, p, i, j1) == spec_hash(t, m, p, i, j2) <==> (weighted_sum(
            t.subrange(i, j2 + 1),
            p,
        ) - weighted_sum(t.subrange(i, j1 + 1), p)) % m == 0,
{
    let lead = pow(p, (t.len() + 1) as nat);
    let back = pow(q, (t.len() + 1) as nat);
    let a = weighted_sum(t.subrange(i, j1 + 1), p);
    let b = weighted_sum(t.subrange(i, j2 + 1), p);
    let d = b - a;
    lemma_hash_is_weighted_sum(t, m, p, i, j1);
    lemma_hash_is_weighted_sum(t, m, p, i, j2);
    lemma_pow_of_inverse(p, q, m, (t.len() + 1) as nat);
    lemma_mod_equivalence(lead * b, lead * a, m);
    assert(lead * b - lead * a == lead * d) by (nonlinear_arith)
        requires
            d == b - a,
    ;
    if d % m == 0 {
        lemma_mul_mod_noop_general(lead, d, m);
        assert(lead * 0 == 0);
        lemma_small_mod(0, m as nat);
    }
    if (lead * d) % m == 0 {
        lemma_mul_mod_noop_general(back, lead * d, m);
        assert(back * 0 == 0);
        lemma_small_mod(0, m as nat);
        assert(back * (lead * d) == (lead * back) * d) by (nonlinear_arith);
        lemma_mul_mod_noop_general(lead * back, d, m);
        assert(1 * d == d);
    }
}

/// Two substrings that start at the same place and differ in length have different hashes,
/// except where in every layer the weighted sums of their bytes differ by a multiple of
/// the modulus of that layer; a zero byte at the end of the longer one is such a case.
pub proof fn lemma_hash_length_discrimination(
    t: Seq<u8>,
    layers: nat,
    i: int,
    j1: int,
    j2: int,
)
    requires
        0 <= i <= j1 < j2 < t.len(),
    ensures
        spec_hash_tuple(t, layers, i, j1) != spec_hash_tuple(t, layers, i, j2) <==> exists|k: int|
            0 <= k < layers && (#[trigger] weighted_sum(t.subrange(i, j2 + 1), layer_base(k) as int)
                - weighted_sum(t.subrange(i, j1 + 1), layer_base(k) as int)) % (layer_modulo(
                k,
            ) as int) != 0,
{
    let short = spec_hash_tuple(t, layers, i, j1);
    let long = spec_hash_tuple(t, layers, i, j2);
    assert forall|k: int| 0 <= k < layers implies (short[k] == long[k] <==> (weighted_sum(
        t.subrange(i, j2 + 1),
        layer_base(k) as int,
    ) - weighted_sum(t.subrange(i, j1 + 1), layer_base(k) as int)) % (layer_modulo(k) as int)
        == 0) by {
        let m = layer_modulo(k) as int;
        let p = layer_base(k) as int;
        lemma_layer_base_inverse(k);
        lemma_hash_difference(t, m, p, layer_base_inverse(k), i, j1, j2);
        lemma_mod_bound(
            ((m + spec_pref(t, m, p, j1) - spec_pref(t, m, p, i - 1)) % m) * spec_pow(
                m,
                p,
                t.len() - i - 1,
            ),
            m,
        );
        lemma_mod_bound(
            ((m + spec_pref(t, m, p, j2) - spec_pref(t, m, p, i - 1)) % m) * spec_pow(
                m,
                p,
                t.len() - i - 1,
            ),
            m,
        );
    }
    if short != long {
        assert(!(short =~= long));
        let k = choose|k: int| 0 <= k < layers && short[k] != long[k];
        assert((weighted_sum(t.subrange(i, j2 + 1), layer_base(k) as int) - weighted_sum(
            t.subrange(i, j1 + 1),
            layer_base(k) as int,
        )) % (layer_modulo(k) as int) != 0);
    }
    if exists|k: int|
        0 <= k < layers && (#[trigger] weighted_sum(t.subrange(i, j2 + 1), layer_base(k) as int)
            - weighted_sum(t.subrange(i, j1 + 1), layer_base(k) as int)) % (layer_modulo(k) as int)
            != 0 {
        let k = choose|k: int|
            0 <= k < layers && (#[trigger] weighted_sum(
                t.subrange(i, j2 + 1),
                layer_base(k) as int,
            ) - weighted_sum(t.subrange(i, j1 + 1), layer_base(k) as int)) % (layer_modulo(
                k,
            ) as int) != 0;
        assert(short[k] != long[k]);
    }
}

} // verus!
