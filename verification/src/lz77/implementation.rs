//! The reference stream and its encoding, the sliding window that finds the records, and
//! the compressor that puts them together.

use super::hashes::lemma_pack_injective;
use super::hashes::small_values;
use super::hashes::spec_hash_tuple;
use super::hashes::spec_pack;
use super::hashes::HashTable;
use super::hashes::DEFAULT_NUM_OF_HASH_LAYERS;
use crate::utils::concat_all;
use std::collections::HashMap;
use std::collections::VecDeque;
use vstd::prelude::*;

verus! {

/// The window size used when the caller names none.
pub const DEFAULT_WINDOW_SIZE: usize = 32768;

/// A match shorter than this is written out as literals.
pub const DEFAULT_LEN_TRESHOLD: usize = 6;

/// The byte `~`, which delimits the fields of a back-reference.
pub const DEFAULT_ASCII_NUM_OF_SEPARATOR: u8 = 126;

/// Why a byte stream is not the encoding of a reference stream, or cannot be expanded.
#[derive(Clone, Copy, Debug, PartialEq, Eq, Structural)]
pub enum Lz77Error {
    /// A separator opens a reference, but fewer than two more separators follow it.
    UnterminatedReference,
    /// A field of a reference is empty or holds a byte that is no decimal digit.
    InvalidNumber,
    /// A field of a reference holds a number that does not fit in `usize`.
    NumberOverflow,
    /// A reference points before the start of the output, or has distance zero.
    InvalidDistance,
}

/// The decimal digits of `n` as ASCII bytes, most significant first, without leading zeros.
pub open spec fn decimal_digits(n: nat) -> Seq<u8>
    decreases n,
{
    if n < 10 {
        seq![(48 + n) as u8]
    } else {
        decimal_digits(n / 10).push((48 + n % 10) as u8)
    }
}

/// Whether a byte is an ASCII digit.
pub open spec fn is_digit(b: u8) -> bool {
    48 <= b <= 57
}

/// Whether every byte of `s` is an ASCII digit.
pub open spec fn all_digits(s: Seq<u8>) -> bool {
    forall|i: int| 0 <= i < s.len() ==> is_digit(#[trigger] s[i])
}

/// The number that a sequence of ASCII digits denotes.
pub open spec fn digits_value(s: Seq<u8>) -> nat
    decreases s.len(),
{
    if s.len() == 0 {
        0
    } else {
        digits_value(s.drop_last()) * 10 + (s.last() - 48) as nat
    }
}

/// One element of the reference stream.
#[derive(Clone, Copy, Debug, PartialEq, Eq, Structural)]
pub enum ResultEncoding {
    /// A literal byte.
    Ascii(u8),
    /// A back-reference: distance, then length.
    Reference(usize, usize),
}

impl ResultEncoding {
    /// The separator byte.
    pub open spec fn spec_separator() -> u8 {
        126
    }

    /// The least length of a match that is written as a back-reference.
    pub open spec fn spec_len_treshold() -> usize {
        6
    }

    /// The bytes that stand for this element in the encoded stream.
    pub open spec fn spec_bytes(self) -> Seq<u8> {
        match self {
            ResultEncoding::Ascii(c) => seq![c],
            ResultEncoding::Reference(d, l) => seq![Self::spec_separator()] + decimal_digits(
                d as nat,
            ) + seq![Self::spec_separator()] + decimal_digits(l as nat) + seq![
                Self::spec_separator(),
            ],
        }
    }

    /// The separator byte.
    #[verifier::when_used_as_spec(spec_separator)]
    pub fn get_separator() -> (r: u8)
        ensures
            r == Self::spec_separator(),
    {
        DEFAULT_ASCII_NUM_OF_SEPARATOR
    }

    /// The least length of a match that is written as a back-reference.
    #[verifier::when_used_as_spec(spec_len_treshold)]
    pub fn len_treshold() -> (r: usize)
        ensures
            r == Self::spec_len_treshold(),
    {
        DEFAULT_LEN_TRESHOLD
    }

    /// The bytes that stand for this element in the encoded stream.
    pub fn to_ascii_bytes(&self) -> (r: Vec<u8>)
        ensures
            r@ == self.spec_bytes(),
    {
        match self {
            ResultEncoding::Ascii(c) => {
                let mut s: Vec<u8> = Vec::new();
                s.push(*c);
                assert(s@ =~= self.spec_bytes());
                s
            },
            ResultEncoding::Reference(d, l) => {
                let sep = ResultEncoding::get_separator();
                let mut s: Vec<u8> = Vec::new();
                s.push(sep);
                let mut dist = decimal_bytes(*d);
                s.append(&mut dist);
                s.push(sep);
                let mut len = decimal_bytes(*l);
                s.append(&mut len);
                s.push(sep);
                assert(s@ =~= self.spec_bytes());
                s
            },
        }
    }
}

/// Writes `n` in decimal.
pub fn decimal_bytes(n: usize) -> (r: Vec<u8>)
    ensures
        r@ == decimal_digits(n as nat),
    decreases n,
{
    if n < 10 {
        let mut v: Vec<u8> = Vec::new();
        v.push(48 + n as u8);
        assert(v@ =~= decimal_digits(n as nat));
        v
    } else {
        let mut v = decimal_bytes(n / 10);
        v.push(48 + (n % 10) as u8);
        v
    }
}

/// What a field of a reference denotes: a non-empty run of digits whose value fits in `usize`.
pub open spec fn parse_number(s: Seq<u8>) -> Result<usize, Lz77Error> {
    if s.len() == 0 || !all_digits(s) {
        Err(Lz77Error::InvalidNumber)
    } else if digits_value(s) > usize::MAX {
        Err(Lz77Error::NumberOverflow)
    } else {
        Ok(digits_value(s) as usize)
    }
}

/// The first index at or after `from` that holds a separator, or the length of `s` if none does.
pub open spec fn find_sep(s: Seq<u8>, from: int) -> int
    decreases s.len() - from,
{
    if from >= s.len() {
        s.len() as int
    } else if s[from] == ResultEncoding::spec_separator() {
        from
    } else {
        find_sep(s, from + 1)
    }
}

/// The reference that opens at index `i` of `s`, and the index just after it.
pub open spec fn parse_reference_at(s: Seq<u8>, i: int) -> Result<(ResultEncoding, int), Lz77Error> {
    let j1 = find_sep(s, i + 1);
    let j2 = find_sep(s, j1 + 1);
    if j1 >= s.len() || j2 >= s.len() {
        Err(Lz77Error::UnterminatedReference)
    } else {
        match parse_number(s.subrange(i + 1, j1)) {
            Err(e) => Err(e),
            Ok(d) => match parse_number(s.subrange(j1 + 1, j2)) {
                Err(e) => Err(e),
                Ok(l) => Ok((ResultEncoding::Reference(d, l), j2 + 1)),
            },
        }
    }
}

/// The reference stream that the bytes of `s` from index `i` on encode.
pub open spec fn parse_from(s: Seq<u8>, i: int) -> Result<Seq<ResultEncoding>, Lz77Error>
    decreases s.len() - i,
{
    if i < 0 || i >= s.len() {
        Ok(Seq::empty())
    } else if s[i] != ResultEncoding::spec_separator() {
        match parse_from(s, i + 1) {
            Err(e) => Err(e),
            Ok(rest) => Ok(seq![ResultEncoding::Ascii(s[i])] + rest),
        }
    } else {
        match parse_reference_at(s, i) {
            Err(e) => Err(e),
            Ok((r, next)) => if next <= i {
                Err(Lz77Error::UnterminatedReference)
            } else {
                match parse_from(s, next) {
                    Err(e) => Err(e),
                    Ok(rest) => Ok(seq![r] + rest),
                }
            },
        }
    }
}

/// The reference stream that `s` encodes.
pub open spec fn spec_parse(s: Seq<u8>) -> Result<Seq<ResultEncoding>, Lz77Error> {
    parse_from(s, 0)
}

/// The encoding of a reference stream: the encodings of its elements, one after another.
pub open spec fn spec_serialize(rs: Seq<ResultEncoding>) -> Seq<u8>
    decreases rs.len(),
{
    if rs.len() == 0 {
        Seq::empty()
    } else {
        rs.first().spec_bytes() + spec_serialize(rs.drop_first())
    }
}

/// `out` after `l` bytes were copied to its end one at a time, the first from index `from`.
pub open spec fn copy_back(out: Seq<u8>, from: int, l: nat) -> Seq<u8>
    decreases l,
{
    if l == 0 {
        out
    } else {
        let o = copy_back(out, from, (l - 1) as nat);
        o.push(o[from + l - 1])
    }
}

/// The output after one more element of the reference stream.
pub open spec fn apply_element(out: Seq<u8>, e: ResultEncoding) -> Result<Seq<u8>, Lz77Error> {
    match e {
        ResultEncoding::Ascii(c) => Ok(out.push(c)),
        ResultEncoding::Reference(d, l) => if d > out.len() || (d == 0 && l > 0) {
            Err(Lz77Error::InvalidDistance)
        } else {
            Ok(copy_back(out, out.len() - d, l as nat))
        },
    }
}

/// The output after the first `n` elements of `rs`.
pub open spec fn expand_prefix(rs: Seq<ResultEncoding>, n: nat) -> Result<Seq<u8>, Lz77Error>
    decreases n,
{
    if n == 0 {
        Ok(Seq::empty())
    } else {
        match expand_prefix(rs, (n - 1) as nat) {
            Err(e) => Err(e),
            Ok(out) => apply_element(out, rs[n - 1]),
        }
    }
}

/// The bytes that a reference stream stands for.
pub open spec fn spec_expand(rs: Seq<ResultEncoding>) -> Result<Seq<u8>, Lz77Error> {
    expand_prefix(rs, rs.len())
}

/// What an encoded stream decompresses to.
pub open spec fn spec_decompress(s: Seq<u8>) -> Result<Seq<u8>, Lz77Error> {
    match spec_parse(s) {
        Err(e) => Err(e),
        Ok(rs) => spec_expand(rs),
    }
}

proof fn lemma_digits_value_prefix(s: Seq<u8>, k: int)
    requires
        0 <= k <= s.len(),
        all_digits(s),
    ensures
        digits_value(s.subrange(0, k)) <= digits_value(s),
    decreases s.len() - k,
{
    if k == s.len() {
        assert(s.subrange(0, k) =~= s);
    } else {
        let t = s.drop_last();
        assert(all_digits(t)) by {
            assert forall|i: int| 0 <= i < t.len() implies is_digit(#[trigger] t[i]) by {
                assert(t[i] == s[i]);
            }
        }
        lemma_digits_value_prefix(t, k);
        assert(t.subrange(0, k) =~= s.subrange(0, k));
        assert(is_digit(s[s.len() - 1]));
    }
}

/// The first index at or after `from` that holds a separator, or the length of `bytes`.
fn find_separator(bytes: &[u8], from: usize) -> (r: usize)
    requires
        from <= bytes.len(),
    ensures
        r == find_sep(bytes@, from as int),
        from <= r <= bytes.len(),
{
    let mut i: usize = from;
    while i < bytes.len() && bytes[i] != ResultEncoding::get_separator()
        invariant
            from <= i <= bytes.len(),
            find_sep(bytes@, from as int) == find_sep(bytes@, i as int),
        decreases bytes.len() - i,
    {
        i += 1;
    }
    i
}

/// Reads the bytes from `from` up to `to` as a decimal number.
fn parse_decimal(bytes: &[u8], from: usize, to: usize) -> (r: Result<usize, Lz77Error>)
    requires
        from <= to <= bytes.len(),
    ensures
        r == parse_number(bytes@.subrange(from as int, to as int)),
{
    let ghost field = bytes@.subrange(from as int, to as int);
    if from == to {
        return Err(Lz77Error::InvalidNumber);
    }
    let mut k: usize = from;
    while k < to
        invariant
            from <= k <= to <= bytes.len(),
            field == bytes@.subrange(from as int, to as int),
            forall|i: int| 0 <= i < k - from ==> is_digit(#[trigger] field[i]),
        decreases to - k,
    {
        let b = bytes[k];
        if b < 48 || b > 57 {
            assert(!is_digit(field[k - from]));
            return Err(Lz77Error::InvalidNumber);
        }
        k += 1;
    }
    assert(all_digits(field));
    let mut acc: usize = 0;
    let mut k: usize = from;
    while k < to
        invariant
            from <= k <= to <= bytes.len(),
            field == bytes@.subrange(from as int, to as int),
            all_digits(field),
            acc == digits_value(field.subrange(0, k - from)),
        decreases to - k,
    {
        assert(is_digit(field[k - from]) && field[k - from] == bytes[k as int]);
        let digit: usize = (bytes[k] - 48) as usize;
        let ghost next = field.subrange(0, k - from + 1);
        proof {
            assert(next.drop_last() =~= field.subrange(0, k - from));
            assert(next.last() == bytes[k as int]);
            assert(digits_value(next) == acc * 10 + digit);
            lemma_digits_value_prefix(field, k - from + 1);
        }
        let shifted = match acc.checked_mul(10) {
            Some(v) => v,
            None => {
                return Err(Lz77Error::NumberOverflow);
            },
        };
        acc = match shifted.checked_add(digit) {
            Some(v) => v,
            None => {
                return Err(Lz77Error::NumberOverflow);
            },
        };
        k += 1;
    }
    assert(field.subrange(0, to - from) =~= field);
    Ok(acc)
}

/// The elements of a reference stream, in order.
#[derive(Debug)]
pub struct ResultEncodingVec {
    vec: Vec<ResultEncoding>,
}

impl View for ResultEncodingVec {
    type V = Seq<ResultEncoding>;

    closed spec fn view(&self) -> Seq<ResultEncoding> {
        self.vec@
    }
}

impl Default for ResultEncodingVec {
    /// The empty stream.
    fn default() -> (r: Self)
        ensures
            r@ == Seq::<ResultEncoding>::empty(),
    {
        Self::new()
    }
}

impl ResultEncodingVec {
    /// The empty stream.
    pub fn new() -> (r: Self)
        ensures
            r@ == Seq::<ResultEncoding>::empty(),
    {
        ResultEncodingVec { vec: Vec::new() }
    }

    /// Puts `elem` at the end of the stream.
    pub fn push(&mut self, elem: ResultEncoding)
        ensures
            final(self)@ == old(self)@.push(elem),
    {
        self.vec.push(elem);
    }

    /// Turns the stream round.
    pub fn reverse(&mut self)
        ensures
            final(self)@ == old(self)@.reverse(),
    {
        let n = self.vec.len();
        let mut turned: Vec<ResultEncoding> = Vec::new();
        let mut i: usize = 0;
        while i < n
            invariant
                n == self.vec.len(),
                i <= n,
                self.vec@ == old(self).vec@,
                turned.len() == i,
                forall|j: int| 0 <= j < i ==> turned[j] == self.vec[n - 1 - j],
            decreases n - i,
        {
            turned.push(self.vec[n - 1 - i]);
            i += 1;
        }
        assert(turned@ =~= old(self)@.reverse());
        self.vec = turned;
    }

    /// Reads the reference that opens at `start_index`; gives it with the number of bytes it takes.
    fn parse_reference(ascii_bytes: &[u8], start_index: usize) -> (r: Result<
        (ResultEncoding, usize),
        Lz77Error,
    >)
        requires
            start_index < ascii_bytes.len(),
        ensures
            match parse_reference_at(ascii_bytes@, start_index as int) {
                Err(e) => r == Err::<(ResultEncoding, usize), Lz77Error>(e),
                Ok((e, next)) => r == Ok::<(ResultEncoding, usize), Lz77Error>(
                    (e, (next - start_index) as usize),
                ) && start_index < next <= ascii_bytes.len(),
            },
    {
        let first = find_separator(ascii_bytes, start_index + 1);
        if first >= ascii_bytes.len() {
            return Err(Lz77Error::UnterminatedReference);
        }
        let second = find_separator(ascii_bytes, first + 1);
        if second >= ascii_bytes.len() {
            return Err(Lz77Error::UnterminatedReference);
        }
        let dist = match parse_decimal(ascii_bytes, start_index + 1, first) {
            Ok(d) => d,
            Err(e) => {
                return Err(e);
            },
        };
        let len = match parse_decimal(ascii_bytes, first + 1, second) {
            Ok(l) => l,
            Err(e) => {
                return Err(e);
            },
        };
        Ok((ResultEncoding::Reference(dist, len), second - start_index + 1))
    }

    /// Reads a reference stream from its encoding.
    pub fn from_ascii_bytes(ascii_bytes: &[u8]) -> (r: Result<Self, Lz77Error>)
        ensures
            match spec_parse(ascii_bytes@) {
                Err(e) => r == Err::<Self, Lz77Error>(e),
                Ok(rs) => r is Ok && r->Ok_0@ == rs,
            },
    {
        let sep = ResultEncoding::get_separator();
        let mut res = ResultEncodingVec::new();
        let mut i: usize = 0;
        while i < ascii_bytes.len()
            invariant
                i <= ascii_bytes.len(),
                sep == ResultEncoding::spec_separator(),
                match parse_from(ascii_bytes@, i as int) {
                    Err(e) => spec_parse(ascii_bytes@) == Err::<Seq<ResultEncoding>, Lz77Error>(e),
                    Ok(rest) => spec_parse(ascii_bytes@) == Ok::<Seq<ResultEncoding>, Lz77Error>(
                        res@ + rest,
                    ),
                },
            decreases ascii_bytes.len() - i,
        {
            let c = ascii_bytes[i];
            let ghost before = res@;
            if c == sep {
                match ResultEncodingVec::parse_reference(ascii_bytes, i) {
                    Err(e) => {
                        return Err(e);
                    },
                    Ok((enc_reference, processed_size)) => {
                        res.push(enc_reference);
                        proof {
                            let next = i + processed_size;
                            match parse_from(ascii_bytes@, next) {
                                Err(e) => {},
                                Ok(rest) => {
                                    assert(before + (seq![enc_reference] + rest) =~= res@ + rest);
                                },
                            }
                        }
                        i += processed_size;
                    },
                }
            } else {
                res.push(ResultEncoding::Ascii(c));
                proof {
                    match parse_from(ascii_bytes@, i + 1) {
                        Err(e) => {},
                        Ok(rest) => {
                            assert(before + (seq![ResultEncoding::Ascii(c)] + rest) =~= res@
                                + rest);
                        },
                    }
                }
                i += 1;
            }
        }
        assert(res@ + Seq::<ResultEncoding>::empty() =~= res@);
        Ok(res)
    }

    /// The bytes that the stream stands for: literals as they are, and for a back-reference
    /// as many bytes as its length says, copied one by one from as far back as its distance says.
    pub fn expand(&self) -> (r: Result<Vec<u8>, Lz77Error>)
        ensures
            match spec_expand(self@) {
                Err(e) => r == Err::<Vec<u8>, Lz77Error>(e),
                Ok(out) => r is Ok && r->Ok_0@ == out,
            },
    {
        let mut s: Vec<u8> = Vec::new();
        let mut k: usize = 0;
        while k < self.vec.len()
            invariant
                k <= self.vec.len(),
                expand_prefix(self@, k as nat) == Ok::<Seq<u8>, Lz77Error>(s@),
            decreases self.vec.len() - k,
        {
            match self.vec[k] {
                ResultEncoding::Ascii(c) => {
                    s.push(c);
                },
                ResultEncoding::Reference(d, l) => {
                    if d > s.len() || (d == 0 && l > 0) {
                        assert(expand_prefix(self@, (k + 1) as nat) == Err::<Seq<u8>, Lz77Error>(
                            Lz77Error::InvalidDistance,
                        ));
                        proof {
                            lemma_expand_error_stays(self@, (k + 1) as nat, self@.len());
                        }
                        return Err(Lz77Error::InvalidDistance);
                    }
                    let i = s.len() - d;
                    let ghost start = s@;
                    let mut t: usize = 0;
                    while t < l
                        invariant
                            t <= l,
                            i + d == start.len(),
                            d >= 1 || l == 0,
                            s@ == copy_back(start, i as int, t as nat),
                            s.len() == start.len() + t,
                        decreases l - t,
                    {
                        let b = s[i + t];
                        s.push(b);
                        t += 1;
                    }
                },
            }
            k += 1;
        }
        Ok(s)
    }
}

/// Once a prefix of the stream cannot be expanded, no longer prefix can.
proof fn lemma_expand_error_stays(rs: Seq<ResultEncoding>, n: nat, m: nat)
    requires
        n <= m,
        expand_prefix(rs, n) is Err,
    ensures
        expand_prefix(rs, m) == expand_prefix(rs, n),
    decreases m - n,
{
    if n < m {
        lemma_expand_error_stays(rs, n, (m - 1) as nat);
    }
}

/// The integer square root: the largest `r` with `r * r <= n`.
pub open spec fn spec_sqrt(n: nat) -> nat
    decreases n,
{
    if n == 0 {
        0
    } else {
        let r = spec_sqrt((n - 1) as nat);
        if (r + 1) * (r + 1) <= n {
            r + 1
        } else {
            r
        }
    }
}

proof fn lemma_spec_sqrt(n: nat)
    ensures
        spec_sqrt(n) * spec_sqrt(n) <= n < (spec_sqrt(n) + 1) * (spec_sqrt(n) + 1),
    decreases n,
{
    if n > 0 {
        lemma_spec_sqrt((n - 1) as nat);
        let r = spec_sqrt((n - 1) as nat);
        let s = spec_sqrt(n);
        assert((r + 1) * (r + 1) < (r + 1 + 1) * (r + 1 + 1)) by (nonlinear_arith);
        if (r + 1) * (r + 1) <= n {
            assert(s == r + 1);
            assert(s * s == (r + 1) * (r + 1));
            assert((s + 1) * (s + 1) == (r + 1 + 1) * (r + 1 + 1));
        } else {
            assert(s == r);
        }
    } else {
        assert(spec_sqrt(n) == 0);
        assert(0 * 0 == 0 && (0 + 1) * (0 + 1) == 1) by (nonlinear_arith);
    }
}

proof fn lemma_sqrt_unique(n: nat, r: nat)
    requires
        r * r <= n < (r + 1) * (r + 1),
    ensures
        r == spec_sqrt(n),
{
    lemma_spec_sqrt(n);
    let s = spec_sqrt(n);
    if r < s {
        assert((r + 1) * (r + 1) <= s * s) by (nonlinear_arith)
            requires
                r + 1 <= s,
        ;
    }
    if s < r {
        assert((s + 1) * (s + 1) <= r * r) by (nonlinear_arith)
            requires
                s + 1 <= r,
        ;
    }
}

/// The window that is used on a text of `n` bytes.
pub open spec fn effective_window(window_size: usize, n: nat) -> usize {
    if window_size <= n {
        window_size
    } else {
        n as usize
    }
}

/// The longest match that is looked for on a text of `n` bytes.
pub open spec fn effective_max_len(window_size: usize, max_len: Option<usize>, n: nat) -> usize {
    let asked = match max_len {
        Some(l) => l,
        None => spec_sqrt(window_size as nat) as usize,
    };
    if asked <= effective_window(window_size, n) {
        asked
    } else {
        effective_window(window_size, n)
    }
}

/// The hash of the `len` bytes of `t` that start at `start`, as the window computes it.
pub open spec fn window_hash(t: Seq<u8>, start: int, len: int) -> Seq<usize> {
    spec_hash_tuple(t, DEFAULT_NUM_OF_HASH_LAYERS as nat, start, start + len - 1)
}

/// The largest start in `lo..=hi` whose `len` bytes hash like those at `at`, or -1.
pub open spec fn newest_match(t: Seq<u8>, len: int, at: int, lo: int, hi: int) -> int
    decreases hi - lo + 1,
{
    if hi < lo {
        -1
    } else if window_hash(t, hi, len) == window_hash(t, at, len) {
        hi
    } else {
        newest_match(t, len, at, lo, hi - 1)
    }
}

/// The smallest start that is still in a window of `w` bytes when position `i` is matched.
pub open spec fn window_low(w: int, i: int) -> int {
    if i >= w {
        i - w + 1
    } else {
        0
    }
}

/// The record for position `i` when only lengths up to `len` are tried, longest first.
pub open spec fn record_from(t: Seq<u8>, w: int, i: int, len: int) -> (usize, usize)
    decreases len,
{
    if len <= 0 {
        (0, 1)
    } else {
        let p = newest_match(t, len, i - len + 1, window_low(w, i), i - len);
        if p >= 0 {
            ((i - len + 1 - p) as usize, len as usize)
        } else {
            record_from(t, w, i, len - 1)
        }
    }
}

/// The pair (distance, length) for position `i`: the longest earlier substring inside the
/// window that hashes like the one ending at `i`, the most recent among equals; (0, 1) if
/// there is none.
pub open spec fn spec_record(t: Seq<u8>, w: int, l: int, i: int) -> (usize, usize) {
    record_from(
        t,
        w,
        i,
        if l <= i + 1 {
            l
        } else {
            i + 1
        },
    )
}

/// One record per position of the text.
pub open spec fn spec_records(t: Seq<u8>, w: int, l: int) -> Seq<(usize, usize)> {
    Seq::new(t.len(), |i: int| spec_record(t, w, l, i))
}

/// The reference stream for positions `0..=i`, chosen from the right: a record that is long
/// enough becomes a back-reference and the walk jumps over its span, any other a literal.
pub open spec fn spec_greedy(t: Seq<u8>, rec: Seq<(usize, usize)>, i: int) -> Seq<ResultEncoding>
    decreases i + 1,
{
    if i < 0 {
        Seq::empty()
    } else {
        let (d, l) = rec[i];
        if l >= ResultEncoding::spec_len_treshold() {
            if l > i {
                seq![ResultEncoding::Reference(d, l)]
            } else {
                spec_greedy(t, rec, i - l).push(ResultEncoding::Reference(d, l))
            }
        } else {
            spec_greedy(t, rec, i - 1).push(ResultEncoding::Ascii(t[i]))
        }
    }
}

/// The compressed form of `t` for the given configuration.
pub open spec fn spec_compress(t: Seq<u8>, window_size: usize, max_len: Option<usize>) -> Seq<u8> {
    spec_serialize(
        spec_greedy(
            t,
            spec_records(
                t,
                effective_window(window_size, t.len()) as int,
                effective_max_len(window_size, max_len, t.len()) as int,
            ),
            t.len() - 1,
        ),
    )
}

spec fn window_key(t: Seq<u8>, start: int, len: int) -> nat {
    spec_pack(window_hash(t, start, len))
}

/// The starts in `lo..=hi` whose `len` bytes have the key `key`, the largest first.
spec fn bucket_list(t: Seq<u8>, len: int, key: nat, lo: int, hi: int) -> Seq<usize>
    decreases hi - lo + 1,
{
    if hi < lo {
        Seq::empty()
    } else {
        let rest = bucket_list(t, len, key, lo, hi - 1);
        if window_key(t, hi, len) == key {
            seq![hi as usize] + rest
        } else {
            rest
        }
    }
}

/// Whether a bucket holds, under every key, exactly the starts in `lo..=hi` with that key.
spec fn bucket_ok(m: Map<u128, VecDeque<usize>>, t: Seq<u8>, len: int, lo: int, hi: int) -> bool {
    forall|key: u128|
        #![trigger m.contains_key(key)]
        #![trigger bucket_list(t, len, key as nat, lo, hi)]
        {
            &&& m.contains_key(key) <==> bucket_list(t, len, key as nat, lo, hi).len() > 0
            &&& m.contains_key(key) ==> m[key]@ == bucket_list(t, len, key as nat, lo, hi)
        }
}

proof fn lemma_window_hash_small(t: Seq<u8>, start: int, len: int)
    ensures
        small_values(window_hash(t, start, len)),
        window_hash(t, start, len).len() == DEFAULT_NUM_OF_HASH_LAYERS,
{
    let h = window_hash(t, start, len);
    assert forall|k: int| 0 <= k < h.len() implies #[trigger] h[k] < 0x1_0000_0000 by {
        vstd::arithmetic::div_mod::lemma_mod_bound(
            ((super::hashes::layer_modulo(k) as int + super::hashes::spec_pref(
                t,
                super::hashes::layer_modulo(k) as int,
                super::hashes::layer_base(k) as int,
                start + len - 1,
            ) - super::hashes::spec_pref(
                t,
                super::hashes::layer_modulo(k) as int,
                super::hashes::layer_base(k) as int,
                start - 1,
            )) % (super::hashes::layer_modulo(k) as int)) * super::hashes::spec_pow(
                super::hashes::layer_modulo(k) as int,
                super::hashes::layer_base(k) as int,
                t.len() - start - 1,
            ),
            super::hashes::layer_modulo(k) as int,
        );
    }
}

proof fn lemma_same_key(t: Seq<u8>, a: int, b: int, len: int)
    ensures
        window_key(t, a, len) == window_key(t, b, len) <==> window_hash(t, a, len) == window_hash(
            t,
            b,
            len,
        ),
{
    lemma_window_hash_small(t, a, len);
    lemma_window_hash_small(t, b, len);
    if window_key(t, a, len) == window_key(t, b, len) {
        lemma_pack_injective(window_hash(t, a, len), window_hash(t, b, len));
    }
}

/// Taking the smallest start out of the range takes it from the end of its own list and
/// leaves every other list as it is.
proof fn lemma_bucket_list_drop_low(t: Seq<u8>, len: int, key: nat, lo: int, hi: int)
    requires
        0 <= lo <= hi,
    ensures
        bucket_list(t, len, key, lo, hi) == if window_key(t, lo, len) == key {
            bucket_list(t, len, key, lo + 1, hi).push(lo as usize)
        } else {
            bucket_list(t, len, key, lo + 1, hi)
        },
    decreases hi - lo,
{
    if lo < hi {
        lemma_bucket_list_drop_low(t, len, key, lo, hi - 1);
        assert(bucket_list(t, len, key, lo, hi) =~= if window_key(t, lo, len) == key {
            bucket_list(t, len, key, lo + 1, hi).push(lo as usize)
        } else {
            bucket_list(t, len, key, lo + 1, hi)
        });
    } else {
        assert(bucket_list(t, len, key, lo + 1, hi) =~= Seq::<usize>::empty());
        assert(bucket_list(t, len, key, lo, hi - 1) =~= Seq::<usize>::empty());
        assert(bucket_list(t, len, key, lo, hi) =~= if window_key(t, lo, len) == key {
            Seq::<usize>::empty().push(lo as usize)
        } else {
            Seq::<usize>::empty()
        });
    }
}

/// The list under the key of the substring at `at` starts with the newest match, and is
/// empty exactly where there is none.
proof fn lemma_bucket_list_first(t: Seq<u8>, len: int, at: int, lo: int, hi: int)
    requires
        0 <= lo,
        hi < usize::MAX,
    ensures
        newest_match(t, len, at, lo, hi) == -1 <==> bucket_list(
            t,
            len,
            window_key(t, at, len),
            lo,
            hi,
        ).len() == 0,
        newest_match(t, len, at, lo, hi) >= -1,
        newest_match(t, len, at, lo, hi) != -1 ==> {
            &&& lo <= newest_match(t, len, at, lo, hi) <= hi
            &&& bucket_list(t, len, window_key(t, at, len), lo, hi)[0] == newest_match(
                t,
                len,
                at,
                lo,
                hi,
            )
        },
    decreases hi - lo + 1,
{
    if hi >= lo {
        lemma_same_key(t, hi, at, len);
        lemma_bucket_list_first(t, len, at, lo, hi - 1);
    }
}

/// Takes the oldest start out of the list under `key`, and the key out of the bucket if
/// its list is then empty.
fn pop_oldest(bucket: &mut HashMap<u128, VecDeque<usize>>, key: u128)
    requires
        old(bucket)@.contains_key(key) ==> old(bucket)@[key]@.len() > 0,
    ensures
        forall|o: u128|
            o != key ==> (final(bucket)@.contains_key(o) <==> old(bucket)@.contains_key(o)),
        forall|o: u128|
            o != key && old(bucket)@.contains_key(o) ==> final(bucket)@[o] == old(bucket)@[o],
        !old(bucket)@.contains_key(key) ==> !final(bucket)@.contains_key(key),
        old(bucket)@.contains_key(key) ==> {
            &&& final(bucket)@.contains_key(key) <==> old(bucket)@[key]@.len() > 1
            &&& final(bucket)@.contains_key(key) ==> final(bucket)@[key]@ == old(
                bucket,
            )@[key]@.drop_last()
        },
{
    match bucket.remove(&key) {
        Some(positions) => {
            let mut positions = positions;
            positions.pop_back();
            if !(positions.len() == 0) {
                bucket.insert(key, positions);
            }
        },
        None => {},
    }
}

/// Puts `position` at the front of the list under `key`, making the list if there is none.
fn push_newest(bucket: &mut HashMap<u128, VecDeque<usize>>, key: u128, position: usize)
    ensures
        forall|o: u128|
            o != key ==> (final(bucket)@.contains_key(o) <==> old(bucket)@.contains_key(o)),
        forall|o: u128|
            o != key && old(bucket)@.contains_key(o) ==> final(bucket)@[o] == old(bucket)@[o],
        final(bucket)@.contains_key(key),
        final(bucket)@[key]@ == seq![position] + (if old(bucket)@.contains_key(key) {
            old(bucket)@[key]@
        } else {
            Seq::empty()
        }),
{
    match bucket.remove(&key) {
        Some(positions) => {
            let mut positions = positions;
            positions.push_front(position);
            bucket.insert(key, positions);
        },
        None => {
            let mut positions: VecDeque<usize> = VecDeque::new();
            positions.push_front(position);
            bucket.insert(key, positions);
        },
    }
}

/// The number of substrings that end at `index` and are no longer than `max_len`.
pub open spec fn subword_count(max_len: int, index: int) -> int {
    if max_len <= index + 1 {
        max_len
    } else {
        index + 1
    }
}

/// The substrings that end at `index`, the longest first, each with its hash and its start.
spec fn subwords_descending(t: Seq<u8>, items: Seq<(crate::lz77::hashes::Hash, usize)>, max_len: int, index: int) -> bool {
    &&& items.len() == subword_count(max_len, index)
    &&& forall|j: int|
        0 <= j < items.len() ==> {
            &&& (#[trigger] items[j]).1 == index + 1 - items.len() + j
            &&& items[j].0@ == window_hash(t, index + 1 - items.len() + j, items.len() - j)
        }
}

/// The substrings that end at `index`, the shortest first, each with its hash and its start.
spec fn subwords_ascending(t: Seq<u8>, items: Seq<(crate::lz77::hashes::Hash, usize)>, max_len: int, index: int) -> bool {
    &&& items.len() == subword_count(max_len, index)
    &&& forall|j: int|
        0 <= j < items.len() ==> {
            &&& (#[trigger] items[j]).1 == index - j
            &&& items[j].0@ == window_hash(t, index - j, j + 1)
        }
}

/// The items in the other order.
fn reversed(items: Vec<(crate::lz77::hashes::Hash, usize)>) -> (r: Vec<(crate::lz77::hashes::Hash, usize)>)
    ensures
        r@ == items@.reverse(),
{
    let ghost given = items@;
    let mut rest = items;
    let mut r: Vec<(crate::lz77::hashes::Hash, usize)> = Vec::new();
    while rest.len() > 0
        invariant
            rest@.len() + r@.len() == given.len(),
            rest@ == given.subrange(0, rest@.len() as int),
            forall|j: int| 0 <= j < r@.len() ==> r@[j] == given[given.len() - 1 - j],
        decreases rest.len(),
    {
        let item = rest.pop().unwrap();
        r.push(item);
    }
    assert(r@ =~= given.reverse());
    r
}

proof fn lemma_serialize_is_flatten(rs: Seq<ResultEncoding>, parts: Seq<Seq<u8>>)
    requires
        parts.len() == rs.len(),
        forall|i: int| 0 <= i < rs.len() ==> #[trigger] parts[i] == rs[i].spec_bytes(),
    ensures
        parts.flatten() == spec_serialize(rs),
    decreases rs.len(),
{
    if rs.len() > 0 {
        lemma_serialize_is_flatten(rs.drop_first(), parts.drop_first());
    }
}

/// The state of one run over a text: the index, the buckets, and the records found so far.
pub struct SlidingWindow<'a> {
    text: &'a Vec<u8>,
    max_len_to_reduce: usize,
    window_size: usize,
    hashes: HashTable<'a>,
    subwords: Vec<HashMap<u128, VecDeque<usize>>>,
    partial_result: Vec<(usize, usize)>,
}

impl<'a> SlidingWindow<'a> {
    /// The text that is compressed.
    pub closed spec fn text(&self) -> Seq<u8> {
        self.text@
    }

    /// The window in use: no larger than the text.
    pub closed spec fn window(&self) -> usize {
        self.window_size
    }

    /// The longest match that is looked for: no larger than the window.
    pub closed spec fn max_len(&self) -> usize {
        self.max_len_to_reduce
    }

    /// The records found so far, one per position.
    pub closed spec fn records(&self) -> Seq<(usize, usize)> {
        self.partial_result@
    }

    spec fn wf(&self) -> bool {
        &&& self.hashes.text() == self.text@
        &&& self.hashes.layers() == DEFAULT_NUM_OF_HASH_LAYERS
        &&& self.max_len_to_reduce <= self.window_size <= self.text@.len()
        &&& self.subwords.len() == self.max_len_to_reduce
    }

    /// Whether bucket `k` holds the starts from `lo` to `last - k` of the substrings of
    /// `k + 1` bytes, for every `k`.
    spec fn buckets_ok(&self, lo: int, last: int) -> bool {
        forall|k: int|
            0 <= k < self.subwords.len() ==> bucket_ok(
                #[trigger] self.subwords[k]@,
                self.text@,
                k + 1,
                lo,
                last - k,
            )
    }

    spec fn same_setup(&self, other: &Self) -> bool {
        &&& self.text == other.text
        &&& self.max_len_to_reduce == other.max_len_to_reduce
        &&& self.window_size == other.window_size
        &&& self.hashes == other.hashes
    }

    /// Whether nothing has been run yet.
    pub closed spec fn is_fresh(&self) -> bool {
        &&& self.wf()
        &&& self.partial_result@.len() == 0
        &&& self.buckets_ok(0, -1)
    }

    /// A window over `text`, with nothing run yet. The window is no larger than the text, and
    /// the longest match, by default the integer square root of `window_size`, no larger than
    /// the window.
    pub fn new(text: &'a Vec<u8>, window_size: usize, max_len_to_reduce: Option<usize>) -> (r:
        Self)
        ensures
            r.text() == text@,
            r.window() == effective_window(window_size, text@.len()),
            r.max_len() == effective_max_len(window_size, max_len_to_reduce, text@.len()),
            r.records() == Seq::<(usize, usize)>::empty(),
            r.is_fresh(),
    {
        let ws = if window_size <= text.len() {
            window_size
        } else {
            text.len()
        };
        let asked = match max_len_to_reduce {
            Some(l) => l,
            None => SlidingWindow::sqrt_usize(window_size),
        };
        let max_len = if asked <= ws {
            asked
        } else {
            ws
        };
        let mut subwords: Vec<HashMap<u128, VecDeque<usize>>> = Vec::new();
        let mut k: usize = 0;
        while k < max_len
            invariant
                k <= max_len,
                subwords.len() == k,
                forall|j: int|
                    0 <= j < k ==> bucket_ok(#[trigger] subwords[j]@, text@, j + 1, 0, -1 - j),
            decreases max_len - k,
        {
            let bucket: HashMap<u128, VecDeque<usize>> = HashMap::new();
            assert(bucket_ok(bucket@, text@, k + 1, 0, -1 - k));
            subwords.push(bucket);
            k += 1;
        }
        proof {
            lemma_spec_sqrt(window_size as nat);
        }
        SlidingWindow {
            max_len_to_reduce: max_len,
            window_size: ws,
            text,
            hashes: HashTable::new(text, None),
            subwords,
            partial_result: Vec::new(),
        }
    }

    /// The integer square root of `n`.
    fn sqrt_usize(n: usize) -> (r: usize)
        ensures
            r == spec_sqrt(n as nat),
    {
        let mut lo: u128 = 0;
        let mut hi: u128 = n as u128 + 1;
        assert(n < (n + 1) * (n + 1)) by (nonlinear_arith);
        assert(0 * 0 == 0) by (nonlinear_arith);
        while hi - lo > 1
            invariant
                lo < hi <= n + 1,
                n <= 0xffff_ffff_ffff_ffff,
                lo * lo <= n,
                n < hi * hi,
            decreases hi - lo,
        {
            let mid = lo + (hi - lo) / 2;
            assert(mid * mid <= 0xffff_ffff_ffff_ffff * 0xffff_ffff_ffff_ffff) by (nonlinear_arith)
                requires
                    0 <= mid <= 0xffff_ffff_ffff_ffff,
            ;
            if mid * mid <= n as u128 {
                lo = mid;
            } else {
                hi = mid;
            }
        }
        proof {
            lemma_sqrt_unique(n as nat, lo as nat);
        }
        lo as usize
    }

    /// Finds the record of every position, from the first to the last.
    pub fn run(&mut self)
        requires
            old(self).is_fresh(),
        ensures
            final(self).text() == old(self).text(),
            final(self).window() == old(self).window(),
            final(self).max_len() == old(self).max_len(),
            final(self).records() == spec_records(
                old(self).text(),
                old(self).window() as int,
                old(self).max_len() as int,
            ),
    {
        let n = self.text.len();
        let mut i: usize = 0;
        while i < n
            invariant
                i <= n,
                n == self.text@.len(),
                self.wf(),
                self.same_setup(old(self)),
                self.partial_result@.len() == i,
                forall|j: int|
                    0 <= j < i ==> #[trigger] self.partial_result@[j] == spec_record(
                        self.text@,
                        self.window_size as int,
                        self.max_len_to_reduce as int,
                        j,
                    ),
                self.buckets_ok(
                    if i >= self.window_size {
                        i - self.window_size
                    } else {
                        0
                    },
                    i - 1,
                ),
            decreases n - i,
        {
            self.remove_old_subwords(i);
            let new_subwords_descending = self.extract_new_subwords(i);
            self.update_result(new_subwords_descending.as_slice(), i);
            let new_subwords_aescending = reversed(new_subwords_descending);
            self.add_new_subwords(new_subwords_aescending, Ghost(i));
            i += 1;
        }
        assert(self.partial_result@ =~= spec_records(
            old(self).text(),
            old(self).window() as int,
            old(self).max_len() as int,
        ));
    }

    /// Takes the substrings that start where the window has just left out of the buckets.
    fn remove_old_subwords(&mut self, curr_index: usize)
        requires
            old(self).wf(),
            curr_index < old(self).text@.len(),
            old(self).buckets_ok(
                if curr_index >= old(self).window_size {
                    curr_index - old(self).window_size
                } else {
                    0
                },
                curr_index - 1,
            ),
        ensures
            final(self).wf(),
            final(self).same_setup(old(self)),
            final(self).partial_result == old(self).partial_result,
            final(self).buckets_ok(
                window_low(old(self).window_size as int, curr_index as int),
                curr_index - 1,
            ),
    {
        if curr_index >= self.window_size {
            let start = curr_index - self.window_size;
            let mut k: usize = 0;
            while k < self.max_len_to_reduce
                invariant
                    k <= self.max_len_to_reduce,
                    self.wf(),
                    self.same_setup(old(self)),
                    self.partial_result == old(self).partial_result,
                    curr_index < self.text@.len(),
                    start + self.window_size == curr_index,
                    forall|j: int|
                        0 <= j < k ==> bucket_ok(
                            #[trigger] self.subwords[j]@,
                            self.text@,
                            j + 1,
                            start + 1,
                            curr_index - 1 - j,
                        ),
                    forall|j: int|
                        k <= j < self.subwords.len() ==> bucket_ok(
                            #[trigger] self.subwords[j]@,
                            self.text@,
                            j + 1,
                            start as int,
                            curr_index - 1 - j,
                        ),
                decreases self.max_len_to_reduce - k,
            {
                let key = self.hashes.get_hash(start, start + k).packed();
                let ghost before = self.subwords[k as int]@;
                let ghost hi = curr_index - 1 - k;
                proof {
                    assert(bucket_ok(before, self.text@, k + 1, start as int, hi));
                    assert forall|o: u128|
                        #[trigger] bucket_list(self.text@, k + 1, o as nat, start as int, hi)
                            == if window_key(
                            self.text@,
                            start as int,
                            k + 1,
                        ) == o {
                            bucket_list(self.text@, k + 1, o as nat, start + 1, hi).push(start)
                        } else {
                            bucket_list(self.text@, k + 1, o as nat, start + 1, hi)
                        } by {
                        lemma_bucket_list_drop_low(self.text@, k + 1, o as nat, start as int, hi);
                    }
                    assert(bucket_list(self.text@, k + 1, key as nat, start as int, hi).len() > 0);
                }
                pop_oldest(&mut self.subwords[k], key);
                proof {
                    let after = self.subwords[k as int]@;
                    assert forall|o: u128|
                        #![trigger after.contains_key(o)]
                        #![trigger bucket_list(self.text@, k + 1, o as nat, start + 1, hi)]
                        {
                            &&& after.contains_key(o) <==> bucket_list(
                                self.text@,
                                k + 1,
                                o as nat,
                                start + 1,
                                hi,
                            ).len() > 0
                            &&& after.contains_key(o) ==> after[o]@ == bucket_list(
                                self.text@,
                                k + 1,
                                o as nat,
                                start + 1,
                                hi,
                            )
                        } by {
                        let longer = bucket_list(self.text@, k + 1, o as nat, start as int, hi);
                        let shorter = bucket_list(self.text@, k + 1, o as nat, start + 1, hi);
                        assert(before.contains_key(o) <==> longer.len() > 0);
                        if o == key {
                            assert(longer == shorter.push(start));
                            assert(longer.drop_last() =~= shorter);
                        } else {
                            assert(longer == shorter);
                        }
                    }
                }
                k += 1;
            }
        }
    }

    /// The substrings that end at `index`, the longest first.
    fn extract_new_subwords(&self, index: usize) -> (r: Vec<(crate::lz77::hashes::Hash, usize)>)
        requires
            self.wf(),
            index < self.text@.len(),
        ensures
            subwords_descending(self.text@, r@, self.max_len_to_reduce as int, index as int),
    {
        let n = self.text.len();
        let start = if index >= self.max_len_to_reduce {
            index - self.max_len_to_reduce + 1
        } else {
            0
        };
        let ghost count = index + 1 - start;
        let mut r: Vec<(crate::lz77::hashes::Hash, usize)> = Vec::new();
        let mut i: usize = start;
        while i < index + 1
            invariant
                start <= i <= index + 1,
                index < n,
                n == self.text@.len(),
                self.wf(),
                count == index + 1 - start,
                r@.len() == i - start,
                forall|j: int|
                    0 <= j < r@.len() ==> {
                        &&& (#[trigger] r@[j]).1 == start + j
                        &&& r@[j].0@ == window_hash(self.text@, start + j, count - j)
                    },
            decreases index + 1 - i,
        {
            let h = self.hashes.get_hash(i, index);
            r.push((h, i));
            i += 1;
        }
        r
    }

    /// Finds the record for `index`: the longest of the substrings that has an entry in its
    /// bucket, with the newest start of that entry.
    fn update_result(&mut self, new_subwords_desc: &[(crate::lz77::hashes::Hash, usize)], index: usize)
        requires
            old(self).wf(),
            index < old(self).text@.len(),
            old(self).buckets_ok(window_low(old(self).window_size as int, index as int), index - 1),
            subwords_descending(
                old(self).text@,
                new_subwords_desc@,
                old(self).max_len_to_reduce as int,
                index as int,
            ),
        ensures
            final(self).wf(),
            final(self).same_setup(old(self)),
            final(self).subwords == old(self).subwords,
            final(self).partial_result@ == old(self).partial_result@.push(
                spec_record(
                    old(self).text@,
                    old(self).window_size as int,
                    old(self).max_len_to_reduce as int,
                    index as int,
                ),
            ),
    {
        let count = new_subwords_desc.len();
        let ghost lo = window_low(self.window_size as int, index as int);
        let mut j: usize = 0;
        while j < count
            invariant
                j <= count,
                count == new_subwords_desc@.len(),
                *self == *old(self),
                self.wf(),
                index < self.text@.len(),
                lo == window_low(self.window_size as int, index as int),
                self.buckets_ok(lo, index - 1),
                subwords_descending(
                    self.text@,
                    new_subwords_desc@,
                    self.max_len_to_reduce as int,
                    index as int,
                ),
                spec_record(
                    self.text@,
                    self.window_size as int,
                    self.max_len_to_reduce as int,
                    index as int,
                ) == record_from(self.text@, self.window_size as int, index as int, count - j),
            decreases count - j,
        {
            let subword_length = count - j;
            let key = new_subwords_desc[j].0.packed();
            let ghost at = index + 1 - subword_length;
            proof {
                assert(new_subwords_desc@[j as int].0@ == window_hash(
                    self.text@,
                    at,
                    subword_length as int,
                ));
                assert(key == window_key(self.text@, at, subword_length as int));
                assert(bucket_ok(
                    self.subwords[subword_length - 1]@,
                    self.text@,
                    subword_length as int,
                    lo,
                    index - subword_length,
                ));
                lemma_bucket_list_first(
                    self.text@,
                    subword_length as int,
                    at,
                    lo,
                    index - subword_length,
                );
            }
            let found: Option<usize> = match self.subwords[subword_length - 1].get(&key) {
                Some(positions) => Some(positions[0]),
                None => None,
            };
            match found {
                Some(p) => {
                    let distance = index - p - subword_length + 1;
                    self.partial_result.push((distance, subword_length));
                    return ;
                },
                None => {},
            }
            j += 1;
        }
        self.partial_result.push((0, 1));
    }

    /// Puts the substrings that end at `index` into the buckets, the shortest first.
    fn add_new_subwords(
        &mut self,
        new_subwords: Vec<(crate::lz77::hashes::Hash, usize)>,
        Ghost(index): Ghost<usize>,
    )
        requires
            old(self).wf(),
            index < old(self).text@.len(),
            old(self).buckets_ok(window_low(old(self).window_size as int, index as int), index - 1),
            subwords_ascending(
                old(self).text@,
                new_subwords@,
                old(self).max_len_to_reduce as int,
                index as int,
            ),
        ensures
            final(self).wf(),
            final(self).same_setup(old(self)),
            final(self).partial_result == old(self).partial_result,
            final(self).buckets_ok(window_low(old(self).window_size as int, index as int), index as int),
    {
        let ghost lo = window_low(self.window_size as int, index as int);
        let count = new_subwords.len();
        let mut i: usize = 0;
        while i < count
            invariant
                i <= count,
                count == new_subwords@.len(),
                self.wf(),
                self.same_setup(old(self)),
                self.partial_result == old(self).partial_result,
                index < self.text@.len(),
                lo == window_low(self.window_size as int, index as int),
                subwords_ascending(
                    self.text@,
                    new_subwords@,
                    self.max_len_to_reduce as int,
                    index as int,
                ),
                forall|j: int|
                    0 <= j < i ==> bucket_ok(
                        #[trigger] self.subwords[j]@,
                        self.text@,
                        j + 1,
                        lo,
                        index - j,
                    ),
                forall|j: int|
                    i <= j < self.subwords.len() ==> bucket_ok(
                        #[trigger] self.subwords[j]@,
                        self.text@,
                        j + 1,
                        lo,
                        index - 1 - j,
                    ),
            decreases count - i,
        {
            let key = new_subwords[i].0.packed();
            let position = new_subwords[i].1;
            let ghost before = self.subwords[i as int]@;
            proof {
                assert(new_subwords@[i as int].0@ == window_hash(self.text@, index - i, i + 1));
                assert(bucket_ok(before, self.text@, i + 1, lo, index - 1 - i));
            }
            push_newest(&mut self.subwords[i], key, position);
            proof {
                let after = self.subwords[i as int]@;
                assert forall|o: u128|
                    #![trigger after.contains_key(o)]
                    #![trigger bucket_list(self.text@, i + 1, o as nat, lo, index - i)]
                    {
                        &&& after.contains_key(o) <==> bucket_list(
                            self.text@,
                            i + 1,
                            o as nat,
                            lo,
                            index - i,
                        ).len() > 0
                        &&& after.contains_key(o) ==> after[o]@ == bucket_list(
                            self.text@,
                            i + 1,
                            o as nat,
                            lo,
                            index - i,
                        )
                    } by {
                    let shorter = bucket_list(self.text@, i + 1, o as nat, lo, index - i - 1);
                    assert(before.contains_key(o) <==> shorter.len() > 0);
                    if o == key {
                        assert(seq![position] + Seq::<usize>::empty() =~= seq![position]);
                    }
                }
            }
            i += 1;
        }
        proof {
            assert forall|k: int| 0 <= k < self.subwords.len() implies bucket_ok(
                #[trigger] self.subwords[k]@,
                self.text@,
                k + 1,
                lo,
                index - k,
            ) by {
                if k >= count {
                    let m = self.subwords[k]@;
                    assert(bucket_ok(m, self.text@, k + 1, lo, index - 1 - k));
                    assert forall|o: u128|
                        #![trigger m.contains_key(o)]
                        #![trigger bucket_list(self.text@, k + 1, o as nat, lo, index - k)]
                        {
                            &&& m.contains_key(o) <==> bucket_list(
                                self.text@,
                                k + 1,
                                o as nat,
                                lo,
                                index - k,
                            ).len() > 0
                            &&& m.contains_key(o) ==> m[o]@ == bucket_list(
                                self.text@,
                                k + 1,
                                o as nat,
                                lo,
                                index - k,
                            )
                        } by {
                        assert(bucket_list(self.text@, k + 1, o as nat, lo, index - k - 1).len()
                            == 0);
                    }
                }
            }
        }
    }

    /// Chooses the reference stream from the records and writes it out.
    pub fn get_result(&self) -> (r: Vec<u8>)
        requires
            self.records().len() == self.text().len(),
        ensures
            r@ == spec_serialize(spec_greedy(self.text(), self.records(), self.text().len() - 1)),
    {
        let n = self.partial_result.len();
        let mut result = ResultEncodingVec::new();
        if n > 0 {
            let mut i: usize = n - 1;
            loop
                invariant_except_break
                    i < n,
                    n == self.partial_result@.len(),
                    n == self.text@.len(),
                    spec_greedy(self.text@, self.partial_result@, n - 1) == spec_greedy(
                        self.text@,
                        self.partial_result@,
                        i as int,
                    ) + result@.reverse(),
                ensures
                    spec_greedy(self.text@, self.partial_result@, n - 1) == result@.reverse(),
                decreases i,
            {
                let (dist, len) = self.partial_result[i];
                let ghost before = result@;
                if len >= ResultEncoding::len_treshold() {
                    let e = ResultEncoding::Reference(dist, len);
                    result.push(e);
                    if len > i {
                        assert(seq![e] + before.reverse() =~= result@.reverse());
                        break ;
                    }
                    assert(spec_greedy(self.text@, self.partial_result@, i - len).push(e)
                        + before.reverse() =~= spec_greedy(
                        self.text@,
                        self.partial_result@,
                        i - len,
                    ) + result@.reverse());
                    i -= len;
                } else {
                    let e = ResultEncoding::Ascii(self.text[i]);
                    result.push(e);
                    assert(spec_greedy(self.text@, self.partial_result@, i - 1).push(e)
                        + before.reverse() =~= spec_greedy(self.text@, self.partial_result@, i - 1)
                        + result@.reverse());
                    if i == 0 {
                        assert(spec_greedy(self.text@, self.partial_result@, -1) + result@.reverse()
                            =~= result@.reverse());
                        break ;
                    }
                    i -= 1;
                }
            }
        } else {
            assert(result@.reverse() =~= Seq::<ResultEncoding>::empty());
        }
        result.reverse();
        assert(result@ =~= spec_greedy(self.text@, self.partial_result@, n - 1)) by {
            assert(result@.reverse().reverse() =~= result@);
        }
        let mut parts: Vec<Vec<u8>> = Vec::new();
        let mut k: usize = 0;
        while k < result.vec.len()
            invariant
                k <= result.vec.len(),
                parts@.len() == k,
                forall|j: int| 0 <= j < k ==> (#[trigger] parts@[j])@ == result@[j].spec_bytes(),
            decreases result.vec.len() - k,
        {
            parts.push(result.vec[k].to_ascii_bytes());
            k += 1;
        }
        proof {
            lemma_serialize_is_flatten(result@, parts@.map_values(|v: Vec<u8>| v@));
        }
        concat_all(parts)
    }
}

/// The LZ77 stage with its configuration.
pub struct LZ77Compressor {
    window_size: usize,
    max_len_to_reduce: Option<usize>,
}

impl LZ77Compressor {
    /// The window size in force.
    pub closed spec fn window_size(&self) -> usize {
        self.window_size
    }

    /// The longest match asked for, if one was named.
    pub closed spec fn max_len_to_reduce(&self) -> Option<usize> {
        self.max_len_to_reduce
    }

    /// The stage with the given window, 32768 where none is named, and the given longest
    /// match. Neither may be zero.
    pub fn new(window_size: Option<usize>, max_len_to_reduce: Option<usize>) -> (r: Self)
        requires
            window_size != Some(0usize),
            max_len_to_reduce != Some(0usize),
        ensures
            r.window_size() == match window_size {
                Some(w) => w,
                None => DEFAULT_WINDOW_SIZE,
            },
            r.max_len_to_reduce() == max_len_to_reduce,
    {
        LZ77Compressor {
            window_size: match window_size {
                Some(w) => w,
                None => DEFAULT_WINDOW_SIZE,
            },
            max_len_to_reduce,
        }
    }

    /// Compresses `ascii_bytes`: finds the record of every position, chooses the reference
    /// stream from the right, and writes it out.
    pub fn compress(&self, ascii_bytes: &Vec<u8>) -> (r: Vec<u8>)
        ensures
            r@ == spec_compress(ascii_bytes@, self.window_size(), self.max_len_to_reduce()),
    {
        let mut sw = SlidingWindow::new(ascii_bytes, self.window_size, self.max_len_to_reduce);
        sw.run();
        sw.get_result()
    }

    /// Reads the reference stream from `ascii_bytes` and expands it.
    pub fn decompress(&self, ascii_bytes: &[u8]) -> (r: Result<Vec<u8>, Lz77Error>)
        ensures
            match spec_decompress(ascii_bytes@) {
                Err(e) => r == Err::<Vec<u8>, Lz77Error>(e),
                Ok(out) => r is Ok && r->Ok_0@ == out,
            },
    {
        match ResultEncodingVec::from_ascii_bytes(ascii_bytes) {
            Err(e) => Err(e),
            Ok(encoded_result) => encoded_result.expand(),
        }
    }
}

} // verus!
