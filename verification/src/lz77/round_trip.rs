//! What holds of the LZ77 stage as a whole: the encoding of a reference stream can be read
//! back, and a compressed text expands to the text it came from.

use crate::lz77::implementation::all_digits;
use crate::lz77::implementation::apply_element;
use crate::lz77::implementation::copy_back;
use crate::lz77::implementation::decimal_digits;
use crate::lz77::implementation::digits_value;
use crate::lz77::implementation::effective_max_len;
use crate::lz77::implementation::effective_window;
use crate::lz77::implementation::expand_prefix;
use crate::lz77::implementation::find_sep;
use crate::lz77::implementation::is_digit;
use crate::lz77::implementation::newest_match;
use crate::lz77::implementation::parse_from;
use crate::lz77::implementation::parse_number;
use crate::lz77::implementation::parse_reference_at;
use crate::lz77::implementation::record_from;
use crate::lz77::implementation::spec_compress;
use crate::lz77::implementation::spec_decompress;
use crate::lz77::implementation::spec_expand;
use crate::lz77::implementation::spec_greedy;
use crate::lz77::implementation::spec_parse;
use crate::lz77::implementation::spec_record;
use crate::lz77::implementation::spec_records;
use crate::lz77::implementation::spec_serialize;
use crate::lz77::implementation::window_hash;
use crate::lz77::implementation::window_low;
use crate::lz77::implementation::Lz77Error;
use crate::lz77::implementation::ResultEncoding;
use vstd::prelude::*;

verus! {

/// Whether no literal of the stream is the separator.
pub open spec fn no_separator_literal(rs: Seq<ResultEncoding>) -> bool {
    forall|i: int|
        0 <= i < rs.len() ==> #[trigger] rs[i] != ResultEncoding::Ascii(
            ResultEncoding::spec_separator(),
        )
}

/// The decimal form of a number is a non-empty run of digits that denotes the number.
pub proof fn lemma_decimal_digits(n: nat)
    ensures
        decimal_digits(n).len() >= 1,
        all_digits(decimal_digits(n)),
        digits_value(decimal_digits(n)) == n,
    decreases n,
{
    if n < 10 {
        let s = decimal_digits(n);
        assert(s.drop_last() =~= Seq::<u8>::empty());
        assert(digits_value(s.drop_last()) == 0);
    } else {
        lemma_decimal_digits(n / 10);
        let before = decimal_digits(n / 10);
        let s = decimal_digits(n);
        assert(s.drop_last() =~= before);
        assert forall|i: int| 0 <= i < s.len() implies is_digit(#[trigger] s[i]) by {
            if i < before.len() {
                assert(s[i] == before[i]);
                assert(is_digit(before[i]));
            }
        }
    }
}

proof fn lemma_find_sep_skip(s: Seq<u8>, from: int, to: int)
    requires
        0 <= from <= to <= s.len(),
        forall|j: int| from <= j < to ==> #[trigger] s[j] != ResultEncoding::spec_separator(),
        to == s.len() || s[to] == ResultEncoding::spec_separator(),
    ensures
        find_sep(s, from) == to,
    decreases to - from,
{
    if from < to {
        assert(s[from] != ResultEncoding::spec_separator());
        lemma_find_sep_skip(s, from + 1, to);
    }
}

proof fn lemma_find_sep_shift(pre: Seq<u8>, s: Seq<u8>, from: int)
    requires
        0 <= from,
    ensures
        find_sep(pre + s, pre.len() + from) == pre.len() + find_sep(s, from),
    decreases s.len() - from,
{
    if from < s.len() {
        assert((pre + s)[pre.len() + from] == s[from]);
        if s[from] != ResultEncoding::spec_separator() {
            lemma_find_sep_shift(pre, s, from + 1);
        }
    }
}

proof fn lemma_find_sep_range(s: Seq<u8>, from: int)
    requires
        0 <= from,
    ensures
        from <= find_sep(s, from) || find_sep(s, from) == s.len(),
        find_sep(s, from) <= s.len() || find_sep(s, from) == from,
    decreases s.len() - from,
{
    if from < s.len() && s[from] != ResultEncoding::spec_separator() {
        lemma_find_sep_range(s, from + 1);
    }
}

/// What is read from an index on does not depend on the bytes before it.
proof fn lemma_parse_shift(pre: Seq<u8>, s: Seq<u8>, i: int)
    requires
        0 <= i,
    ensures
        parse_from(pre + s, pre.len() + i) == parse_from(s, i),
    decreases s.len() - i,
{
    let full = pre + s;
    let k = pre.len() as int;
    if i < s.len() {
        assert(full[k + i] == s[i]);
        if s[i] != ResultEncoding::spec_separator() {
            lemma_parse_shift(pre, s, i + 1);
        } else {
            let j1 = find_sep(s, i + 1);
            let j2 = find_sep(s, j1 + 1);
            lemma_find_sep_shift(pre, s, i + 1);
            lemma_find_sep_range(s, i + 1);
            if j1 < s.len() {
                lemma_find_sep_shift(pre, s, j1 + 1);
                lemma_find_sep_range(s, j1 + 1);
                if j2 < s.len() {
                    assert(full.subrange(k + i + 1, k + j1) =~= s.subrange(i + 1, j1));
                    assert(full.subrange(k + j1 + 1, k + j2) =~= s.subrange(j1 + 1, j2));
                    lemma_parse_shift(pre, s, j2 + 1);
                }
            } else {
                assert(find_sep(full, k + i + 1) >= full.len());
            }
        }
    }
}

proof fn lemma_parse_element(e: ResultEncoding, tail: Seq<u8>)
    requires
        e != ResultEncoding::Ascii(ResultEncoding::spec_separator()),
    ensures
        parse_from(e.spec_bytes() + tail, 0) == match parse_from(tail, 0) {
            Err(err) => Err::<Seq<ResultEncoding>, Lz77Error>(err),
            Ok(rest) => Ok(seq![e] + rest),
        },
{
    let own = e.spec_bytes();
    let s = own + tail;
    let sep = ResultEncoding::spec_separator();
    match e {
        ResultEncoding::Ascii(c) => {
            assert(s[0] == c);
            lemma_parse_shift(own, tail, 0);
        },
        ResultEncoding::Reference(d, l) => {
            let dd = decimal_digits(d as nat);
            let ld = decimal_digits(l as nat);
            lemma_decimal_digits(d as nat);
            lemma_decimal_digits(l as nat);
            let j1 = 1 + dd.len() as int;
            let j2 = j1 + 1 + ld.len() as int;
            assert(own.len() == j2 + 1);
            assert(s[0] == sep);
            assert forall|j: int| 1 <= j < j1 implies #[trigger] s[j] != sep by {
                assert(s[j] == dd[j - 1]);
                assert(is_digit(dd[j - 1]));
            }
            assert(s[j1] == sep);
            assert forall|j: int| j1 + 1 <= j < j2 implies #[trigger] s[j] != sep by {
                assert(s[j] == ld[j - j1 - 1]);
                assert(is_digit(ld[j - j1 - 1]));
            }
            assert(s[j2] == sep);
            lemma_find_sep_skip(s, 1, j1);
            lemma_find_sep_skip(s, j1 + 1, j2);
            assert(s.subrange(1, j1) =~= dd);
            assert(s.subrange(j1 + 1, j2) =~= ld);
            assert(parse_number(dd) == Ok::<usize, Lz77Error>(d));
            assert(parse_number(ld) == Ok::<usize, Lz77Error>(l));
            assert(parse_reference_at(s, 0) == Ok::<(ResultEncoding, int), Lz77Error>(
                (e, j2 + 1),
            ));
            lemma_parse_shift(own, tail, 0);
        },
    }
}

/// A reference stream without a separator among its literals is read back from its
/// encoding as it was.
pub proof fn lemma_parse_serialize(rs: Seq<ResultEncoding>)
    requires
        no_separator_literal(rs),
    ensures
        spec_parse(spec_serialize(rs)) == Ok::<Seq<ResultEncoding>, Lz77Error>(rs),
    decreases rs.len(),
{
    if rs.len() == 0 {
        assert(parse_from(Seq::<u8>::empty(), 0) == Ok::<Seq<ResultEncoding>, Lz77Error>(
            Seq::empty(),
        ));
        assert(rs =~= Seq::<ResultEncoding>::empty());
    } else {
        let rest = rs.drop_first();
        assert(no_separator_literal(rest)) by {
            assert forall|i: int| 0 <= i < rest.len() implies #[trigger] rest[i]
                != ResultEncoding::Ascii(ResultEncoding::spec_separator()) by {
                assert(rest[i] == rs[i + 1]);
            }
        }
        lemma_parse_serialize(rest);
        assert(rs[0] != ResultEncoding::Ascii(ResultEncoding::spec_separator()));
        lemma_parse_element(rs.first(), spec_serialize(rest));
        assert(seq![rs.first()] + rest =~= rs);
    }
}

/// Reading the encoding of a reference stream and writing the result out again gives the
/// encoding it started from.
pub proof fn lemma_serialize_parse_serialize(rs: Seq<ResultEncoding>)
    requires
        no_separator_literal(rs),
    ensures
        spec_parse(spec_serialize(rs)) is Ok,
        spec_serialize(spec_parse(spec_serialize(rs))->Ok_0) == spec_serialize(rs),
{
    lemma_parse_serialize(rs);
}

/// Whether every back-reference that the walk from position `i` to the left chooses
/// stands for the bytes that it points at.
pub open spec fn walk_faithful(t: Seq<u8>, rec: Seq<(usize, usize)>, i: int) -> bool
    decreases i + 1,
{
    if i < 0 {
        true
    } else {
        let (d, l) = rec[i];
        if l >= ResultEncoding::spec_len_treshold() {
            &&& t.subrange(i + 1 - l - d, i + 1 - d) == t.subrange(i + 1 - l, i + 1)
            &&& (l > i || walk_faithful(t, rec, i - l))
        } else {
            walk_faithful(t, rec, i - 1)
        }
    }
}

/// Whether two substrings of `t` of one length that hash alike always hold the same bytes.
pub open spec fn collision_free(t: Seq<u8>) -> bool {
    forall|a: int, b: int, len: int|
        0 <= a && 0 <= b && 1 <= len && a + len <= t.len() && b + len <= t.len() && window_hash(
            t,
            a,
            len,
        ) == #[trigger] window_hash(t, b, len) ==> #[trigger] t.subrange(a, a + len)
            == t.subrange(b, b + len)
}

proof fn lemma_newest_match(t: Seq<u8>, len: int, at: int, lo: int, hi: int)
    ensures
        newest_match(t, len, at, lo, hi) == -1 || {
            &&& lo <= newest_match(t, len, at, lo, hi) <= hi
            &&& window_hash(t, newest_match(t, len, at, lo, hi), len) == window_hash(t, at, len)
        },
    decreases hi - lo + 1,
{
    if hi >= lo && window_hash(t, hi, len) != window_hash(t, at, len) {
        lemma_newest_match(t, len, at, lo, hi - 1);
    }
}

proof fn lemma_record_from(t: Seq<u8>, w: int, i: int, len: int)
    requires
        0 <= i < t.len() <= usize::MAX,
        len <= i + 1,
    ensures
        record_from(t, w, i, len) == (0usize, 1usize) || {
            let (d, l) = record_from(t, w, i, len);
            &&& 1 <= l <= len
            &&& 1 <= d <= i + 1 - l
            &&& len <= w ==> d + l <= w
            &&& window_hash(t, i + 1 - l - d, l as int) == window_hash(t, i + 1 - l, l as int)
        },
    decreases len,
{
    if len > 0 {
        let p = newest_match(t, len, i - len + 1, window_low(w, i), i - len);
        lemma_newest_match(t, len, i - len + 1, window_low(w, i), i - len);
        if p < 0 {
            lemma_record_from(t, w, i, len - 1);
        }
    }
}

/// A record is (0, 1), or it names an earlier substring inside the window that hashes
/// like the one that ends at its position: the distance is at least 1, and distance and
/// length together do not pass the window, where the longest match does not.
pub proof fn lemma_record_shape(t: Seq<u8>, w: int, l: int, i: int)
    requires
        0 <= i < t.len() <= usize::MAX,
    ensures
        spec_record(t, w, l, i) == (0usize, 1usize) || {
            let (d, len) = spec_record(t, w, l, i);
            &&& 1 <= len <= i + 1
            &&& len <= l
            &&& 1 <= d <= i + 1 - len
            &&& l <= w ==> d + len <= w
            &&& window_hash(t, i + 1 - len - d, len as int) == window_hash(
                t,
                i + 1 - len,
                len as int,
            )
        },
{
    lemma_record_from(
        t,
        w,
        i,
        if l <= i + 1 {
            l
        } else {
            i + 1
        },
    );
}

/// Where no two different substrings hash alike, every back-reference is faithful.
pub proof fn lemma_collision_free_is_faithful(t: Seq<u8>, w: int, l: int, i: int)
    requires
        t.len() <= usize::MAX,
        -1 <= i < t.len(),
        collision_free(t),
    ensures
        walk_faithful(t, spec_records(t, w, l), i),
    decreases i + 1,
{
    if i >= 0 {
        let rec = spec_records(t, w, l);
        let (d, len) = rec[i];
        lemma_record_shape(t, w, l, i);
        if len >= ResultEncoding::spec_len_treshold() {
            let a = i + 1 - len - d;
            let b = i + 1 - len;
            assert(window_hash(t, a, len as int) == window_hash(t, b, len as int));
            assert(t.subrange(a, a + len) == t.subrange(b, b + len));
            if len <= i {
                lemma_collision_free_is_faithful(t, w, l, i - len);
            }
        } else {
            lemma_collision_free_is_faithful(t, w, l, i - 1);
        }
    }
}

proof fn lemma_copy_back(t: Seq<u8>, start: int, p: int, k: nat)
    requires
        0 <= p < start,
        start + k <= t.len(),
        t.subrange(p, p + k) == t.subrange(start, start + k),
    ensures
        copy_back(t.subrange(0, start), p, k) == t.subrange(0, start + k),
    decreases k,
{
    if k > 0 {
        let a = t.subrange(p, p + k);
        let b = t.subrange(start, start + k);
        assert(t.subrange(p, p + k - 1) =~= a.subrange(0, k - 1));
        assert(t.subrange(start, start + k - 1) =~= b.subrange(0, k - 1));
        lemma_copy_back(t, start, p, (k - 1) as nat);
        let o = t.subrange(0, start + k - 1);
        assert(o[p + k - 1] == a[k - 1]);
        assert(b[k - 1] == t[start + k - 1]);
        assert(o.push(o[p + k - 1]) =~= t.subrange(0, start + k));
    } else {
        assert(t.subrange(0, start) =~= t.subrange(0, start + k));
    }
}

proof fn lemma_expand_prefix_of_push(rs: Seq<ResultEncoding>, e: ResultEncoding, n: nat)
    requires
        n <= rs.len(),
    ensures
        expand_prefix(rs.push(e), n) == expand_prefix(rs, n),
    decreases n,
{
    if n > 0 {
        lemma_expand_prefix_of_push(rs, e, (n - 1) as nat);
        assert(rs.push(e)[n - 1] == rs[n - 1]);
    }
}

proof fn lemma_expand_push(rs: Seq<ResultEncoding>, e: ResultEncoding)
    ensures
        spec_expand(rs.push(e)) == match spec_expand(rs) {
            Err(err) => Err::<Seq<u8>, Lz77Error>(err),
            Ok(out) => apply_element(out, e),
        },
{
    lemma_expand_prefix_of_push(rs, e, rs.len());
    assert(rs.push(e)[rs.len() as int] == e);
}

/// The stream that the walk chooses for the positions up to `i` expands to the first
/// `i + 1` bytes of the text, and none of its literals is the separator.
proof fn lemma_expand_greedy(t: Seq<u8>, w: int, l: int, i: int)
    requires
        t.len() <= usize::MAX,
        -1 <= i < t.len(),
        forall|k: int| 0 <= k < t.len() ==> #[trigger] t[k] != ResultEncoding::spec_separator(),
        walk_faithful(t, spec_records(t, w, l), i),
    ensures
        spec_expand(spec_greedy(t, spec_records(t, w, l), i)) == Ok::<Seq<u8>, Lz77Error>(
            t.subrange(0, i + 1),
        ),
        no_separator_literal(spec_greedy(t, spec_records(t, w, l), i)),
    decreases i + 1,
{
    let rec = spec_records(t, w, l);
    let stream = spec_greedy(t, rec, i);
    if i < 0 {
        assert(t.subrange(0, i + 1) =~= Seq::<u8>::empty());
    } else {
        let (d, len) = rec[i];
        lemma_record_shape(t, w, l, i);
        if len >= ResultEncoding::spec_len_treshold() {
            let e = ResultEncoding::Reference(d, len);
            let start = i + 1 - len;
            assert(len <= i);
            lemma_expand_greedy(t, w, l, i - len);
            let before = spec_greedy(t, rec, i - len);
            lemma_expand_push(before, e);
            lemma_copy_back(t, start, start - d, len as nat);
            assert forall|k: int| 0 <= k < stream.len() implies #[trigger] stream[k]
                != ResultEncoding::Ascii(ResultEncoding::spec_separator()) by {
                if k < before.len() {
                    assert(stream[k] == before[k]);
                }
            }
        } else {
            let e = ResultEncoding::Ascii(t[i]);
            lemma_expand_greedy(t, w, l, i - 1);
            let before = spec_greedy(t, rec, i - 1);
            lemma_expand_push(before, e);
            assert(t.subrange(0, i).push(t[i]) =~= t.subrange(0, i + 1));
            assert forall|k: int| 0 <= k < stream.len() implies #[trigger] stream[k]
                != ResultEncoding::Ascii(ResultEncoding::spec_separator()) by {
                if k < before.len() {
                    assert(stream[k] == before[k]);
                }
            }
        }
    }
}

/// A text without the separator byte decompresses from its compressed form to itself,
/// whatever the window and the longest match, as long as every back-reference that was
/// chosen stands for the bytes it points at.
pub proof fn lemma_round_trip(t: Seq<u8>, window_size: usize, max_len: Option<usize>)
    requires
        t.len() <= usize::MAX,
        forall|k: int| 0 <= k < t.len() ==> #[trigger] t[k] != ResultEncoding::spec_separator(),
        walk_faithful(
            t,
            spec_records(
                t,
                effective_window(window_size, t.len()) as int,
                effective_max_len(window_size, max_len, t.len()) as int,
            ),
            t.len() - 1,
        ),
    ensures
        spec_decompress(spec_compress(t, window_size, max_len)) == Ok::<Seq<u8>, Lz77Error>(t),
{
    let w = effective_window(window_size, t.len()) as int;
    let l = effective_max_len(window_size, max_len, t.len()) as int;
    lemma_expand_greedy(t, w, l, t.len() - 1);
    lemma_parse_serialize(spec_greedy(t, spec_records(t, w, l), t.len() - 1));
    assert(t.subrange(0, t.len() as int) =~= t);
}

/// A text without the separator byte in which no two different substrings hash alike
/// decompresses from its compressed form to itself.
pub proof fn lemma_round_trip_without_collisions(
    t: Seq<u8>,
    window_size: usize,
    max_len: Option<usize>,
)
    requires
        t.len() <= usize::MAX,
        forall|k: int| 0 <= k < t.len() ==> #[trigger] t[k] != ResultEncoding::spec_separator(),
        collision_free(t),
    ensures
        spec_decompress(spec_compress(t, window_size, max_len)) == Ok::<Seq<u8>, Lz77Error>(t),
{
    lemma_collision_free_is_faithful(
        t,
        effective_window(window_size, t.len()) as int,
        effective_max_len(window_size, max_len, t.len()) as int,
        t.len() - 1,
    );
    lemma_round_trip(t, window_size, max_len);
}

/// Ten to the power `k`.
pub open spec fn power_of_ten(k: nat) -> nat
    decreases k,
{
    if k == 0 {
        1
    } else {
        10 * power_of_ten((k - 1) as nat)
    }
}

proof fn lemma_decimal_length(n: nat, k: nat)
    requires
        k >= 1,
        n < power_of_ten(k),
    ensures
        decimal_digits(n).len() <= k,
    decreases k,
{
    if n >= 10 {
        assert(k >= 2) by {
            assert(power_of_ten(1) == 10) by {
                assert(power_of_ten(0) == 1);
            }
        }
        lemma_decimal_length(n / 10, (k - 1) as nat);
    }
}

/// A number that fits in `usize` has at most twenty decimal digits.
pub proof fn lemma_decimal_length_usize(n: usize)
    ensures
        1 <= decimal_digits(n as nat).len() <= 20,
{
    lemma_decimal_digits(n as nat);
    assert(power_of_ten(20) == 100000000000000000000) by {
        reveal_with_fuel(power_of_ten, 21);
    }
    lemma_decimal_length(n as nat, 20);
}

proof fn lemma_serialize_push(rs: Seq<ResultEncoding>, e: ResultEncoding)
    ensures
        spec_serialize(rs.push(e)) == spec_serialize(rs) + e.spec_bytes(),
    decreases rs.len(),
{
    if rs.len() == 0 {
        assert(rs.push(e).drop_first() =~= Seq::<ResultEncoding>::empty());
        assert(rs.push(e).first() == e);
        assert(spec_serialize(Seq::<ResultEncoding>::empty()) =~= Seq::<u8>::empty());
        assert(spec_serialize(rs) =~= Seq::<u8>::empty());
        assert(spec_serialize(rs.push(e)) =~= e.spec_bytes() + Seq::<u8>::empty());
        assert(spec_serialize(rs.push(e)) =~= spec_serialize(rs) + e.spec_bytes());
    } else {
        lemma_serialize_push(rs.drop_first(), e);
        assert(rs.push(e).drop_first() =~= rs.drop_first().push(e));
        assert(spec_serialize(rs.push(e)) =~= spec_serialize(rs) + e.spec_bytes());
    }
}

/// Whether every byte of `s` is below `bound`.
pub open spec fn bytes_below(s: Seq<u8>, bound: int) -> bool {
    forall|i: int| 0 <= i < s.len() ==> #[trigger] s[i] < bound
}

proof fn lemma_element_bytes(e: ResultEncoding, bound: int)
    requires
        bound >= 127,
        e is Ascii ==> e->Ascii_0 < bound,
    ensures
        bytes_below(e.spec_bytes(), bound),
        1 <= e.spec_bytes().len() <= 43,
{
    match e {
        ResultEncoding::Ascii(c) => {},
        ResultEncoding::Reference(d, l) => {
            let dd = decimal_digits(d as nat);
            let ld = decimal_digits(l as nat);
            lemma_decimal_digits(d as nat);
            lemma_decimal_digits(l as nat);
            lemma_decimal_length_usize(d);
            lemma_decimal_length_usize(l);
            let s = e.spec_bytes();
            assert forall|i: int| 0 <= i < s.len() implies #[trigger] s[i] < bound by {
                if 1 <= i < 1 + dd.len() {
                    assert(s[i] == dd[i - 1]);
                    assert(is_digit(dd[i - 1]));
                } else if 2 + dd.len() <= i < 2 + dd.len() + ld.len() {
                    assert(s[i] == ld[i - 2 - dd.len()]);
                    assert(is_digit(ld[i - 2 - dd.len()]));
                }
            }
        },
    }
}

proof fn lemma_greedy_bytes(t: Seq<u8>, rec: Seq<(usize, usize)>, i: int, bound: int)
    requires
        -1 <= i < t.len(),
        rec.len() == t.len(),
        bound >= 127,
        bytes_below(t, bound),
    ensures
        bytes_below(spec_serialize(spec_greedy(t, rec, i)), bound),
        spec_serialize(spec_greedy(t, rec, i)).len() <= 43 * (i + 1),
        i >= 0 ==> spec_serialize(spec_greedy(t, rec, i)).len() >= 1,
    decreases i + 1,
{
    if i >= 0 {
        let (d, l) = rec[i];
        if l >= ResultEncoding::spec_len_treshold() {
            let e = ResultEncoding::Reference(d, l);
            lemma_element_bytes(e, bound);
            if l > i {
                lemma_serialize_push(Seq::<ResultEncoding>::empty(), e);
                assert(Seq::<ResultEncoding>::empty().push(e) =~= seq![e]);
                assert(spec_serialize(Seq::<ResultEncoding>::empty()) =~= Seq::<u8>::empty());
                assert(spec_serialize(seq![e]) =~= e.spec_bytes());
            } else {
                lemma_greedy_bytes(t, rec, i - l, bound);
                lemma_serialize_push(spec_greedy(t, rec, i - l), e);
            }
        } else {
            let e = ResultEncoding::Ascii(t[i]);
            lemma_element_bytes(e, bound);
            lemma_greedy_bytes(t, rec, i - 1, bound);
            lemma_serialize_push(spec_greedy(t, rec, i - 1), e);
        }
    }
}

/// The compressed form of a text holds only separators, digits and bytes of the text; it
/// is at most 43 times as long as the text; and it is empty only if the text is.
pub proof fn lemma_compress_bytes(
    t: Seq<u8>,
    window_size: usize,
    max_len: Option<usize>,
    bound: int,
)
    requires
        bound >= 127,
        bytes_below(t, bound),
    ensures
        bytes_below(spec_compress(t, window_size, max_len), bound),
        spec_compress(t, window_size, max_len).len() <= 43 * t.len(),
        t.len() > 0 ==> spec_compress(t, window_size, max_len).len() > 0,
{
    lemma_greedy_bytes(
        t,
        spec_records(
            t,
            effective_window(window_size, t.len()) as int,
            effective_max_len(window_size, max_len, t.len()) as int,
        ),
        t.len() - 1,
        bound,
    );
}

} // verus!
