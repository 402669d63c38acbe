//! Byte-level text helpers: ordering, occurrence counting, and the calls
//! into std's Unicode case mapping and whitespace splitting.
use vstd::prelude::*;
use vstd::string::*;
use vstd::utf8::{encode_utf8, encode_utf8_decode_utf8};

verus! {

/// The bytes of a string as UTF-8; byte order on these is the order of `str::cmp`.
pub open spec fn bytes_of(s: Seq<char>) -> Seq<u8> {
    encode_utf8(s)
}

/// The characters of each string of a list.
pub open spec fn string_views(v: Seq<String>) -> Seq<Seq<char>> {
    v.map_values(|s: String| s@)
}

/// Strict lexicographic order on byte sequences.
pub open spec fn seq_lt(a: Seq<u8>, b: Seq<u8>) -> bool {
    exists|k: int|
        0 <= k <= a.len() && k <= b.len() && a.take(k) == b.take(k) && (
            (k == a.len() && k < b.len()) || (k < a.len() && k < b.len() && a[k] < b[k])
        )
}

pub open spec fn seq_le(a: Seq<u8>, b: Seq<u8>) -> bool {
    seq_lt(a, b) || a == b
}

/// Strict order of two strings as `str::cmp` orders them.
pub open spec fn str_lt(a: Seq<char>, b: Seq<char>) -> bool {
    seq_lt(bytes_of(a), bytes_of(b))
}

pub open spec fn str_le(a: Seq<char>, b: Seq<char>) -> bool {
    seq_le(bytes_of(a), bytes_of(b))
}

/// Compares two byte slices lexicographically: -1, 0 or 1.
pub fn compare_bytes(a: &[u8], b: &[u8]) -> (r: i8)
    ensures
        r == -1 <==> seq_lt(a@, b@),
        r == 0 <==> a@ == b@,
        r == 1 <==> seq_lt(b@, a@),
{
    let n = if a.len() < b.len() { a.len() } else { b.len() };
    let mut i: usize = 0;
    while i < n
        invariant
            n <= a@.len(),
            n <= b@.len(),
            n == a@.len() || n == b@.len(),
            i <= n,
            a@.take(i as int) == b@.take(i as int),
        decreases n - i,
    {
        if a[i] != b[i] {
            proof {
                lemma_lt_at(a@, b@, i as int);
                lemma_lt_at(b@, a@, i as int);
                assert(a@ != b@) by { assert(a@[i as int] != b@[i as int]); }
            }
            if a[i] < b[i] {
                return -1;
            } else {
                return 1;
            }
        }
        assert(a@.take(i + 1) == a@.take(i as int).push(a@[i as int]));
        assert(b@.take(i + 1) == b@.take(i as int).push(b@[i as int]));
        i = i + 1;
    }
    proof {
        lemma_lt_at(a@, b@, n as int);
        lemma_lt_at(b@, a@, n as int);
    }
    if a.len() < b.len() {
        assert(a@ != b@) by { assert(a@.len() != b@.len()); }
        -1
    } else if b.len() < a.len() {
        assert(a@ != b@) by { assert(a@.len() != b@.len()); }
        1
    } else {
        assert(a@ == b@) by {
            assert(a@ == a@.take(n as int));
            assert(b@ == b@.take(n as int));
        }
        0
    }
}

/// Once two sequences agree up to `k` and differ at `k` (or one ends there),
/// the order between them is decided at `k`.
proof fn lemma_lt_at(a: Seq<u8>, b: Seq<u8>, k: int)
    requires
        0 <= k <= a.len(),
        k <= b.len(),
        a.take(k) == b.take(k),
        k == a.len() || k == b.len() || a[k] != b[k],
    ensures
        seq_lt(a, b) <==> ((k == a.len() && k < b.len()) || (k < a.len() && k < b.len() && a[k]
            < b[k])),
{
    if seq_lt(a, b) {
        let j = choose|j: int|
            0 <= j <= a.len() && j <= b.len() && a.take(j) == b.take(j) && (
                (j == a.len() && j < b.len()) || (j < a.len() && j < b.len() && a[j] < b[j])
            );
        if j < k {
            assert(a.take(k)[j] == a[j]);
            assert(b.take(k)[j] == b[j]);
        } else if j > k {
            if k < a.len() && k < b.len() {
                assert(a.take(j)[k] == a[k]);
                assert(b.take(j)[k] == b[k]);
            }
        }
    }
}

/// Any two byte sequences are ordered one way or the other, or equal.
pub proof fn lemma_seq_total(a: Seq<u8>, b: Seq<u8>)
    ensures
        seq_lt(a, b) || a == b || seq_lt(b, a),
{
    assert(a.take(0) =~= b.take(0));
    lemma_total_from(a, b, 0);
}

proof fn lemma_total_from(a: Seq<u8>, b: Seq<u8>, k: int)
    requires
        0 <= k <= a.len(),
        k <= b.len(),
        a.take(k) == b.take(k),
    ensures
        seq_lt(a, b) || a == b || seq_lt(b, a),
    decreases a.len() - k,
{
    if k == a.len() || k == b.len() || a[k] != b[k] {
        lemma_lt_at(a, b, k);
        lemma_lt_at(b, a, k);
        if k == a.len() && k == b.len() {
            assert(a == a.take(k));
            assert(b == b.take(k));
        }
    } else {
        assert(a.take(k + 1) == a.take(k).push(a[k]));
        assert(b.take(k + 1) == b.take(k).push(b[k]));
        lemma_total_from(a, b, k + 1);
    }
}

/// The order is strict: never both ways, and no sequence precedes itself.
pub proof fn lemma_seq_lt_asym(a: Seq<u8>, b: Seq<u8>)
    ensures
        !(seq_lt(a, b) && seq_lt(b, a)),
        !seq_lt(a, a),
{
    if seq_lt(a, a) {
        let k = choose|k: int|
            0 <= k <= a.len() && k <= a.len() && a.take(k) == a.take(k) && (
                (k == a.len() && k < a.len()) || (k < a.len() && k < a.len() && a[k] < a[k])
            );
    }
    if seq_lt(a, b) && seq_lt(b, a) {
        let k1 = choose|k: int|
            0 <= k <= a.len() && k <= b.len() && a.take(k) == b.take(k) && (
                (k == a.len() && k < b.len()) || (k < a.len() && k < b.len() && a[k] < b[k])
            );
        let k2 = choose|k: int|
            0 <= k <= b.len() && k <= a.len() && b.take(k) == a.take(k) && (
                (k == b.len() && k < a.len()) || (k < b.len() && k < a.len() && b[k] < a[k])
            );
        if k1 < k2 {
            assert(a.take(k2)[k1] == b.take(k2)[k1]);
        } else if k2 < k1 {
            assert(a.take(k1)[k2] == b.take(k1)[k2]);
        }
    }
}

/// The order is transitive.
pub proof fn lemma_seq_lt_trans(a: Seq<u8>, b: Seq<u8>, c: Seq<u8>)
    requires
        seq_lt(a, b),
        seq_lt(b, c),
    ensures
        seq_lt(a, c),
{
    let k1 = choose|k: int|
        0 <= k <= a.len() && k <= b.len() && a.take(k) == b.take(k) && (
            (k == a.len() && k < b.len()) || (k < a.len() && k < b.len() && a[k] < b[k])
        );
    let k2 = choose|k: int|
        0 <= k <= b.len() && k <= c.len() && b.take(k) == c.take(k) && (
            (k == b.len() && k < c.len()) || (k < b.len() && k < c.len() && b[k] < c[k])
        );
    if k1 < k2 {
        assert(a.take(k1) == c.take(k1)) by {
            assert(b.take(k1) == b.take(k2).take(k1));
            assert(c.take(k1) == c.take(k2).take(k1));
        }
        assert(b.take(k2)[k1] == c.take(k2)[k1]);
        assert(0 <= k1 <= a.len() && k1 <= c.len() && a.take(k1) == c.take(k1) && (
            (k1 == a.len() && k1 < c.len()) || (k1 < a.len() && k1 < c.len() && a[k1] < c[k1])
        ));
    } else if k2 < k1 {
        assert(a.take(k2) == c.take(k2)) by {
            assert(a.take(k2) == a.take(k1).take(k2));
            assert(b.take(k2) == b.take(k1).take(k2));
        }
        assert(a.take(k1)[k2] == b.take(k1)[k2]);
        assert(0 <= k2 <= a.len() && k2 <= c.len() && a.take(k2) == c.take(k2) && (
            (k2 == a.len() && k2 < c.len()) || (k2 < a.len() && k2 < c.len() && a[k2] < c[k2])
        ));
    } else {
        assert(0 <= k1 <= a.len() && k1 <= c.len() && a.take(k1) == c.take(k1) && (
            (k1 == a.len() && k1 < c.len()) || (k1 < a.len() && k1 < c.len() && a[k1] < c[k1])
        ));
    }
}

/// Number of non-overlapping occurrences of `pat` in `text` at or after `i`,
/// found left to right (the count that `str::matches` yields).
pub open spec fn count_from(text: Seq<u8>, pat: Seq<u8>, i: int) -> nat
    decreases text.len() - i,
{
    if pat.len() == 0 || i < 0 || i + pat.len() > text.len() {
        0
    } else if text.subrange(i, i + pat.len()) == pat {
        1 + count_from(text, pat, i + pat.len())
    } else {
        count_from(text, pat, i + 1)
    }
}

/// Non-overlapping occurrences of `pat` in `text`; none for an empty pattern.
pub open spec fn occurrences(text: Seq<u8>, pat: Seq<u8>) -> nat {
    count_from(text, pat, 0)
}

/// Whether `pat` occurs in `text` starting at `i`.
fn matches_at(text: &[u8], pat: &[u8], i: usize) -> (r: bool)
    requires
        i + pat@.len() <= text@.len(),
    ensures
        r == (text@.subrange(i as int, i + pat@.len()) == pat@),
{
    let n = text.len();
    let mut j: usize = 0;
    while j < pat.len()
        invariant
            n == text@.len(),
            i + pat@.len() <= text@.len(),
            j <= pat@.len(),
            forall|k: int| 0 <= k < j ==> text@[i + k] == pat@[k],
        decreases pat@.len() - j,
    {
        if text[i + j] != pat[j] {
            assert(text@.subrange(i as int, i + pat@.len())[j as int] != pat@[j as int]);
            return false;
        }
        j = j + 1;
    }
    assert(text@.subrange(i as int, i + pat@.len()) == pat@);
    true
}

/// Counts the non-overlapping occurrences of `pat` in `text`.
pub fn count_occurrences(text: &[u8], pat: &[u8]) -> (r: usize)
    ensures
        r == occurrences(text@, pat@),
{
    if pat.len() == 0 || pat.len() > text.len() {
        return 0;
    }
    let last = text.len() - pat.len();
    let mut i: usize = 0;
    let mut c: usize = 0;
    while i <= last
        invariant
            last + pat@.len() == text@.len(),
            text@.len() <= usize::MAX,
            pat@.len() > 0,
            i <= text@.len(),
            c <= i,
            c + count_from(text@, pat@, i as int) == occurrences(text@, pat@),
        decreases text@.len() - i,
    {
        if matches_at(text, pat, i) {
            c = c + 1;
            i = i + pat.len();
        } else {
            i = i + 1;
        }
    }
    c
}

/// What `str::to_lowercase` returns for a string.
pub uninterp spec fn lower_of(s: Seq<char>) -> Seq<char>;

/// Relies on `str::to_lowercase`: the Unicode lower-case mapping of the
/// characters, a function of the characters alone.
#[verifier::external_body]
pub(crate) fn lowercase(s: &str) -> (r: String)
    ensures
        r@ == lower_of(s@),
{
    s.to_lowercase()
}

/// What `str::split_whitespace` yields for a string, in order.
pub uninterp spec fn words_of(s: Seq<char>) -> Seq<Seq<char>>;

/// Relies on `str::split_whitespace`: the maximal runs of non-whitespace
/// characters, in order, each owned as a `String`.
#[verifier::external_body]
pub(crate) fn split_words(s: &str) -> (r: Vec<String>)
    ensures
        r@.len() == words_of(s@).len(),
        forall|i: int| 0 <= i < r@.len() ==> #[trigger] r@[i]@ == words_of(s@)[i],
{
    s.split_whitespace().map(String::from).collect()
}

/// Compares two strings as `str::cmp` does: -1, 0 or 1.
pub fn compare_str(a: &str, b: &str) -> (r: i8)
    ensures
        r == -1 <==> str_lt(a@, b@),
        r == 0 <==> a@ == b@,
        r == 0 <==> bytes_of(a@) == bytes_of(b@),
        r == 1 <==> str_lt(b@, a@),
{
    let r = compare_bytes(a.as_bytes(), b.as_bytes());
    proof {
        encode_utf8_decode_utf8(a@);
        encode_utf8_decode_utf8(b@);
    }
    r
}

/// Whether two strings hold the same characters.
pub fn str_eq(a: &str, b: &str) -> (r: bool)
    ensures
        r == (a@ == b@),
{
    compare_str(a, b) == 0
}

/// A copy of a list of strings.
pub fn copy_strings(v: &Vec<String>) -> (r: Vec<String>)
    ensures
        r@ == v@,
{
    let mut r: Vec<String> = Vec::new();
    let mut i: usize = 0;
    while i < v.len()
        invariant
            i <= v@.len(),
            r@ == v@.take(i as int),
        decreases v@.len() - i,
    {
        r.push(v[i].clone());
        assert(v@.take(i + 1) == v@.take(i as int).push(v@[i as int]));
        i = i + 1;
    }
    assert(v@.take(i as int) == v@);
    r
}

/// Concatenates two pieces into a new string.
pub fn join2(a: &str, b: &str) -> (r: String)
    ensures
        r@ == a@ + b@,
{
    let mut s = String::from_str(a);
    s.append(b);
    s
}

/// Concatenates three pieces into a new string.
pub fn join3(a: &str, b: &str, c: &str) -> (r: String)
    ensures
        r@ == a@ + b@ + c@,
{
    let mut s = String::from_str(a);
    s.append(b);
    s.append(c);
    s
}

} // verus!
