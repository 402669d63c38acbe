//! Ranked keyword search over a content index.
use vstd::prelude::*;
use crate::model::{ContentIndex, EntryView};
use crate::text::{
    string_views,
    bytes_of, seq_lt, occurrences, count_occurrences, lower_of, lowercase, words_of, split_words,
    compare_str, lemma_seq_total, lemma_seq_lt_asym, lemma_seq_lt_trans,
};

verus! {

/// The number of results returned when the caller names no limit.
pub const DEFAULT_LIMIT: usize = 10;

/// Options of a search.
#[derive(Debug, Clone)]
pub struct SearchOptions {
    /// The most results to return; zero stands for the default.
    pub limit: usize,
}

/// The limit a search applies for a requested one: zero means the default.
pub open spec fn effective_limit(limit: usize) -> usize {
    if limit == 0 {
        DEFAULT_LIMIT
    } else {
        limit
    }
}

impl SearchOptions {
    /// Options with the default limit.
    pub fn new() -> (r: SearchOptions)
        ensures
            r.limit == DEFAULT_LIMIT,
    {
        SearchOptions { limit: DEFAULT_LIMIT }
    }

    /// Options with the given limit; zero is taken as the default.
    pub fn with_limit(limit: usize) -> (r: SearchOptions)
        ensures
            r.limit == effective_limit(limit),
    {
        SearchOptions { limit: if limit == 0 { DEFAULT_LIMIT } else { limit } }
    }
}

/// One match of a search.
#[derive(Debug, Clone)]
pub struct SearchResult {
    pub skill: String,
    pub sub_skill: Option<String>,
    pub path: String,
    pub score: u64,
}

/// Occurrences of all terms in a text, summed over the terms.
pub open spec fn term_total(text: Seq<u8>, terms: Seq<Seq<u8>>) -> int
    decreases terms.len(),
{
    if terms.len() == 0 {
        0
    } else {
        term_total(text, terms.drop_last()) + occurrences(text, terms.last())
    }
}

proof fn lemma_term_total_nonneg(text: Seq<u8>, terms: Seq<Seq<u8>>)
    ensures
        term_total(text, terms) >= 0,
    decreases terms.len(),
{
    if terms.len() > 0 {
        lemma_term_total_nonneg(text, terms.drop_last());
    }
}

/// A total, saturated at the largest `u64`.
pub open spec fn capped(x: int) -> u64 {
    if x > u64::MAX {
        u64::MAX
    } else {
        x as u64
    }
}

/// The relevance score of a (lower-cased) text for (lower-cased) terms.
pub open spec fn score_of(text: Seq<u8>, terms: Seq<Seq<u8>>) -> u64 {
    capped(term_total(text, terms))
}

/// The terms of a list of strings, as bytes.
pub open spec fn term_bytes(terms: Seq<Seq<char>>) -> Seq<Seq<u8>> {
    terms.map_values(|t: Seq<char>| bytes_of(t))
}

/// The score of every entry for a query: terms are the whitespace-separated
/// words of the lower-cased query, matched against the lower-cased text.
pub open spec fn query_scores(v: Seq<EntryView>, query: Seq<char>) -> Seq<u64> {
    Seq::new(
        v.len(),
        |i: int| score_of(bytes_of(lower_of(v[i].content)), term_bytes(words_of(lower_of(query)))),
    )
}

/// Whether entry `a` is ranked ahead of entry `b`: higher score first, then
/// skill name ascending, then main document before sub-skill, then path
/// ascending, then position in the index.
pub open spec fn ranks_before(v: Seq<EntryView>, sc: Seq<u64>, a: int, b: int) -> bool {
    let ka = bytes_of(v[a].skill);
    let kb = bytes_of(v[b].skill);
    let sa = v[a].sub_skill is Some;
    let sb = v[b].sub_skill is Some;
    let pa = bytes_of(v[a].path);
    let pb = bytes_of(v[b].path);
    sc[a] > sc[b] || (sc[a] == sc[b] && (seq_lt(ka, kb) || (ka == kb && ((!sa && sb) || (sa == sb
        && (seq_lt(pa, pb) || (pa == pb && a < b)))))))
}

/// The ranking is a strict total order on the positions of the index.
pub proof fn lemma_rank_order(v: Seq<EntryView>, sc: Seq<u64>, a: int, b: int, c: int)
    ensures
        !ranks_before(v, sc, a, a),
        !(ranks_before(v, sc, a, b) && ranks_before(v, sc, b, a)),
        a != b ==> ranks_before(v, sc, a, b) || ranks_before(v, sc, b, a),
        ranks_before(v, sc, a, b) && ranks_before(v, sc, b, c) ==> ranks_before(v, sc, a, c),
{
    let ka = bytes_of(v[a].skill);
    let kb = bytes_of(v[b].skill);
    let kc = bytes_of(v[c].skill);
    let pa = bytes_of(v[a].path);
    let pb = bytes_of(v[b].path);
    let pc = bytes_of(v[c].path);
    lemma_seq_lt_asym(ka, kb);
    lemma_seq_lt_asym(pa, pb);
    lemma_seq_lt_asym(kb, kc);
    lemma_seq_lt_asym(pb, pc);
    lemma_seq_lt_asym(ka, kc);
    lemma_seq_lt_asym(pa, pc);
    lemma_seq_total(ka, kb);
    lemma_seq_total(pa, pb);
    if seq_lt(ka, kb) && seq_lt(kb, kc) {
        lemma_seq_lt_trans(ka, kb, kc);
    }
    if seq_lt(pa, pb) && seq_lt(pb, pc) {
        lemma_seq_lt_trans(pa, pb, pc);
    }
}

/// `idx` lists the best matches in rank order: at most `limit` positions of
/// entries with a positive score, each ranked ahead of the next, and every
/// positive entry left out is ranked behind all of them, which happens only
/// when the limit is reached.
pub open spec fn is_top(v: Seq<EntryView>, sc: Seq<u64>, limit: int, idx: Seq<usize>) -> bool {
    &&& idx.len() <= limit
    &&& forall|i: int| 0 <= i < idx.len() ==> #[trigger] idx[i] < v.len() && sc[idx[i] as int] > 0
    &&& forall|i: int, j: int|
        0 <= i < j < idx.len() ==> ranks_before(v, sc, #[trigger] idx[i] as int, #[trigger] idx[j] as int)
    &&& forall|c: usize|
        c < v.len() && sc[c as int] > 0 && !idx.contains(c) ==> idx.len() == limit && forall|i: int|
            0 <= i < idx.len() ==> ranks_before(v, sc, #[trigger] idx[i] as int, c as int)
}

/// Scores one lower-cased text against lower-cased terms.
pub fn score_text(text: &str, terms: &Vec<String>) -> (r: u64)
    ensures
        r == score_of(bytes_of(text@), term_bytes(string_views(terms@))),
{
    let ghost tb = term_bytes(string_views(terms@));
    let bytes = text.as_bytes();
    let mut total: u64 = 0;
    let mut k: usize = 0;
    while k < terms.len()
        invariant
            k <= terms@.len(),
            bytes@ == bytes_of(text@),
            tb.len() == terms@.len(),
            forall|j: int| 0 <= j < tb.len() ==> #[trigger] tb[j] == bytes_of(terms@[j]@),
            total == capped(term_total(bytes@, tb.take(k as int))),
        decreases terms@.len() - k,
    {
        let n = count_occurrences(bytes, terms[k].as_str().as_bytes());
        assert(n == occurrences(bytes@, tb[k as int]));
        assert(tb.take(k + 1).drop_last() == tb.take(k as int));
        assert(tb.take(k + 1).last() == tb[k as int]);
        proof {
            lemma_term_total_nonneg(bytes@, tb.take(k as int));
            assert(term_total(bytes@, tb.take(k + 1)) == term_total(bytes@, tb.take(k as int)) + n);
        }
        total = total.saturating_add(n as u64);
        k = k + 1;
    }
    assert(tb.take(k as int) == tb);
    total
}

/// Scores each lower-cased text against lower-cased terms.
pub fn score_entries(texts: &Vec<String>, terms: &Vec<String>) -> (r: Vec<u64>)
    ensures
        r@.len() == texts@.len(),
        forall|i: int|
            0 <= i < r@.len() ==> #[trigger] r@[i] == score_of(
                bytes_of(texts@[i]@),
                term_bytes(string_views(terms@)),
            ),
{
    let mut r: Vec<u64> = Vec::new();
    let mut i: usize = 0;
    while i < texts.len()
        invariant
            i <= texts@.len(),
            r@.len() == i,
            forall|j: int|
                0 <= j < i ==> #[trigger] r@[j] == score_of(
                    bytes_of(texts@[j]@),
                    term_bytes(string_views(terms@)),
                ),
        decreases texts@.len() - i,
    {
        r.push(score_text(texts[i].as_str(), terms));
        i = i + 1;
    }
    r
}

fn outranks(index: &ContentIndex, scores: &Vec<u64>, a: usize, b: usize) -> (r: bool)
    requires
        scores@.len() == index@.len(),
        a < index@.len(),
        b < index@.len(),
    ensures
        r == ranks_before(index@, scores@, a as int, b as int),
{
    let x = &index.entries[a];
    let y = &index.entries[b];
    assert(index@[a as int] == x@ && index@[b as int] == y@);
    if scores[a] != scores[b] {
        return scores[a] > scores[b];
    }
    let ks = compare_str(x.skill.as_str(), y.skill.as_str());
    if ks != 0 {
        return ks == -1;
    }
    let sa = x.sub_skill.is_some();
    let sb = y.sub_skill.is_some();
    if sa != sb {
        return sb;
    }
    let ps = compare_str(x.path.as_str(), y.path.as_str());
    if ps != 0 {
        return ps == -1;
    }
    a < b
}

/// The positions of the best `limit` entries with a positive score, in rank order.
pub fn rank(index: &ContentIndex, scores: &Vec<u64>, limit: usize) -> (r: Vec<usize>)
    requires
        scores@.len() == index@.len(),
    ensures
        is_top(index@, scores@, limit as int, r@),
{
    let ghost v = index@;
    let ghost sc = scores@;
    let n = scores.len();
    let mut taken: Vec<bool> = Vec::new();
    while taken.len() < n
        invariant
            n == sc.len(),
            taken@.len() <= n,
            forall|c: int| 0 <= c < taken@.len() ==> !(#[trigger] taken@[c]),
        decreases n - taken@.len(),
    {
        taken.push(false);
    }
    let mut idx: Vec<usize> = Vec::new();
    while idx.len() < limit
        invariant
            n == sc.len(),
            v == index@,
            sc == scores@,
            sc.len() == v.len(),
            taken@.len() == n,
            forall|c: int| 0 <= c < n ==> #[trigger] taken@[c] == idx@.contains(c as usize),
            idx@.len() <= limit,
            forall|i: int| 0 <= i < idx@.len() ==> #[trigger] idx@[i] < v.len() && sc[idx@[i] as int] > 0,
            forall|i: int, j: int|
                0 <= i < j < idx@.len() ==> ranks_before(v, sc, #[trigger] idx@[i] as int, #[trigger] idx@[j] as int),
            forall|c: int|
                0 <= c < v.len() && sc[c] > 0 && !idx@.contains(c as usize) ==> forall|i: int|
                    0 <= i < idx@.len() ==> ranks_before(v, sc, #[trigger] idx@[i] as int, c),
        decreases limit - idx@.len(),
    {
        let mut best: Option<usize> = None;
        let mut j: usize = 0;
        while j < n
            invariant
                n == sc.len(),
                v == index@,
                sc == scores@,
                sc.len() == v.len(),
                taken@.len() == n,
                j <= n,
                match best {
                    Some(b) => b < j && sc[b as int] > 0 && !taken@[b as int] && forall|c: int|
                        0 <= c < j && sc[c] > 0 && !taken@[c] ==> !ranks_before(v, sc, c, b as int),
                    None => forall|c: int| 0 <= c < j ==> sc[c] == 0 || taken@[c],
                },
            decreases n - j,
        {
            if scores[j] > 0 && !taken[j] {
                match best {
                    Some(b) => {
                        if outranks(index, scores, j, b) {
                            proof {
                                assert forall|c: int|
                                    0 <= c < j + 1 && sc[c] > 0 && !taken@[c] implies !ranks_before(
                                    v,
                                    sc,
                                    c,
                                    j as int,
                                ) by {
                                    lemma_rank_order(v, sc, c, j as int, b as int);
                                    lemma_rank_order(v, sc, j as int, j as int, b as int);
                                }
                            }
                            best = Some(j);
                        } else {
                            proof {
                                lemma_rank_order(v, sc, j as int, b as int, b as int);
                            }
                        }
                    },
                    None => {
                        proof {
                            lemma_rank_order(v, sc, j as int, j as int, j as int);
                        }
                        best = Some(j);
                    },
                }
            }
            j = j + 1;
        }
        match best {
            Some(b) => {
                proof {
                    assert forall|c: int|
                        0 <= c < v.len() && sc[c] > 0 && !idx@.contains(c as usize) && c != b
                            implies ranks_before(v, sc, b as int, c) by {
                        assert(taken@[c] == idx@.contains(c as usize));
                        lemma_rank_order(v, sc, b as int, c, c);
                    }
                }
                let ghost old_idx = idx@;
                idx.push(b);
                taken.set(b, true);
                proof {
                    assert forall|c: int| 0 <= c < n implies #[trigger] taken@[c] == idx@.contains(
                        c as usize,
                    ) by {
                        if c == b {
                            assert(idx@[old_idx.len() as int] == b);
                        } else {
                            if idx@.contains(c as usize) {
                                let k = choose|k: int| 0 <= k < idx@.len() && idx@[k] == c as usize;
                                assert(old_idx[k] == c as usize);
                            }
                            if old_idx.contains(c as usize) {
                                let k = choose|k: int| 0 <= k < old_idx.len() && old_idx[k] == c as usize;
                                assert(idx@[k] == c as usize);
                            }
                        }
                    }
                    assert forall|c: int|
                        0 <= c < v.len() && sc[c] > 0 && !idx@.contains(c as usize) implies forall|i: int|
                        0 <= i < idx@.len() ==> ranks_before(v, sc, #[trigger] idx@[i] as int, c) by {
                        assert(idx@[old_idx.len() as int] == b);
                        if old_idx.contains(c as usize) {
                            let k = choose|k: int| 0 <= k < old_idx.len() && old_idx[k] == c as usize;
                            assert(idx@[k] == c as usize);
                        }
                        assert forall|i: int| 0 <= i < idx@.len() implies ranks_before(
                            v,
                            sc,
                            #[trigger] idx@[i] as int,
                            c,
                        ) by {
                            if i < old_idx.len() {
                                assert(idx@[i] == old_idx[i]);
                            }
                        }
                    }
                    assert forall|i: int, j2: int|
                        0 <= i < j2 < idx@.len() implies ranks_before(
                        v,
                        sc,
                        #[trigger] idx@[i] as int,
                        #[trigger] idx@[j2] as int,
                    ) by {
                        if j2 == old_idx.len() {
                            assert(!old_idx.contains(b));
                            assert(idx@[i] == old_idx[i]);
                        } else {
                            assert(idx@[i] == old_idx[i] && idx@[j2] == old_idx[j2]);
                        }
                    }
                }
            },
            None => {
                proof {
                    assert forall|c: int|
                        0 <= c < v.len() && sc[c] > 0 implies idx@.contains(c as usize) by {
                        assert(taken@[c]);
                    }
                }
                return idx;
            },
        }
    }
    idx
}

/// Whether results carry, in order, the entries at the given positions with their scores.
pub open spec fn results_match(v: Seq<EntryView>, sc: Seq<u64>, idx: Seq<usize>, r: Seq<SearchResult>) -> bool {
    &&& r.len() == idx.len()
    &&& forall|i: int|
        0 <= i < r.len() ==> {
            let e = v[idx[i] as int];
            &&& (#[trigger] r[i]).skill@ == e.skill
            &&& r[i].path@ == e.path
            &&& r[i].score == sc[idx[i] as int]
            &&& match r[i].sub_skill {
                Some(s) => e.sub_skill == Some(s@),
                None => e.sub_skill is None,
            }
        }
}

/// Searches the content index for a free-text query. Each entry is scored by
/// the occurrences of the query's words in its text, ignoring case; entries
/// with a positive score are returned best first, at most the limit of them.
pub fn search(index: &ContentIndex, query: &str, options: &SearchOptions) -> (r: Vec<SearchResult>)
    ensures
        exists|idx: Seq<usize>|
            is_top(index@, query_scores(index@, query@), effective_limit(options.limit) as int, idx)
                && results_match(index@, query_scores(index@, query@), idx, r@),
{
    let q = lowercase(query);
    let terms = split_words(q.as_str());
    assert(string_views(terms@) =~= words_of(lower_of(query@)));
    let mut texts: Vec<String> = Vec::new();
    let mut i: usize = 0;
    while i < index.entries.len()
        invariant
            i <= index@.len(),
            texts@.len() == i,
            forall|j: int| 0 <= j < i ==> #[trigger] texts@[j]@ == lower_of(index@[j].content),
        decreases index@.len() - i,
    {
        assert(index@[i as int] == index.entries@[i as int]@);
        texts.push(lowercase(index.entries[i].content.as_str()));
        i = i + 1;
    }
    let scores = score_entries(&texts, &terms);
    let ghost sc = query_scores(index@, query@);
    assert(scores@ =~= sc);
    let limit = if options.limit == 0 { DEFAULT_LIMIT } else { options.limit };
    let idx = rank(index, &scores, limit);
    let mut r: Vec<SearchResult> = Vec::new();
    let mut k: usize = 0;
    while k < idx.len()
        invariant
            k <= idx@.len(),
            is_top(index@, sc, limit as int, idx@),
            scores@ == sc,
            sc.len() == index@.len(),
            r@.len() == k,
            results_match(index@, sc, idx@.take(k as int), r@),
        decreases idx@.len() - k,
    {
        let e = &index.entries[idx[k]];
        assert(index@[idx@[k as int] as int] == e@);
        let sub = match &e.sub_skill {
            Some(s) => Some(s.clone()),
            None => None,
        };
        r.push(
            SearchResult {
                skill: e.skill.clone(),
                sub_skill: sub,
                path: e.path.clone(),
                score: scores[idx[k]],
            },
        );
        assert forall|i: int| 0 <= i < k implies #[trigger] idx@.take(k + 1)[i] == idx@.take(k as int)[i] by {}
        assert(results_match(index@, sc, idx@.take(k + 1), r@)) by {
            assert(idx@.take(k + 1)[k as int] == idx@[k as int]);
        }
        k = k + 1;
    }
    assert(idx@.take(k as int) == idx@);
    r
}

proof fn lemma_top_distinct(v: Seq<EntryView>, sc: Seq<u64>, limit: int, a: Seq<usize>, q: int, p: int)
    requires
        is_top(v, sc, limit, a),
        0 <= q < p < a.len(),
    ensures
        a[q] != a[p],
{
    lemma_rank_order(v, sc, a[q] as int, a[q] as int, a[q] as int);
}

/// At the first position where two rankings differ, the second ranking's
/// entry is ranked ahead of the first's.
proof fn lemma_first_difference(
    v: Seq<EntryView>,
    sc: Seq<u64>,
    limit: int,
    a: Seq<usize>,
    b: Seq<usize>,
    p: int,
)
    requires
        is_top(v, sc, limit, a),
        is_top(v, sc, limit, b),
        0 <= p < a.len(),
        p < b.len(),
        forall|q: int| 0 <= q < p ==> a[q] == b[q],
        a[p] != b[p],
    ensures
        ranks_before(v, sc, b[p] as int, a[p] as int),
{
    let x = a[p];
    if b.contains(x) {
        let q = choose|q: int| 0 <= q < b.len() && b[q] == x;
        if q < p {
            lemma_top_distinct(v, sc, limit, a, q, p);
        }
        assert(q > p);
    } else {
        assert(sc[x as int] > 0);
    }
}

/// A ranking is determined by the scores and the limit: two results that
/// both meet the contract of `rank` are equal. Searching twice on the same
/// snapshot with the same query and limit gives the same ordered results.
pub proof fn lemma_top_unique(v: Seq<EntryView>, sc: Seq<u64>, limit: int, a: Seq<usize>, b: Seq<usize>)
    requires
        sc.len() == v.len(),
        is_top(v, sc, limit, a),
        is_top(v, sc, limit, b),
    ensures
        a == b,
{
    let m = if a.len() < b.len() { a.len() } else { b.len() };
    assert forall|p: int| 0 <= p < m implies a[p] == b[p] by {
        lemma_prefix_agree(v, sc, limit, a, b, p);
    }
    if a.len() < b.len() {
        let y = b[a.len() as int];
        if a.contains(y) {
            let q = choose|q: int| 0 <= q < a.len() && a[q] == y;
            assert(b[q] == y);
            lemma_top_distinct(v, sc, limit, b, q, a.len() as int);
        }
        assert(a.len() == limit);
    } else if b.len() < a.len() {
        let y = a[b.len() as int];
        if b.contains(y) {
            let q = choose|q: int| 0 <= q < b.len() && b[q] == y;
            assert(a[q] == y);
            lemma_top_distinct(v, sc, limit, a, q, b.len() as int);
        }
        assert(b.len() == limit);
    }
    assert(a =~= b);
}

proof fn lemma_prefix_agree(v: Seq<EntryView>, sc: Seq<u64>, limit: int, a: Seq<usize>, b: Seq<usize>, p: int)
    requires
        sc.len() == v.len(),
        is_top(v, sc, limit, a),
        is_top(v, sc, limit, b),
        0 <= p < a.len(),
        p < b.len(),
    ensures
        forall|q: int| 0 <= q <= p ==> a[q] == b[q],
    decreases p,
{
    if p > 0 {
        lemma_prefix_agree(v, sc, limit, a, b, p - 1);
    }
    if a[p] != b[p] {
        lemma_first_difference(v, sc, limit, a, b, p);
        lemma_first_difference(v, sc, limit, b, a, p);
        lemma_rank_order(v, sc, a[p] as int, b[p] as int, a[p] as int);
    }
}

/// Prefix stability: the ranking for a smaller limit is the start of the
/// ranking for a larger one.
pub proof fn lemma_top_prefix(
    v: Seq<EntryView>,
    sc: Seq<u64>,
    k1: int,
    k2: int,
    a: Seq<usize>,
    b: Seq<usize>,
)
    requires
        sc.len() == v.len(),
        0 <= k1 <= k2,
        is_top(v, sc, k1, a),
        is_top(v, sc, k2, b),
    ensures
        a.len() <= k1,
        a == (if b.len() > k1 { b.take(k1) } else { b }),
{
    let t = if b.len() > k1 { b.take(k1) } else { b };
    assert forall|c: usize|
        c < v.len() && sc[c as int] > 0 && !t.contains(c) implies t.len() == k1 && forall|i: int|
        0 <= i < t.len() ==> ranks_before(v, sc, #[trigger] t[i] as int, c as int) by {
        if b.contains(c) {
            let q = choose|q: int| 0 <= q < b.len() && b[q] == c;
            if q < k1 {
                assert(t[q] == c);
            }
            assert forall|i: int| 0 <= i < t.len() implies ranks_before(v, sc, #[trigger] t[i] as int, c as int) by {
                assert(t[i] == b[i]);
                assert(ranks_before(v, sc, b[i] as int, b[q] as int));
            }
        } else {
            assert forall|i: int| 0 <= i < t.len() implies ranks_before(v, sc, #[trigger] t[i] as int, c as int) by {
                assert(t[i] == b[i]);
            }
        }
    }
    assert forall|i: int, j: int| 0 <= i < j < t.len() implies ranks_before(v, sc, #[trigger] t[i] as int, #[trigger] t[j] as int) by {
        assert(t[i] == b[i] && t[j] == b[j]);
    }
    assert forall|i: int| 0 <= i < t.len() implies #[trigger] t[i] < v.len() && sc[t[i] as int] > 0 by {
        assert(t[i] == b[i]);
    }
    assert(is_top(v, sc, k1, t));
    lemma_top_unique(v, sc, k1, a, t);
}

/// A higher score ranks first, whatever else differs.
pub proof fn lemma_higher_score_first(v: Seq<EntryView>, sc: Seq<u64>, a: int, b: int)
    requires
        sc[a] > sc[b],
    ensures
        ranks_before(v, sc, a, b),
{
}

/// For a one-word query, an entry whose text holds the word more often
/// (for instance three times against once) is ranked ahead.
pub proof fn lemma_more_occurrences_first(v: Seq<EntryView>, query: Seq<char>, a: int, b: int)
    requires
        0 <= a < v.len(),
        0 <= b < v.len(),
        term_bytes(words_of(lower_of(query))).len() == 1,
        occurrences(bytes_of(lower_of(v[a].content)), term_bytes(words_of(lower_of(query)))[0])
            > occurrences(bytes_of(lower_of(v[b].content)), term_bytes(words_of(lower_of(query)))[0]),
        occurrences(bytes_of(lower_of(v[a].content)), term_bytes(words_of(lower_of(query)))[0])
            <= u64::MAX,
    ensures
        ranks_before(v, query_scores(v, query), a, b),
{
    let t = term_bytes(words_of(lower_of(query)));
    assert(t.drop_last().len() == 0);
    assert(t.last() == t[0]);
    let ta = bytes_of(lower_of(v[a].content));
    let tbb = bytes_of(lower_of(v[b].content));
    assert(term_total(ta, t.drop_last()) == 0);
    assert(term_total(tbb, t.drop_last()) == 0);
    assert(term_total(ta, t) == occurrences(ta, t[0]));
    assert(term_total(tbb, t) == occurrences(tbb, t[0]));
    let sc = query_scores(v, query);
    assert(sc[a] == score_of(bytes_of(lower_of(v[a].content)), t));
    assert(sc[b] == score_of(bytes_of(lower_of(v[b].content)), t));
}

/// Two texts that match every term equally often except `t`, which the first
/// matches more often, total higher once `t` is among the terms.
proof fn lemma_term_total_more(ta: Seq<u8>, tb: Seq<u8>, terms: Seq<Seq<u8>>, t: Seq<u8>)
    requires
        forall|m: int|
            0 <= m < terms.len() && terms[m] != t ==> occurrences(ta, #[trigger] terms[m]) == occurrences(tb, terms[m]),
        occurrences(ta, t) > occurrences(tb, t),
    ensures
        term_total(ta, terms) >= term_total(tb, terms),
        terms.contains(t) ==> term_total(ta, terms) > term_total(tb, terms),
    decreases terms.len(),
{
    if terms.len() > 0 {
        let d = terms.drop_last();
        assert forall|m: int| 0 <= m < d.len() && d[m] != t implies occurrences(ta, #[trigger] d[m])
            == occurrences(tb, d[m]) by {
            assert(d[m] == terms[m]);
        }
        lemma_term_total_more(ta, tb, d, t);
        if terms.last() != t {
            assert(occurrences(ta, terms[terms.len() - 1]) == occurrences(tb, terms[terms.len() - 1]));
        }
        if terms.contains(t) && terms.last() != t {
            let k = choose|k: int| 0 <= k < terms.len() && terms[k] == t;
            assert(d[k] == t);
        }
    }
}

/// For any query, an entry whose lower-cased text holds one of the query's
/// words more often (three times against once, say) and every other word
/// equally often is ranked ahead.
pub proof fn lemma_more_occurrences_of_term_first(v: Seq<EntryView>, query: Seq<char>, a: int, b: int, t: Seq<u8>)
    requires
        0 <= a < v.len(),
        0 <= b < v.len(),
        term_bytes(words_of(lower_of(query))).contains(t),
        forall|m: int|
            0 <= m < term_bytes(words_of(lower_of(query))).len() && term_bytes(words_of(lower_of(query)))[m] != t
                ==> occurrences(bytes_of(lower_of(v[a].content)), #[trigger] term_bytes(words_of(lower_of(query)))[m])
                == occurrences(bytes_of(lower_of(v[b].content)), term_bytes(words_of(lower_of(query)))[m]),
        occurrences(bytes_of(lower_of(v[a].content)), t) > occurrences(bytes_of(lower_of(v[b].content)), t),
        term_total(bytes_of(lower_of(v[a].content)), term_bytes(words_of(lower_of(query)))) <= u64::MAX,
    ensures
        ranks_before(v, query_scores(v, query), a, b),
{
    let terms = term_bytes(words_of(lower_of(query)));
    let ta = bytes_of(lower_of(v[a].content));
    let tb = bytes_of(lower_of(v[b].content));
    lemma_term_total_more(ta, tb, terms, t);
    lemma_term_total_nonneg(tb, terms);
    let sc = query_scores(v, query);
    assert(sc[a] == score_of(ta, terms));
    assert(sc[b] == score_of(tb, terms));
}

} // verus!
