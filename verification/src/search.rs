//! Fuzzy ranking of names against a query.
//!
//! Whether a name matches a query, and how well, is nucleo-matcher's fuzzy score.
//! The ranking built on it is this module's: the matching names, best score first,
//! earlier names first among equal scores, cut to a cap.
use vstd::prelude::*;

verus! {

#[verifier::external_type_specification]
#[verifier::external_body]
pub struct ExMatcher(nucleo_matcher::Matcher);

#[verifier::external_type_specification]
#[verifier::external_body]
pub struct ExPattern(nucleo_matcher::pattern::Pattern);

/// nucleo-matcher's score of `key` against `query`, with the query split into
/// space-separated atoms, smart case and smart normalization, under the matcher's
/// default configuration; `None` where `key` does not match.
pub uninterp spec fn nucleo_score(query: Seq<char>, key: Seq<char>) -> Option<u32>;

/// Number of space characters in `s`. nucleo splits a query into atoms at unescaped
/// spaces, so a query has at most one atom more than it has spaces.
pub open spec fn space_count(s: Seq<char>) -> nat
    decreases s.len(),
{
    if s.len() == 0 {
        0
    } else {
        space_count(s.drop_last()) + if s.last() == ' ' {
            1nat
        } else {
            0nat
        }
    }
}

/// Number of bytes of the UTF-8 encoding of `s`.
pub open spec fn utf8_len(s: Seq<char>) -> nat {
    vstd::utf8::encode_utf8(s).len()
}

/// The number of space characters in `s`.
pub fn count_spaces(s: &str) -> (r: usize)
    ensures
        r == space_count(s@),
{
    let v = crate::text::chars_of(s);
    let mut n: usize = 0;
    let mut i: usize = 0;
    while i < v.len()
        invariant
            i <= v@.len(),
            v@ == s@,
            n == space_count(v@.take(i as int)),
            n <= i,
        decreases v.len() - i,
    {
        proof {
            assert(v@.take(i + 1).drop_last() =~= v@.take(i as int));
        }
        if v[i] == ' ' {
            n = n + 1;
        }
        i = i + 1;
    }
    proof {
        assert(v@.take(i as int) =~= v@);
    }
    n
}

/// A query compiled for scoring.
pub struct FuzzyQuery {
    text: String,
    pattern: nucleo_matcher::pattern::Pattern,
}

impl View for FuzzyQuery {
    type V = Seq<char>;

    closed spec fn view(&self) -> Seq<char> {
        self.text@
    }
}

/// Calls `nucleo_matcher::Matcher::new` with `nucleo_matcher::Config::DEFAULT`.
#[verifier::external_body]
fn new_matcher() -> nucleo_matcher::Matcher {
    nucleo_matcher::Matcher::new(nucleo_matcher::Config::DEFAULT)
}

/// Calls `nucleo_matcher::pattern::Pattern::score` on `key`, converted with
/// `nucleo_matcher::Utf32Str::new`. That conversion keeps either the key's UTF-8 bytes
/// or one code point per grapheme cluster, never more units than the key has bytes,
/// and the matcher asserts that it has at most `u32::MAX` of them. The score adds one
/// `u16` per query atom into a `u32`; with at most 65536 spaces a query has at most
/// 65537 atoms, whose sum is at most `u32::MAX`.
#[verifier::external_body]
fn pattern_score(query: &FuzzyQuery, key: &str, matcher: &mut nucleo_matcher::Matcher) -> (r:
    Option<u32>)
    requires
        utf8_len(key@) <= u32::MAX,
        space_count(query@) <= 65536,
    ensures
        r == nucleo_score(query@, key@),
{
    let mut buf: Vec<char> = Vec::new();
    query.pattern.score(nucleo_matcher::Utf32Str::new(key, &mut buf), matcher)
}

impl FuzzyQuery {
    /// Compiles `query` with `nucleo_matcher::pattern::Pattern::parse`, smart case
    /// matching and smart normalization, keeping the text it was compiled from.
    #[verifier::external_body]
    pub fn new(query: &str) -> (r: FuzzyQuery)
        ensures
            r@ == query@,
    {
        FuzzyQuery {
            text: query.to_owned(),
            pattern: nucleo_matcher::pattern::Pattern::parse(
                query,
                nucleo_matcher::pattern::CaseMatching::Smart,
                nucleo_matcher::pattern::Normalization::Smart,
            ),
        }
    }
}

/// The texts of a list of names.
pub open spec fn key_texts(keys: Seq<&str>) -> Seq<Seq<char>> {
    keys.map_values(|k: &str| k@)
}

/// Whether key `j` exists and matches the query.
pub open spec fn matches_at(query: Seq<char>, keys: Seq<Seq<char>>, j: int) -> bool {
    0 <= j < keys.len() && nucleo_score(query, keys[j]) is Some
}

/// Whether matching key `a` ranks before matching key `b`: a higher score, or the same
/// score and an earlier position.
pub open spec fn outranks(query: Seq<char>, keys: Seq<Seq<char>>, a: int, b: int) -> bool {
    let sa = nucleo_score(query, keys[a])->0;
    let sb = nucleo_score(query, keys[b])->0;
    sa > sb || (sa == sb && a < b)
}

/// `r` lists the positions of the best `cap` matching keys, best first: every listed key
/// matches, the list runs in ranking order, it is as long as `cap` allows, and every
/// matching key left out ranks after every key listed.
pub open spec fn is_fuzzy_ranking(
    query: Seq<char>,
    keys: Seq<Seq<char>>,
    cap: nat,
    r: Seq<usize>,
) -> bool {
    &&& r.len() <= cap
    &&& forall|k: int| 0 <= k < r.len() ==> matches_at(query, keys, #[trigger] r[k] as int)
    &&& forall|a: int, b: int|
        0 <= a < b < r.len() ==> outranks(query, keys, #[trigger] r[a] as int, #[trigger] r[b] as int)
    &&& r.len() < cap ==> forall|j: int| matches_at(query, keys, j) ==> r.contains(j as usize)
    &&& forall|j: int, k: int|
        #![trigger r[k], matches_at(query, keys, j)]
        matches_at(query, keys, j) && !r.contains(j as usize) && 0 <= k < r.len() ==> outranks(
            query,
            keys,
            r[k] as int,
            j,
        )
}

spec fn firsts(s: Seq<(usize, u32)>) -> Seq<usize> {
    s.map_values(|p: (usize, u32)| p.0)
}

/// Invariant of the ranking built so far, over the first `n` keys.
spec fn partial_ranking(
    query: Seq<char>,
    keys: Seq<Seq<char>>,
    cap: nat,
    n: int,
    s: Seq<(usize, u32)>,
) -> bool {
    &&& s.len() <= cap
    &&& forall|k: int|
        0 <= k < s.len() ==> {
            &&& matches_at(query, keys, #[trigger] s[k].0 as int)
            &&& s[k].0 < n
            &&& nucleo_score(query, keys[s[k].0 as int]) == Some(s[k].1)
        }
    &&& forall|a: int, b: int|
        0 <= a < b < s.len() ==> outranks(query, keys, #[trigger] s[a].0 as int, #[trigger] s[b].0 as int)
    &&& s.len() < cap ==> forall|j: int|
        0 <= j < n && matches_at(query, keys, j) ==> firsts(s).contains(j as usize)
    &&& forall|j: int, k: int|
        #![trigger s[k], matches_at(query, keys, j)]
        0 <= j < n && matches_at(query, keys, j) && !firsts(s).contains(j as usize) && 0 <= k
            < s.len() ==> outranks(query, keys, s[k].0 as int, j)
}

/// Positions of the keys that match `query`, best first, at most `cap` of them: the
/// ranking that `is_fuzzy_ranking` describes. Keys are limited to `u32::MAX` bytes and
/// the query to 65536 spaces, the bounds within which the matcher neither panics nor
/// overflows.
pub fn fuzzy_rank(query: &str, keys: &[&str], cap: usize) -> (r: Vec<usize>)
    requires
        space_count(query@) <= 65536,
        forall|j: int| 0 <= j < keys@.len() ==> utf8_len((#[trigger] keys@[j])@) <= u32::MAX,
    ensures
        is_fuzzy_ranking(query@, key_texts(keys@), cap as nat, r@),
{
    let ghost texts = key_texts(keys@);
    let pattern = FuzzyQuery::new(query);
    let mut matcher = new_matcher();
    let mut ranked: Vec<(usize, u32)> = Vec::new();
    let mut j: usize = 0;
    while j < keys.len()
        invariant
            j <= keys@.len(),
            texts == key_texts(keys@),
            pattern@ == query@,
            space_count(query@) <= 65536,
            forall|i: int| 0 <= i < keys@.len() ==> utf8_len((#[trigger] keys@[i])@) <= u32::MAX,
            partial_ranking(query@, texts, cap as nat, j as int, ranked@),
        decreases keys.len() - j,
    {
        let key: &str = keys[j];
        match pattern_score(&pattern, key, &mut matcher) {
            Some(score) => {
                assert(texts[j as int] == key@);
                proof {
                    lemma_sorted_scores(query@, texts, cap as nat, j as int, ranked@);
                }
                let pos = insertion_point(&ranked, score);
                if pos < cap {
                    let ghost old_ranked = ranked@;
                    ranked.insert(pos, (j, score));
                    if ranked.len() > cap {
                        ranked.pop();
                    }
                    proof {
                        lemma_insert_keeps_ranking(
                            query@,
                            texts,
                            cap as nat,
                            j as int,
                            old_ranked,
                            pos as int,
                            score,
                            ranked@,
                        );
                    }
                } else {
                    proof {
                        lemma_skip_keeps_ranking(
                            query@,
                            texts,
                            cap as nat,
                            j as int,
                            ranked@,
                            score,
                        );
                    }
                }
            },
            None => {
                proof {
                    assert(texts[j as int] == key@);
                    lemma_nonmatch_keeps_ranking(query@, texts, cap as nat, j as int, ranked@);
                }
            },
        }
        j = j + 1;
    }
    let mut out: Vec<usize> = Vec::new();
    let mut k: usize = 0;
    while k < ranked.len()
        invariant
            k <= ranked@.len(),
            out@ =~= firsts(ranked@).take(k as int),
        decreases ranked.len() - k,
    {
        out.push(ranked[k].0);
        k = k + 1;
    }
    proof {
        assert(out@ =~= firsts(ranked@));
        assert(texts.len() == keys@.len());
        lemma_partial_is_ranking(query@, texts, cap as nat, ranked@);
    }
    out
}

/// The number of leading entries whose score is at least `score`.
fn insertion_point(ranked: &Vec<(usize, u32)>, score: u32) -> (pos: usize)
    requires
        forall|a: int, b: int| 0 <= a < b < ranked@.len() ==> ranked@[a].1 >= ranked@[b].1,
    ensures
        pos <= ranked@.len(),
        forall|k: int| 0 <= k < pos ==> ranked@[k].1 >= score,
        forall|k: int| pos <= k < ranked@.len() ==> ranked@[k].1 < score,
{
    let mut lo: usize = 0;
    let mut hi: usize = ranked.len();
    while lo < hi
        invariant
            lo <= hi <= ranked@.len(),
            forall|a: int, b: int| 0 <= a < b < ranked@.len() ==> ranked@[a].1 >= ranked@[b].1,
            forall|k: int| 0 <= k < lo ==> ranked@[k].1 >= score,
            forall|k: int| hi <= k < ranked@.len() ==> ranked@[k].1 < score,
        decreases hi - lo,
    {
        let mid: usize = lo + (hi - lo) / 2;
        if ranked[mid].1 >= score {
            lo = mid + 1;
        } else {
            hi = mid;
        }
    }
    lo
}

proof fn lemma_sorted_scores(
    query: Seq<char>,
    keys: Seq<Seq<char>>,
    cap: nat,
    n: int,
    s: Seq<(usize, u32)>,
)
    requires
        partial_ranking(query, keys, cap, n, s),
    ensures
        forall|a: int, b: int| 0 <= a < b < s.len() ==> s[a].1 >= s[b].1,
{
    assert forall|a: int, b: int| 0 <= a < b < s.len() implies s[a].1 >= s[b].1 by {
        assert(outranks(query, keys, s[a].0 as int, s[b].0 as int));
    }
}

proof fn lemma_nonmatch_keeps_ranking(
    query: Seq<char>,
    keys: Seq<Seq<char>>,
    cap: nat,
    n: int,
    s: Seq<(usize, u32)>,
)
    requires
        partial_ranking(query, keys, cap, n, s),
        0 <= n < keys.len(),
        nucleo_score(query, keys[n]) is None,
    ensures
        partial_ranking(query, keys, cap, n + 1, s),
{
}

proof fn lemma_skip_keeps_ranking(
    query: Seq<char>,
    keys: Seq<Seq<char>>,
    cap: nat,
    n: int,
    s: Seq<(usize, u32)>,
    score: u32,
)
    requires
        partial_ranking(query, keys, cap, n, s),
        0 <= n < keys.len(),
        nucleo_score(query, keys[n]) == Some(score),
        s.len() >= cap,
        forall|k: int| 0 <= k < s.len() ==> s[k].1 >= score,
    ensures
        partial_ranking(query, keys, cap, n + 1, s),
{
    assert forall|j: int, k: int|
        0 <= j < n + 1 && matches_at(query, keys, j) && !firsts(s).contains(j as usize) && 0 <= k
            < s.len() implies outranks(query, keys, s[k].0 as int, j) by {
        if j == n {
            assert(s[k].0 < n);
        }
    }
}

proof fn lemma_insert_keeps_ranking(
    query: Seq<char>,
    keys: Seq<Seq<char>>,
    cap: nat,
    n: int,
    s: Seq<(usize, u32)>,
    pos: int,
    score: u32,
    t: Seq<(usize, u32)>,
)
    requires
        partial_ranking(query, keys, cap, n, s),
        0 <= n < keys.len(),
        n <= usize::MAX,
        nucleo_score(query, keys[n]) == Some(score),
        0 <= pos <= s.len(),
        pos < cap,
        forall|k: int| 0 <= k < pos ==> s[k].1 >= score,
        forall|k: int| pos <= k < s.len() ==> s[k].1 < score,
        ({
            let u = s.insert(pos, (n as usize, score));
            if u.len() > cap {
                t == u.subrange(0, u.len() - 1)
            } else {
                t == u
            }
        }),
    ensures
        partial_ranking(query, keys, cap, n + 1, t),
{
    let u = s.insert(pos, (n as usize, score));
    let e = (n as usize, score);
    // The list with the new entry, before any cut, is still in ranking order.
    assert forall|k: int| 0 <= k < u.len() implies {
        &&& matches_at(query, keys, #[trigger] u[k].0 as int)
        &&& u[k].0 < n + 1
        &&& nucleo_score(query, keys[u[k].0 as int]) == Some(u[k].1)
    } by {
        if k < pos {
            assert(u[k] == s[k]);
        } else if k > pos {
            assert(u[k] == s[k - 1]);
        }
    }
    assert forall|a: int, b: int| 0 <= a < b < u.len() implies outranks(
        query,
        keys,
        #[trigger] u[a].0 as int,
        #[trigger] u[b].0 as int,
    ) by {
        if a < pos && b < pos {
            assert(u[a] == s[a] && u[b] == s[b]);
        } else if a < pos && b == pos {
            assert(u[a] == s[a]);
        } else if a < pos && b > pos {
            assert(u[a] == s[a] && u[b] == s[b - 1]);
        } else if a == pos {
            assert(u[b] == s[b - 1]);
        } else {
            assert(u[a] == s[a - 1] && u[b] == s[b - 1]);
        }
    }
    // Every entry of `s` is still listed in `u`.
    assert forall|j: usize| #[trigger] firsts(s).contains(j) implies firsts(u).contains(j) by {
        let k = choose|k: int| 0 <= k < firsts(s).len() && firsts(s)[k] == j;
        if k < pos {
            assert(firsts(u)[k] == j);
        } else {
            assert(firsts(u)[k + 1] == j);
        }
    }
    assert(firsts(u)[pos] == n as usize);
    if u.len() > cap {
        // The cut drops the last entry, which every kept entry outranks.
        assert(s.len() == cap);
        let last = u[u.len() - 1];
        assert forall|k: int| 0 <= k < t.len() implies {
            &&& matches_at(query, keys, #[trigger] t[k].0 as int)
            &&& t[k].0 < n + 1
            &&& nucleo_score(query, keys[t[k].0 as int]) == Some(t[k].1)
        } by {
            assert(t[k] == u[k]);
        }
        assert forall|a: int, b: int| 0 <= a < b < t.len() implies outranks(
            query,
            keys,
            #[trigger] t[a].0 as int,
            #[trigger] t[b].0 as int,
        ) by {
            assert(t[a] == u[a] && t[b] == u[b]);
        }
        assert forall|j: int, k: int|
            0 <= j < n + 1 && matches_at(query, keys, j) && !firsts(t).contains(j as usize) && 0
                <= k < t.len() implies outranks(query, keys, t[k].0 as int, j) by {
            assert(t[k] == u[k]);
            if firsts(u).contains(j as usize) {
                // j was the entry cut off.
                let m = choose|m: int| 0 <= m < firsts(u).len() && firsts(u)[m] == j as usize;
                if m < t.len() {
                    assert(firsts(t)[m] == j as usize);
                }
                assert(m == u.len() - 1);
                assert(outranks(query, keys, u[k].0 as int, u[m].0 as int));
            } else {
                // j was left out before: the old last entry outranks it, and every kept
                // entry outranks or is that old last entry... or the new one, which
                // outranks the old last entry.
                assert(!firsts(s).contains(j as usize));
                assert(j != n);
                let old_last: int = s.len() - 1;
                assert(outranks(query, keys, s[old_last].0 as int, j));
                assert(u[old_last + 1] == s[old_last]);
                if k != old_last + 1 {
                    assert(outranks(query, keys, u[k].0 as int, u[old_last + 1].0 as int));
                }
            }
        }
        assert(t.len() <= cap);
    } else {
        assert(t == u);
        assert forall|j: int|
            0 <= j < n + 1 && matches_at(query, keys, j) && u.len() < cap implies firsts(
            u,
        ).contains(j as usize) by {
            if j < n {
                assert(firsts(s).contains(j as usize));
            }
        }
        assert forall|j: int, k: int|
            0 <= j < n + 1 && matches_at(query, keys, j) && !firsts(u).contains(j as usize) && 0
                <= k < u.len() implies outranks(query, keys, u[k].0 as int, j) by {
            assert(j != n);
            assert(!firsts(s).contains(j as usize));
            assert(s.len() == cap) by {
                if s.len() < cap {
                    assert(firsts(s).contains(j as usize));
                }
            }
        }
    }
}

proof fn lemma_partial_is_ranking(
    query: Seq<char>,
    keys: Seq<Seq<char>>,
    cap: nat,
    s: Seq<(usize, u32)>,
)
    requires
        partial_ranking(query, keys, cap, keys.len() as int, s),
    ensures
        is_fuzzy_ranking(query, keys, cap, firsts(s)),
{
    let r = firsts(s);
    assert forall|k: int| 0 <= k < r.len() implies matches_at(query, keys, #[trigger] r[k] as int) by {
        assert(r[k] == s[k].0);
    }
    assert forall|a: int, b: int| 0 <= a < b < r.len() implies outranks(
        query,
        keys,
        #[trigger] r[a] as int,
        #[trigger] r[b] as int,
    ) by {
        assert(r[a] == s[a].0 && r[b] == s[b].0);
    }
    assert forall|j: int, k: int|
        matches_at(query, keys, j) && !r.contains(j as usize) && 0 <= k < r.len() implies outranks(
        query,
        keys,
        r[k] as int,
        j,
    ) by {
        assert(r[k] == s[k].0);
    }
}

proof fn lemma_rankings_agree_upto(
    query: Seq<char>,
    keys: Seq<Seq<char>>,
    cap: nat,
    r1: Seq<usize>,
    r2: Seq<usize>,
    k: int,
)
    requires
        is_fuzzy_ranking(query, keys, cap, r1),
        is_fuzzy_ranking(query, keys, cap, r2),
        0 <= k <= r1.len(),
        k <= r2.len(),
    ensures
        forall|m: int| 0 <= m < k ==> r1[m] == r2[m],
    decreases k,
{
    if k > 0 {
        lemma_rankings_agree_upto(query, keys, cap, r1, r2, k - 1);
        let i = k - 1;
        let a = r1[i];
        let b = r2[i];
        if a != b {
            assert(matches_at(query, keys, a as int));
            assert(matches_at(query, keys, b as int));
            // Where either lists the other's entry, it lists it later.
            if r2.contains(a) {
                let m = choose|m: int| 0 <= m < r2.len() && r2[m] == a;
                if m < i {
                    assert(r1[m] == a);
                    assert(outranks(query, keys, r1[m] as int, r1[i] as int));
                }
                assert(m != i);
                if m > i {
                    assert(outranks(query, keys, r2[i] as int, r2[m] as int));
                }
            } else {
                assert(outranks(query, keys, r2[i] as int, a as int));
            }
            // Now b ranks before a.
            assert(outranks(query, keys, b as int, a as int));
            if r1.contains(b) {
                let m = choose|m: int| 0 <= m < r1.len() && r1[m] == b;
                if m < i {
                    assert(r2[m] == b);
                    assert(outranks(query, keys, r2[m] as int, r2[i] as int));
                }
                assert(m != i);
                if m > i {
                    assert(outranks(query, keys, r1[i] as int, r1[m] as int));
                }
            } else {
                assert(outranks(query, keys, r1[i] as int, b as int));
            }
            assert(false);
        }
    }
}

/// The ranking of keys against a query is determined: two lists that both meet
/// `is_fuzzy_ranking` for the same query, keys and cap are the same list.
pub proof fn law_fuzzy_ranking_unique(
    query: Seq<char>,
    keys: Seq<Seq<char>>,
    cap: nat,
    r1: Seq<usize>,
    r2: Seq<usize>,
)
    requires
        is_fuzzy_ranking(query, keys, cap, r1),
        is_fuzzy_ranking(query, keys, cap, r2),
    ensures
        r1 == r2,
{
    let n = if r1.len() < r2.len() { r1.len() } else { r2.len() };
    lemma_rankings_agree_upto(query, keys, cap, r1, r2, n as int);
    if r1.len() < r2.len() {
        let x = r2[r1.len() as int];
        assert(matches_at(query, keys, x as int));
        assert(r1.contains(x));
        let p = choose|p: int| 0 <= p < r1.len() && r1[p] == x;
        assert(r2[p] == x);
        assert(outranks(query, keys, r2[p] as int, r2[r1.len() as int] as int));
    } else if r2.len() < r1.len() {
        let x = r1[r2.len() as int];
        assert(matches_at(query, keys, x as int));
        assert(r2.contains(x));
        let p = choose|p: int| 0 <= p < r2.len() && r2[p] == x;
        assert(r1[p] == x);
        assert(outranks(query, keys, r1[p] as int, r1[r2.len() as int] as int));
    }
    assert(r1 =~= r2);
}

} // verus!
