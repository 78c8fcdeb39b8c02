//! Ranking the catalog against a search query: literal substring matches
//! win over fuzzy ones, prefix matches on the name can be pinned first, and
//! weak fuzzy matches are pruned.
use vstd::prelude::*;
use fuzzy_matcher::FuzzyMatcher;
use crate::entry::{name_keywords_of, push_keywords, App};
use crate::text::{lower_of, lowercase, str_views, to_chars};

verus! {

/// Whether `pat` occurs in `text` at position `k`.
pub open spec fn infix_at(text: Seq<char>, pat: Seq<char>, k: int) -> bool {
    0 <= k && k + pat.len() <= text.len() && text.subrange(k, k + pat.len()) == pat
}

/// Whether `pat` occurs somewhere in `text`.
pub open spec fn has_infix(text: Seq<char>, pat: Seq<char>) -> bool {
    exists|k: int| infix_at(text, pat, k)
}

/// Whether `text` starts with `pat`.
pub open spec fn has_prefix(text: Seq<char>, pat: Seq<char>) -> bool {
    infix_at(text, pat, 0)
}

fn matches_at(text: &Vec<char>, pat: &Vec<char>, k: usize) -> (r: bool)
    requires
        k + pat@.len() <= text@.len(),
    ensures
        r == infix_at(text@, pat@, k as int),
{
    let tl = text.len();
    let mut j: usize = 0;
    while j < pat.len()
        invariant
            tl == text@.len(),
            k + pat@.len() <= text@.len(),
            j <= pat@.len(),
            forall|q: int| 0 <= q < j ==> text@[k + q] == pat@[q],
        decreases pat@.len() - j,
    {
        if text[k + j] != pat[j] {
            assert(text@.subrange(k as int, k + pat@.len())[j as int] != pat@[j as int]);
            return false;
        }
        j = j + 1;
    }
    assert(text@.subrange(k as int, k + pat@.len()) =~= pat@);
    true
}

/// Whether `pat` occurs in `text`.
pub fn contains_chars(text: &Vec<char>, pat: &Vec<char>) -> (r: bool)
    ensures
        r == has_infix(text@, pat@),
{
    if pat.len() > text.len() {
        return false;
    }
    let last = text.len() - pat.len();
    let mut k: usize = 0;
    loop
        invariant
            last == text@.len() - pat@.len(),
            k <= last,
            forall|q: int| 0 <= q < k ==> !infix_at(text@, pat@, q),
        decreases last - k,
    {
        if matches_at(text, pat, k) {
            return true;
        }
        if k == last {
            return false;
        }
        k = k + 1;
    }
}

/// Whether `text` starts with `pat`.
pub fn starts_with_chars(text: &Vec<char>, pat: &Vec<char>) -> (r: bool)
    ensures
        r == has_prefix(text@, pat@),
{
    if pat.len() > text.len() {
        false
    } else {
        matches_at(text, pat, 0)
    }
}


/// Per-entry text prepared once per catalog: the lowercase name, the name
/// followed by the keywords, and that text in lowercase.
pub struct SearchIndex {
    pub names_lower: Vec<Vec<char>>,
    pub texts: Vec<String>,
    pub texts_lower: Vec<Vec<char>>,
}

/// The ranking settings.
#[derive(Debug, Clone, Copy)]
pub struct RankConfig {
    /// How many catalog entries an empty query shows.
    pub initial_results: usize,
    /// The most results a non-empty query returns.
    pub max_results: usize,
    /// Fuzzy matches scoring below this are dropped.
    pub min_score: i64,
    /// Fuzzy matches scoring below this many millionths of the best score
    /// are dropped; values above one million count as one million.
    pub score_threshold_ppm: u32,
    /// Whether entries whose name starts with the query come first.
    pub prefer_prefix: bool,
}

/// The millionths in a whole.
pub const PPM_SCALE: u32 = 1000000;

impl SearchIndex {
    /// The three per-entry lists have one item per entry.
    pub open spec fn wf(&self) -> bool {
        &&& self.texts_lower@.len() == self.texts@.len()
        &&& self.names_lower@.len() == self.texts@.len()
    }

    /// The number of entries.
    pub open spec fn count(&self) -> nat {
        self.texts@.len()
    }

    /// Builds the index of a catalog.
    pub fn new(apps: &Vec<App>) -> (r: SearchIndex)
        ensures
            r.wf(),
            r.count() == apps@.len(),
            forall|i: int|
                0 <= i < apps@.len() ==> {
                    &&& (#[trigger] r.names_lower@[i])@ == lower_of(apps@[i].name@)
                    &&& r.texts@[i]@ == name_keywords_of(apps@[i].name@, str_views(apps@[i].keywords@))
                    &&& r.texts_lower@[i]@ == lower_of(r.texts@[i]@)
                },
    {
        let mut names_lower: Vec<Vec<char>> = Vec::new();
        let mut texts: Vec<String> = Vec::new();
        let mut texts_lower: Vec<Vec<char>> = Vec::new();
        let mut i: usize = 0;
        while i < apps.len()
            invariant
                i <= apps@.len(),
                names_lower@.len() == i,
                texts@.len() == i,
                texts_lower@.len() == i,
                forall|q: int|
                    0 <= q < i ==> {
                        &&& (#[trigger] names_lower@[q])@ == lower_of(apps@[q].name@)
                        &&& texts@[q]@ == name_keywords_of(apps@[q].name@, str_views(apps@[q].keywords@))
                        &&& texts_lower@[q]@ == lower_of(texts@[q]@)
                    },
            decreases apps@.len() - i,
        {
            let app = &apps[i];
            let lname = lowercase(app.name.as_str());
            names_lower.push(to_chars(lname.as_str()));
            let mut text = app.name.clone();
            push_keywords(&mut text, &app.keywords);
            let ltext = lowercase(text.as_str());
            texts_lower.push(to_chars(ltext.as_str()));
            texts.push(text);
            i = i + 1;
        }
        SearchIndex { names_lower, texts, texts_lower }
    }
}

/// Whether some entry's lowercase text holds the lowercase query, which
/// counts only for queries of two characters or more.
pub open spec fn substring_mode(index: SearchIndex, ql: Seq<char>, qlen: nat) -> bool {
    qlen >= 2 && exists|i: int|
        0 <= i < index.count() && #[trigger] has_infix(index.texts_lower@[i]@, ql)
}

/// The highest score at least `min`, if any.
pub open spec fn best_above(scores: Seq<Option<i64>>, min: i64) -> Option<i64>
    decreases scores.len(),
{
    if scores.len() == 0 {
        None
    } else {
        let rest = best_above(scores.drop_last(), min);
        match scores.last() {
            Some(s) => if s < min {
                rest
            } else {
                match rest {
                    Some(b) => Some(if b < s {
                        s
                    } else {
                        b
                    }),
                    None => Some(s),
                }
            },
            None => rest,
        }
    }
}

/// `p / d` rounded toward zero.
pub open spec fn trunc_div(p: int, d: int) -> int {
    if p >= 0 {
        p / d
    } else {
        -((-p) / d)
    }
}

/// `best` scaled by the threshold clamped to one whole, toward zero.
pub open spec fn cutoff(best: i64, ppm: u32) -> int {
    let t: int = if ppm > PPM_SCALE {
        PPM_SCALE as int
    } else {
        ppm as int
    };
    trunc_div(best * t, PPM_SCALE as int)
}

/// Whether entry `i` is a result before truncation. In substring mode the
/// entries whose text holds the query; otherwise those with a fuzzy score,
/// which for a query of two characters or more must reach both `min_score`
/// and the cutoff derived from the best such score.
pub open spec fn is_candidate(
    index: SearchIndex,
    ql: Seq<char>,
    qlen: nat,
    scores: Seq<Option<i64>>,
    cfg: RankConfig,
    i: int,
) -> bool {
    if substring_mode(index, ql, qlen) {
        has_infix(index.texts_lower@[i]@, ql)
    } else {
        match scores[i] {
            None => false,
            Some(s) => qlen >= 2 ==> (s >= cfg.min_score && s >= cutoff(
                best_above(scores, cfg.min_score)->0,
                cfg.score_threshold_ppm,
            )),
        }
    }
}

/// The score an entry is sorted by: its fuzzy score, or zero without one.
pub open spec fn sort_score(scores: Seq<Option<i64>>, i: int) -> i64 {
    match scores[i] {
        Some(s) => s,
        None => 0,
    }
}

/// Whether entry `i` is pinned as a name-prefix match.
pub open spec fn prefix_flag(index: SearchIndex, ql: Seq<char>, cfg: RankConfig, i: int) -> bool {
    cfg.prefer_prefix && has_prefix(index.names_lower@[i]@, ql)
}

/// Whether entry `i` ranks above entry `j`: pinned prefix matches first,
/// then higher scores, then catalog order.
pub open spec fn ranks_before(
    index: SearchIndex,
    ql: Seq<char>,
    scores: Seq<Option<i64>>,
    cfg: RankConfig,
    i: int,
    j: int,
) -> bool {
    let pi = prefix_flag(index, ql, cfg, i);
    let pj = prefix_flag(index, ql, cfg, j);
    let si = sort_score(scores, i);
    let sj = sort_score(scores, j);
    (pi && !pj) || (pi == pj && (si > sj || (si == sj && i < j)))
}

/// The first `k` catalog positions, in order.
pub open spec fn first_positions(k: nat) -> Seq<usize> {
    Seq::new(k, |i: int| i as usize)
}

/// `r` is the ranking of the entries for the lowercase query `ql` of `qlen`
/// characters and the fuzzy `scores`: for an empty query the first
/// `initial_results` positions; otherwise the candidates best first, cut
/// to `max_results`, so that a candidate left out is ranked below every
/// result and the list is full.
pub open spec fn is_ranking(
    index: SearchIndex,
    ql: Seq<char>,
    qlen: nat,
    scores: Seq<Option<i64>>,
    cfg: RankConfig,
    r: Seq<usize>,
) -> bool {
    if qlen == 0 {
        r == first_positions(
            if cfg.initial_results < index.count() {
                cfg.initial_results as nat
            } else {
                index.count()
            },
        )
    } else {
        &&& r.len() <= cfg.max_results
        &&& forall|k: int|
            0 <= k < r.len() ==> #[trigger] r[k] < index.count() && is_candidate(
                index,
                ql,
                qlen,
                scores,
                cfg,
                r[k] as int,
            )
        &&& forall|a: int, b: int|
            0 <= a < b < r.len() ==> ranks_before(
                index,
                ql,
                scores,
                cfg,
                #[trigger] r[a] as int,
                #[trigger] r[b] as int,
            )
        &&& forall|i: int|
            0 <= i < index.count() && #[trigger] is_candidate(index, ql, qlen, scores, cfg, i) && (
            forall|k: int| 0 <= k < r.len() ==> r[k] != i) ==> r.len() == cfg.max_results && (
            forall|k: int|
                0 <= k < r.len() ==> ranks_before(index, ql, scores, cfg, #[trigger] r[k] as int, i))
    }
}


fn first_indices(k: usize) -> (r: Vec<usize>)
    ensures
        r@ == first_positions(k as nat),
{
    let mut r: Vec<usize> = Vec::new();
    let mut i: usize = 0;
    while i < k
        invariant
            i <= k,
            r@ == first_positions(i as nat),
        decreases k - i,
    {
        r.push(i);
        assert(r@ =~= first_positions((i + 1) as nat));
        i = i + 1;
    }
    r
}

fn any_text_holds(index: &SearchIndex, ql: &Vec<char>) -> (r: bool)
    requires
        index.wf(),
    ensures
        r == exists|i: int| 0 <= i < index.count() && #[trigger] has_infix(index.texts_lower@[i]@, ql@),
{
    let mut i: usize = 0;
    while i < index.texts_lower.len()
        invariant
            index.wf(),
            i <= index.count(),
            forall|q: int| 0 <= q < i ==> !#[trigger] has_infix(index.texts_lower@[q]@, ql@),
        decreases index.count() - i,
    {
        if contains_chars(&index.texts_lower[i], ql) {
            return true;
        }
        i = i + 1;
    }
    false
}

fn best_score_above(scores: &Vec<Option<i64>>, min: i64) -> (r: Option<i64>)
    ensures
        r == best_above(scores@, min),
{
    let mut best: Option<i64> = None;
    let mut i: usize = 0;
    assert(scores@.subrange(0, 0) =~= Seq::<Option<i64>>::empty());
    while i < scores.len()
        invariant
            i <= scores@.len(),
            best == best_above(scores@.subrange(0, i as int), min),
        decreases scores@.len() - i,
    {
        assert(scores@.subrange(0, i + 1).drop_last() =~= scores@.subrange(0, i as int));
        assert(scores@.subrange(0, i + 1).last() == scores@[i as int]);
        match scores[i] {
            Some(s) => {
                if s >= min {
                    best = match best {
                        Some(b) => Some(if b < s {
                            s
                        } else {
                            b
                        }),
                        None => Some(s),
                    };
                }
            },
            None => {},
        }
        i = i + 1;
    }
    assert(scores@.subrange(0, scores@.len() as int) =~= scores@);
    best
}

/// `best` scaled by a threshold in millionths, clamped to one whole and
/// rounded toward zero.
pub fn cutoff_score(best: i64, ppm: u32) -> (r: i64)
    ensures
        r == cutoff(best, ppm),
{
    let t: i128 = if ppm > PPM_SCALE {
        PPM_SCALE as i128
    } else {
        ppm as i128
    };
    let b: i128 = best as i128;
    assert(-9223372036854775808 * 1000000 <= b * t <= 9223372036854775807 * 1000000)
        by (nonlinear_arith)
        requires
            -9223372036854775808 <= b <= 9223372036854775807,
            0 <= t <= 1000000,
    ;
    let p: i128 = b * t;
    if p >= 0 {
        let c = p / 1000000;
        assert(0 <= c <= 9223372036854775807) by (nonlinear_arith)
            requires
                0 <= p <= 9223372036854775807 * 1000000,
                c == p / 1000000,
        ;
        c as i64
    } else {
        let c = (-p) / 1000000;
        assert(0 <= c <= 9223372036854775808) by (nonlinear_arith)
            requires
                0 < -p <= 9223372036854775808 * 1000000,
                c == (-p) / 1000000,
        ;
        (-c) as i64
    }
}


/// A score at least `min` makes the best such score exist and reach it.
pub proof fn lemma_best_above_reaches(scores: Seq<Option<i64>>, min: i64, i: int)
    requires
        0 <= i < scores.len(),
        scores[i] matches Some(s) && s >= min,
    ensures
        best_above(scores, min) matches Some(b) && b >= scores[i]->0,
    decreases scores.len(),
{
    if i < scores.len() - 1 {
        lemma_best_above_reaches(scores.drop_last(), min, i);
    }
}

/// Ranks the entries of `index` for a query, given the query in lowercase
/// characters, its length in characters, and each entry's fuzzy score.
pub fn rank_scored(
    index: &SearchIndex,
    query_lower: &Vec<char>,
    query_len: usize,
    scores: &Vec<Option<i64>>,
    config: &RankConfig,
) -> (r: Vec<usize>)
    requires
        index.wf(),
        scores@.len() == index.count(),
    ensures
        is_ranking(*index, query_lower@, query_len as nat, scores@, *config, r@),
{
    let n = index.texts.len();
    if query_len == 0 {
        let k = if config.initial_results < n {
            config.initial_results
        } else {
            n
        };
        return first_indices(k);
    }
    let ghost ql = query_lower@;
    let ghost qlen = query_len as nat;
    let ghost sc = scores@;
    let ghost cfg = *config;
    let ghost idx = *index;
    let sub = query_len >= 2 && any_text_holds(index, query_lower);
    let best = best_score_above(scores, config.min_score);
    let cut: i64 = match best {
        Some(b) => cutoff_score(b, config.score_threshold_ppm),
        None => 0,
    };
    let mut sorted: Vec<usize> = Vec::new();
    let mut flags: Vec<bool> = Vec::new();
    let mut keys: Vec<i64> = Vec::new();
    let mut i: usize = 0;
    while i < n
        invariant
            n == idx.count(),
            idx == *index,
            idx.wf(),
            sc == scores@,
            cfg == *config,
            ql == query_lower@,
            qlen == query_len,
            qlen > 0,
            sc.len() == n,
            sub == substring_mode(idx, ql, qlen),
            best == best_above(sc, cfg.min_score),
            best is Some ==> cut == cutoff(best->0, cfg.score_threshold_ppm),
            i <= n,
            flags@.len() == sorted@.len(),
            keys@.len() == sorted@.len(),
            forall|k: int|
                0 <= k < sorted@.len() ==> #[trigger] sorted@[k] < i && is_candidate(
                    idx,
                    ql,
                    qlen,
                    sc,
                    cfg,
                    sorted@[k] as int,
                ),
            forall|k: int|
                0 <= k < sorted@.len() ==> #[trigger] flags@[k] == prefix_flag(
                    idx,
                    ql,
                    cfg,
                    sorted@[k] as int,
                ) && keys@[k] == sort_score(sc, sorted@[k] as int),
            forall|a: int, b: int|
                0 <= a < b < sorted@.len() ==> ranks_before(
                    idx,
                    ql,
                    sc,
                    cfg,
                    #[trigger] sorted@[a] as int,
                    #[trigger] sorted@[b] as int,
                ),
            forall|x: int|
                0 <= x < i && #[trigger] is_candidate(idx, ql, qlen, sc, cfg, x) ==> exists|t: int|
                    0 <= t < sorted@.len() && sorted@[t] == x,
        decreases n - i,
    {
        let cand: bool = if sub {
            contains_chars(&index.texts_lower[i], query_lower)
        } else {
            match scores[i] {
                None => false,
                Some(s) => query_len < 2 || (s >= config.min_score && s >= cut),
            }
        };
        proof {
            if !sub && query_len >= 2 {
                if let Some(s) = sc[i as int] {
                    if s >= cfg.min_score {
                        lemma_best_above_reaches(sc, cfg.min_score, i as int);
                    }
                }
            }
        }
        assert(cand == is_candidate(idx, ql, qlen, sc, cfg, i as int));
        if cand {
            let pf = config.prefer_prefix && starts_with_chars(&index.names_lower[i], query_lower);
            let key: i64 = match scores[i] {
                Some(s) => s,
                None => 0,
            };
            assert(pf == prefix_flag(idx, ql, cfg, i as int));
            assert(key == sort_score(sc, i as int));
            let len = sorted.len();
            let mut p: usize = 0;
            loop
                invariant
                    p <= len,
                    len == sorted@.len(),
                    flags@.len() == len,
                    keys@.len() == len,
                    forall|q: int|
                        0 <= q < p ==> !((pf && !#[trigger] flags@[q]) || (pf == flags@[q] && key
                            > keys@[q])),
                ensures
                    p <= len,
                    forall|q: int|
                        0 <= q < p ==> !((pf && !#[trigger] flags@[q]) || (pf == flags@[q] && key
                            > keys@[q])),
                    p < len ==> ((pf && !flags@[p as int]) || (pf == flags@[p as int] && key
                        > keys@[p as int])),
                decreases len - p,
            {
                if p == len {
                    break;
                }
                if (pf && !flags[p]) || (pf == flags[p] && key > keys[p]) {
                    break;
                }
                p = p + 1;
            }
            let ghost old_sorted = sorted@;
            let ghost old_flags = flags@;
            let ghost old_keys = keys@;
            sorted.insert(p, i);
            flags.insert(p, pf);
            keys.insert(p, key);
            proof {
                assert forall|k: int| 0 <= k < sorted@.len() implies #[trigger] flags@[k]
                    == prefix_flag(idx, ql, cfg, sorted@[k] as int) && keys@[k] == sort_score(
                    sc,
                    sorted@[k] as int,
                ) by {
                    if k < p {
                        assert(old_flags[k] == prefix_flag(idx, ql, cfg, old_sorted[k] as int));
                    } else if k > p {
                        assert(old_flags[k - 1] == prefix_flag(idx, ql, cfg, old_sorted[k - 1] as int));
                    }
                }
                assert forall|a: int, b: int| 0 <= a < b < sorted@.len() implies ranks_before(
                    idx,
                    ql,
                    sc,
                    cfg,
                    #[trigger] sorted@[a] as int,
                    #[trigger] sorted@[b] as int,
                ) by {
                    if b < p {
                        assert(ranks_before(idx, ql, sc, cfg, old_sorted[a] as int, old_sorted[b] as int));
                    } else if b == p {
                        assert(old_flags[a] == prefix_flag(idx, ql, cfg, old_sorted[a] as int));
                        assert(old_sorted[a] < i);
                    } else if a < p {
                        assert(ranks_before(idx, ql, sc, cfg, old_sorted[a] as int, old_sorted[b - 1] as int));
                    } else if a == p {
                        assert(old_flags[p as int] == prefix_flag(idx, ql, cfg, old_sorted[p as int] as int));
                        assert(old_flags[b - 1] == prefix_flag(idx, ql, cfg, old_sorted[b - 1] as int));
                        if b - 1 > p {
                            assert(ranks_before(idx, ql, sc, cfg, old_sorted[p as int] as int, old_sorted[b - 1] as int));
                        }
                    } else {
                        assert(ranks_before(idx, ql, sc, cfg, old_sorted[a - 1] as int, old_sorted[b - 1] as int));
                    }
                }
                assert forall|x: int|
                    0 <= x < i + 1 && #[trigger] is_candidate(idx, ql, qlen, sc, cfg, x) implies exists|t: int|
                    0 <= t < sorted@.len() && sorted@[t] == x by {
                    if x == i {
                        assert(sorted@[p as int] == x);
                    } else {
                        let t = choose|t: int| 0 <= t < old_sorted.len() && old_sorted[t] == x;
                        if t < p {
                            assert(sorted@[t] == x);
                        } else {
                            assert(sorted@[t + 1] == x);
                        }
                    }
                }
            }
        }
        i = i + 1;
    }
    let ghost full = sorted@;
    sorted.truncate(config.max_results);
    proof {
        assert forall|x: int|
            0 <= x < idx.count() && #[trigger] is_candidate(idx, ql, qlen, sc, cfg, x) && (forall|k: int|
                0 <= k < sorted@.len() ==> sorted@[k] != x) implies sorted@.len() == cfg.max_results
            && (forall|k: int|
            0 <= k < sorted@.len() ==> ranks_before(idx, ql, sc, cfg, #[trigger] sorted@[k] as int, x)) by {
            let t = choose|t: int| 0 <= t < full.len() && full[t] == x;
            if t < sorted@.len() {
                assert(sorted@[t] == x);
            }
            assert forall|k: int| 0 <= k < sorted@.len() implies ranks_before(
                idx,
                ql,
                sc,
                cfg,
                #[trigger] sorted@[k] as int,
                x,
            ) by {
                assert(ranks_before(idx, ql, sc, cfg, full[k] as int, full[t] as int));
            }
        }
    }
    sorted
}


/// What the ranking promises: an empty query shows the first
/// `initial_results` entries in catalog order; in substring mode every
/// result's text holds the query; in fuzzy mode with two characters or more
/// every result has a score reaching `min_score` and the cutoff derived from
/// the best score; and no more than `max_results` come back for a non-empty
/// query, nor for an empty one when `initial_results` is within that bound.
pub proof fn lemma_ranking_laws(
    index: SearchIndex,
    ql: Seq<char>,
    qlen: nat,
    scores: Seq<Option<i64>>,
    cfg: RankConfig,
    r: Seq<usize>,
)
    requires
        is_ranking(index, ql, qlen, scores, cfg, r),
    ensures
        qlen == 0 ==> r == first_positions(
            if cfg.initial_results < index.count() {
                cfg.initial_results as nat
            } else {
                index.count()
            },
        ),
        substring_mode(index, ql, qlen) ==> forall|k: int|
            0 <= k < r.len() ==> has_infix(index.texts_lower@[#[trigger] r[k] as int]@, ql),
        qlen >= 2 && !substring_mode(index, ql, qlen) ==> forall|k: int|
            0 <= k < r.len() ==> (scores[#[trigger] r[k] as int] matches Some(s) && s
                >= cfg.min_score && s >= cutoff(
                best_above(scores, cfg.min_score)->0,
                cfg.score_threshold_ppm,
            )),
        qlen > 0 || cfg.initial_results <= cfg.max_results ==> r.len() <= cfg.max_results,
{
    if qlen > 0 {
        assert forall|k: int| 0 <= k < r.len() implies is_candidate(
            index,
            ql,
            qlen,
            scores,
            cfg,
            #[trigger] r[k] as int,
        ) by {}
    }
}

/// The string without its leading and trailing whitespace.
pub uninterp spec fn trim_of(s: Seq<char>) -> Seq<char>;

/// Relies on `str::trim`: the string with leading and trailing whitespace
/// removed, which depends on its characters alone.
#[verifier::external_body]
fn trim_query(s: &str) -> (r: String)
    ensures
        r@ == trim_of(s@),
{
    s.trim().to_string()
}

/// The score of the skim fuzzy matcher, with default settings, for a
/// pattern within a text; `None` when the pattern does not match.
pub uninterp spec fn skim_score(choice: Seq<char>, pattern: Seq<char>) -> Option<i64>;

/// Relies on `SkimMatcherV2::fuzzy_match` of fuzzy_matcher, default
/// settings: a score, or none when the pattern does not match, that depends
/// on the text and the pattern alone.
#[verifier::external_body]
fn fuzzy_score(choice: &str, pattern: &str) -> (r: Option<i64>)
    ensures
        r == skim_score(choice@, pattern@),
{
    fuzzy_matcher::skim::SkimMatcherV2::default().fuzzy_match(choice, pattern)
}

/// The fuzzy score of each entry's name-and-keywords text for a query.
pub open spec fn fuzzy_scores(index: SearchIndex, q: Seq<char>) -> Seq<Option<i64>> {
    Seq::new(index.count(), |i: int| skim_score(index.texts@[i]@, q))
}

/// Ranks the entries of `index` for a query typed by the user: the query
/// is trimmed, matched in lowercase for substrings and prefixes, and scored
/// by the fuzzy matcher against each entry's name-and-keywords text.
pub fn rank(index: &SearchIndex, query: &str, config: &RankConfig) -> (r: Vec<usize>)
    requires
        index.wf(),
    ensures
        is_ranking(
            *index,
            lower_of(trim_of(query@)),
            trim_of(query@).len(),
            fuzzy_scores(*index, trim_of(query@)),
            *config,
            r@,
        ),
{
    let q = trim_query(query);
    let query_len = q.as_str().unicode_len();
    let ql = lowercase(q.as_str());
    let query_lower = to_chars(ql.as_str());
    let mut scores: Vec<Option<i64>> = Vec::new();
    let n = index.texts.len();
    let mut i: usize = 0;
    if query_len > 0 {
        while i < n
            invariant
                n == index.count(),
                i <= n,
                scores@ == fuzzy_scores(*index, q@).subrange(0, i as int),
            decreases n - i,
        {
            scores.push(fuzzy_score(index.texts[i].as_str(), q.as_str()));
            assert(scores@ =~= fuzzy_scores(*index, q@).subrange(0, i + 1));
            i = i + 1;
        }
        assert(scores@ =~= fuzzy_scores(*index, q@));
        rank_scored(index, &query_lower, query_len, &scores, config)
    } else {
        let k = if config.initial_results < n {
            config.initial_results
        } else {
            n
        };
        first_indices(k)
    }
}

} // verus!
