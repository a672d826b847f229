//! Laws of the index and the query engine, proved once and for all.
//!
//! Each public proof function here states a guarantee of the library
//! over the specification functions that the executable contracts use:
//! rebuilds change nothing, scores rise with term frequency, results
//! are ranked deterministically, and the result length follows the
//! number of matching documents up to the cutoff.

use vstd::prelude::*;
use vstd::arithmetic::mul::lemma_mul_inequality;
use crate::index::docs_model;
use crate::index::term_freq;
use crate::index::Document;
use crate::index::SearchIndex;
use crate::search::best_before;
use crate::search::query_terms;
use crate::search::score;
use crate::search::spec_search;
use crate::search::spec_topk;
use crate::search::term_score;
use crate::search::weight;
use crate::search::TOP_K;
use crate::tokenize::is_alnum;
use crate::tokenize::lemma_tokens_separators;

verus! {

/// Rebuild changes nothing: two indexes over the same documents answer
/// every query with the same ranked results.
pub proof fn lemma_rebuild_same_results(
    a: SearchIndex,
    b: SearchIndex,
    docs: Seq<Document>,
    q: Seq<char>,
)
    requires
        a.model() == docs_model(docs),
        b.model() == docs_model(docs),
    ensures
        spec_search(q, a.model()) == spec_search(q, b.model()),
{
}

/// A query without a single alphanumeric character — empty or whitespace
/// alone — returns no results, whatever the index holds.
pub proof fn lemma_blank_query_empty(q: Seq<char>, docs: Seq<(Seq<char>, Seq<char>)>)
    requires
        forall|i: int| 0 <= i < q.len() ==> !is_alnum(#[trigger] q[i]),
    ensures
        spec_search(q, docs) == Seq::<(Seq<char>, Seq<char>)>::empty(),
{
    lemma_tokens_separators(q);
}

/// Scores rise with term frequency: against the same index statistics, a
/// document holding every query term at least as often as another scores
/// at least as high. In particular one more occurrence of a query term
/// never lowers a document's score.
pub proof fn lemma_score_monotone(
    q: Seq<Seq<char>>,
    docs: Seq<(Seq<char>, Seq<char>)>,
    hi: (Seq<char>, Seq<char>),
    lo: (Seq<char>, Seq<char>),
)
    requires
        forall|x: int| 0 <= x < q.len() ==> term_freq(#[trigger] q[x], lo) <= term_freq(q[x], hi),
    ensures
        score(q, docs, lo) <= score(q, docs, hi),
    decreases q.len(),
{
    if q.len() > 0 {
        let pre = q.drop_last();
        assert forall|x: int| 0 <= x < pre.len() implies term_freq(#[trigger] pre[x], lo)
            <= term_freq(pre[x], hi) by {
            assert(pre[x] == q[x]);
        }
        lemma_score_monotone(pre, docs, hi, lo);
        assert(q[q.len() - 1] == q.last());
        lemma_mul_inequality(
            term_freq(q.last(), lo) as int,
            term_freq(q.last(), hi) as int,
            weight(q.last(), docs) as int,
        );
        assert(term_score(q.last(), docs, lo) <= term_score(q.last(), docs, hi));
    }
}

/// The document index `a` ranks before `b`: its score is higher, or the
/// scores are equal and `a` was indexed earlier.
pub open spec fn ranks_before(
    q: Seq<Seq<char>>,
    docs: Seq<(Seq<char>, Seq<char>)>,
    a: int,
    b: int,
) -> bool {
    ||| score(q, docs, docs[b]) < score(q, docs, docs[a])
    ||| (score(q, docs, docs[a]) == score(q, docs, docs[b]) && a < b)
}

/// The index list `r` is ranked: every earlier entry ranks before every
/// later one.
pub open spec fn ranked(q: Seq<Seq<char>>, docs: Seq<(Seq<char>, Seq<char>)>, r: Seq<int>) -> bool {
    forall|a: int, b: int|
        0 <= a < b < r.len() ==> ranks_before(q, docs, #[trigger] r[a], #[trigger] r[b])
}

/// Where no best candidate exists, every document is excluded or scores
/// nothing.
pub proof fn lemma_best_before_none(
    q: Seq<Seq<char>>,
    docs: Seq<(Seq<char>, Seq<char>)>,
    i: int,
    excl: Seq<int>,
)
    requires
        best_before(q, docs, i, excl) is None,
    ensures
        forall|c: int|
            0 <= c < i ==> excl.contains(c) || score(q, docs, #[trigger] docs[c]) == 0,
    decreases i,
{
    if i > 0 {
        lemma_best_before_none(q, docs, i - 1, excl);
    }
}

/// The best candidate is a not-excluded match, and no other candidate
/// ranks before it.
pub proof fn lemma_best_before_some(
    q: Seq<Seq<char>>,
    docs: Seq<(Seq<char>, Seq<char>)>,
    i: int,
    excl: Seq<int>,
    j: int,
)
    requires
        best_before(q, docs, i, excl) == Some(j),
    ensures
        0 <= j < i,
        !excl.contains(j),
        score(q, docs, docs[j]) > 0,
        forall|c: int|
            0 <= c < i && !excl.contains(c) && score(q, docs, #[trigger] docs[c]) > 0 && c != j
                ==> ranks_before(q, docs, j, c),
    decreases i,
{
    if i > 0 {
        let c0 = i - 1;
        let rest = best_before(q, docs, c0, excl);
        if excl.contains(c0) || score(q, docs, docs[c0]) == 0 {
            lemma_best_before_some(q, docs, c0, excl, j);
        } else {
            match rest {
                None => {
                    lemma_best_before_none(q, docs, c0, excl);
                },
                Some(j0) => {
                    lemma_best_before_some(q, docs, c0, excl, j0);
                },
            }
        }
    }
}

/// A sequence extended by one value holds exactly its old values and the
/// new one.
proof fn lemma_push_contains(s: Seq<int>, j: int, c: int)
    ensures
        s.push(j).contains(c) <==> (s.contains(c) || c == j),
{
    if s.push(j).contains(c) {
        let w = choose|w: int| 0 <= w < s.push(j).len() && s.push(j)[w] == c;
        if w < s.len() {
            assert(s[w] == c);
        }
    }
    if s.contains(c) {
        let w = choose|w: int| 0 <= w < s.len() && s[w] == c;
        assert(s.push(j)[w] == c);
    }
    if c == j {
        assert(s.push(j)[s.len() as int] == c);
    }
}

/// The ranked list holds distinct matching documents, none excluded, and
/// orders them by descending score, earlier-indexed first on a tie.
pub proof fn lemma_topk_ranked(
    q: Seq<Seq<char>>,
    docs: Seq<(Seq<char>, Seq<char>)>,
    excl: Seq<int>,
    k: nat,
)
    ensures
        forall|y: int|
            0 <= y < spec_topk(q, docs, excl, k).len() ==> 0 <= #[trigger] spec_topk(
                q,
                docs,
                excl,
                k,
            )[y] < docs.len() && !excl.contains(spec_topk(q, docs, excl, k)[y]) && score(
                q,
                docs,
                docs[spec_topk(q, docs, excl, k)[y]],
            ) > 0,
        ranked(q, docs, spec_topk(q, docs, excl, k)),
    decreases k,
{
    if k > 0 {
        let r = spec_topk(q, docs, excl, k);
        match best_before(q, docs, docs.len() as int, excl) {
            None => {},
            Some(j) => {
                lemma_best_before_some(q, docs, docs.len() as int, excl, j);
                let rest = spec_topk(q, docs, excl.push(j), (k - 1) as nat);
                lemma_topk_ranked(q, docs, excl.push(j), (k - 1) as nat);
                assert(r[0] == j);
                assert forall|y: int| 0 <= y < r.len() implies 0 <= #[trigger] r[y] < docs.len()
                    && !excl.contains(r[y]) && score(q, docs, docs[r[y]]) > 0 by {
                    if y > 0 {
                        assert(r[y] == rest[y - 1]);
                        lemma_push_contains(excl, j, rest[y - 1]);
                    }
                }
                assert forall|a: int, b: int| 0 <= a < b < r.len() implies ranks_before(
                    q,
                    docs,
                    #[trigger] r[a],
                    #[trigger] r[b],
                ) by {
                    if a == 0 {
                        assert(r[b] == rest[b - 1]);
                        lemma_push_contains(excl, j, rest[b - 1]);
                        assert(rest[b - 1] != j);
                        assert(ranks_before(q, docs, j, rest[b - 1]));
                    } else {
                        assert(r[a] == rest[a - 1]);
                        assert(r[b] == rest[b - 1]);
                        assert(ranks_before(q, docs, rest[a - 1], rest[b - 1]));
                    }
                }
            },
        }
    }
}

/// Determinism under ties: the results of a search are ranked — scores
/// descend, and of two equal scores the earlier-indexed document stands
/// first.
pub proof fn lemma_search_ordering(q: Seq<char>, docs: Seq<(Seq<char>, Seq<char>)>)
    ensures
        ranked(
            query_terms(q),
            docs,
            spec_topk(query_terms(q), docs, Seq::empty(), TOP_K as nat),
        ),
{
    lemma_topk_ranked(query_terms(q), docs, Seq::empty(), TOP_K as nat);
}

/// How many of the first `i` documents match the query and are not
/// excluded.
pub open spec fn n_candidates(
    q: Seq<Seq<char>>,
    docs: Seq<(Seq<char>, Seq<char>)>,
    excl: Seq<int>,
    i: int,
) -> nat
    decreases i,
{
    if i <= 0 {
        0
    } else {
        n_candidates(q, docs, excl, i - 1) + if !excl.contains(i - 1) && score(
            q,
            docs,
            docs[i - 1],
        ) > 0 {
            1nat
        } else {
            0nat
        }
    }
}

/// How many documents hold at least one term of the query.
pub open spec fn n_matching(q: Seq<char>, docs: Seq<(Seq<char>, Seq<char>)>) -> nat {
    n_candidates(query_terms(q), docs, Seq::empty(), docs.len() as int)
}

/// Without candidates the count is zero.
proof fn lemma_candidates_zero(
    q: Seq<Seq<char>>,
    docs: Seq<(Seq<char>, Seq<char>)>,
    excl: Seq<int>,
    i: int,
)
    requires
        forall|c: int|
            0 <= c < i ==> excl.contains(c) || score(q, docs, #[trigger] docs[c]) == 0,
    ensures
        n_candidates(q, docs, excl, i) == 0,
    decreases i,
{
    if i > 0 {
        lemma_candidates_zero(q, docs, excl, i - 1);
    }
}

/// Excluding one candidate lowers the count by one; excluding a value
/// out of range changes nothing.
proof fn lemma_candidates_push(
    q: Seq<Seq<char>>,
    docs: Seq<(Seq<char>, Seq<char>)>,
    excl: Seq<int>,
    j: int,
    i: int,
)
    requires
        !excl.contains(j),
        score(q, docs, docs[j]) > 0,
        0 <= j,
    ensures
        n_candidates(q, docs, excl.push(j), i) == n_candidates(q, docs, excl, i) - if j < i {
            1int
        } else {
            0int
        },
    decreases i,
{
    if i > 0 {
        lemma_candidates_push(q, docs, excl, j, i - 1);
        lemma_push_contains(excl, j, i - 1);
        if j < i && !(j < i - 1) {
            assert(j == i - 1);
        }
    }
}

/// The ranked list is as long as the candidate count allows, up to `k`.
pub proof fn lemma_topk_len(
    q: Seq<Seq<char>>,
    docs: Seq<(Seq<char>, Seq<char>)>,
    excl: Seq<int>,
    k: nat,
)
    ensures
        spec_topk(q, docs, excl, k).len() == if k <= n_candidates(q, docs, excl, docs.len() as int) {
            k
        } else {
            n_candidates(q, docs, excl, docs.len() as int)
        },
    decreases k,
{
    if k > 0 {
        match best_before(q, docs, docs.len() as int, excl) {
            None => {
                lemma_best_before_none(q, docs, docs.len() as int, excl);
                lemma_candidates_zero(q, docs, excl, docs.len() as int);
            },
            Some(j) => {
                lemma_best_before_some(q, docs, docs.len() as int, excl, j);
                lemma_candidates_push(q, docs, excl, j, docs.len() as int);
                lemma_topk_len(q, docs, excl.push(j), (k - 1) as nat);
            },
        }
    }
}

/// The result length follows the matching count up to the cutoff: a
/// search returns one result per matching document, and never more than
/// ten.
pub proof fn lemma_search_len(q: Seq<char>, docs: Seq<(Seq<char>, Seq<char>)>)
    ensures
        spec_search(q, docs).len() == if query_terms(q).len() <= 0 {
            0nat
        } else if n_matching(q, docs) <= TOP_K as nat {
            n_matching(q, docs)
        } else {
            TOP_K as nat
        },
{
    if query_terms(q).len() > 0 {
        lemma_topk_len(query_terms(q), docs, Seq::empty(), TOP_K as nat);
    }
}

/// A query matching no document returns the empty result list, not an
/// error.
pub proof fn lemma_no_match_empty(q: Seq<char>, docs: Seq<(Seq<char>, Seq<char>)>)
    requires
        n_matching(q, docs) == 0,
    ensures
        spec_search(q, docs).len() == 0,
{
    lemma_search_len(q, docs);
}

/// Cutoff: where more than ten documents match, exactly ten results come
/// back.
pub proof fn lemma_cutoff(q: Seq<char>, docs: Seq<(Seq<char>, Seq<char>)>)
    requires
        n_matching(q, docs) > TOP_K as nat,
    ensures
        spec_search(q, docs).len() == TOP_K as nat,
{
    if query_terms(q).len() <= 0 {
        lemma_candidates_zero(query_terms(q), docs, Seq::empty(), docs.len() as int);
    }
    lemma_search_len(q, docs);
}

/// A document counts as matching exactly when its score is positive,
/// exactly when it holds a query term.
pub proof fn lemma_matching_is_positive_score(
    q: Seq<char>,
    docs: Seq<(Seq<char>, Seq<char>)>,
    d: int,
)
    requires
        0 <= d < docs.len(),
    ensures
        score(query_terms(q), docs, docs[d]) > 0 <==> crate::search::matches(query_terms(q), docs[d]),
{
    crate::search::lemma_score_pos(query_terms(q), docs, docs[d]);
}

} // verus!
