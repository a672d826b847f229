//! The query engine: ranked retrieval over the inverted index.
//!
//! A query is tokenized with the indexing analyzer and deduplicated; a
//! document matches when it holds at least one query term in its title
//! or url. Matches are ranked by a term-frequency / inverse-document-
//! frequency score, computed in saturating 64-bit arithmetic, and the
//! ten best are returned, ties broken by indexing order.

use vstd::prelude::*;
use vstd::pervasive::VecAdditionalExecFns;
use vstd::arithmetic::div_mod::lemma_fundamental_div_mod;
use vstd::arithmetic::div_mod::lemma_mod_bound;
use vstd::arithmetic::mul::lemma_mul_inequality;
use crate::index::doc_freq;
use crate::index::lemma_doc_freq_le;
use crate::index::postings_ok;
use crate::index::term_freq;
use crate::index::SearchIndex;
use crate::tokenize::chars_eq;
use crate::tokenize::chars_of;
use crate::tokenize::dedup;
use crate::tokenize::dedup_terms;
use crate::tokenize::tokenize_chars;
use crate::tokenize::tokens;

verus! {

/// How many results a search returns at most.
pub const TOP_K: usize = 10;

/// Saturation at the largest 64-bit value.
pub open spec fn cap_u64(x: nat) -> nat {
    if x > u64::MAX {
        u64::MAX as nat
    } else {
        x
    }
}

/// Adds with saturation.
fn sat_add(a: u64, b: u64) -> (r: u64)
    ensures
        r as nat == cap_u64(a as nat + b as nat),
{
    if a > u64::MAX - b {
        u64::MAX
    } else {
        a + b
    }
}

/// Multiplies with saturation.
fn sat_mul(a: u64, b: u64) -> (r: u64)
    ensures
        r as nat == cap_u64(a as nat * b as nat),
{
    if b == 0 {
        0
    } else if a > u64::MAX / b {
        proof {
            let q = (u64::MAX as int) / (b as int);
            lemma_fundamental_div_mod(u64::MAX as int, b as int);
            lemma_mod_bound(u64::MAX as int, b as int);
            lemma_mul_inequality(q + 1, a as int, b as int);
            assert((q + 1) * (b as int) == q * (b as int) + b) by (nonlinear_arith);
            assert((b as int) * q == q * (b as int)) by (nonlinear_arith);
        }
        u64::MAX
    } else {
        proof {
            let q = (u64::MAX as int) / (b as int);
            lemma_fundamental_div_mod(u64::MAX as int, b as int);
            lemma_mod_bound(u64::MAX as int, b as int);
            lemma_mul_inequality(a as int, q, b as int);
            assert((b as int) * q == q * (b as int)) by (nonlinear_arith);
        }
        a * b
    }
}

/// The inverse-document-frequency weight of a term: one more than the
/// number of documents free of it, so rarer terms weigh more and every
/// term weighs at least one.
pub open spec fn weight(t: Seq<char>, docs: Seq<(Seq<char>, Seq<char>)>) -> nat {
    (docs.len() - doc_freq(t, docs) + 1) as nat
}

/// What one query term contributes to a document's score: its frequency
/// there times its weight, saturated.
pub open spec fn term_score(
    t: Seq<char>,
    docs: Seq<(Seq<char>, Seq<char>)>,
    m: (Seq<char>, Seq<char>),
) -> nat {
    cap_u64(term_freq(t, m) * weight(t, docs))
}

/// A document's relevance score for the query terms `q`: the saturated
/// sum of the terms' contributions.
pub open spec fn score(
    q: Seq<Seq<char>>,
    docs: Seq<(Seq<char>, Seq<char>)>,
    m: (Seq<char>, Seq<char>),
) -> nat
    decreases q.len(),
{
    if q.len() <= 0 {
        0
    } else {
        cap_u64(score(q.drop_last(), docs, m) + term_score(q.last(), docs, m))
    }
}

/// The document holds at least one of the query terms.
pub open spec fn matches(q: Seq<Seq<char>>, m: (Seq<char>, Seq<char>)) -> bool {
    exists|x: int| 0 <= x < q.len() && term_freq(#[trigger] q[x], m) > 0
}

/// A score never exceeds the largest 64-bit value.
pub proof fn lemma_score_le(
    q: Seq<Seq<char>>,
    docs: Seq<(Seq<char>, Seq<char>)>,
    m: (Seq<char>, Seq<char>),
)
    ensures
        score(q, docs, m) <= u64::MAX,
{
    if q.len() <= 0 {
    } else {
    }
}

/// Scoring one more query term: the saturated sum gains that term's
/// contribution.
pub proof fn lemma_score_step(
    q: Seq<Seq<char>>,
    docs: Seq<(Seq<char>, Seq<char>)>,
    m: (Seq<char>, Seq<char>),
    k: int,
)
    requires
        0 <= k < q.len(),
    ensures
        score(q.take(k + 1), docs, m) == cap_u64(
            score(q.take(k), docs, m) + term_score(q[k], docs, m),
        ),
{
    assert(q.take(k + 1).drop_last() =~= q.take(k));
    assert(q.take(k + 1).last() == q[k]);
}

/// A term absent from the document contributes nothing to its score.
pub proof fn lemma_score_step_zero(
    q: Seq<Seq<char>>,
    docs: Seq<(Seq<char>, Seq<char>)>,
    m: (Seq<char>, Seq<char>),
    k: int,
)
    requires
        0 <= k < q.len(),
        term_freq(q[k], m) == 0,
    ensures
        score(q.take(k + 1), docs, m) == score(q.take(k), docs, m),
{
    lemma_score_step(q, docs, m, k);
    lemma_score_le(q.take(k), docs, m);
    assert(term_score(q[k], docs, m) == 0);
}

/// A document's score is positive exactly when it matches the query.
pub proof fn lemma_score_pos(
    q: Seq<Seq<char>>,
    docs: Seq<(Seq<char>, Seq<char>)>,
    m: (Seq<char>, Seq<char>),
)
    ensures
        score(q, docs, m) > 0 <==> matches(q, m),
    decreases q.len(),
{
    if q.len() <= 0 {
    } else {
        let pre = q.drop_last();
        lemma_score_pos(pre, docs, m);
        lemma_score_le(pre, docs, m);
        lemma_doc_freq_le(q.last(), docs);
        if term_freq(q.last(), m) > 0 {
            assert(weight(q.last(), docs) >= 1);
            assert(term_freq(q.last(), m) * weight(q.last(), docs) >= 1) by (nonlinear_arith)
                requires
                    term_freq(q.last(), m) >= 1,
                    weight(q.last(), docs) >= 1,
            ;
            assert(term_score(q.last(), docs, m) >= 1);
            assert(q[q.len() - 1] == q.last());
            assert(matches(q, m));
            assert(score(q, docs, m) > 0);
        } else {
            assert(term_score(q.last(), docs, m) == 0);
            if matches(q, m) {
                let x = choose|x: int| 0 <= x < q.len() && term_freq(#[trigger] q[x], m) > 0;
                assert(x < q.len() - 1);
                assert(pre[x] == q[x]);
                assert(matches(pre, m));
            }
            if matches(pre, m) {
                let x = choose|x: int| 0 <= x < pre.len() && term_freq(#[trigger] pre[x], m) > 0;
                assert(q[x] == pre[x]);
                assert(matches(q, m));
            }
            lemma_score_le(pre, docs, m);
        }
    }
}

/// The best candidate among the documents before `i`: a matching
/// document not yet excluded, with the highest score; the earliest on a
/// tie.
pub open spec fn best_before(
    q: Seq<Seq<char>>,
    docs: Seq<(Seq<char>, Seq<char>)>,
    i: int,
    excl: Seq<int>,
) -> Option<int>
    decreases i,
{
    if i <= 0 {
        None
    } else {
        let c = i - 1;
        let rest = best_before(q, docs, c, excl);
        if excl.contains(c) || score(q, docs, docs[c]) == 0 {
            rest
        } else {
            match rest {
                None => Some(c),
                Some(j) => if score(q, docs, docs[c]) > score(q, docs, docs[j]) {
                    Some(c)
                } else {
                    Some(j)
                },
            }
        }
    }
}

/// The ranked result list: the best remaining match, repeatedly, at most
/// `k` entries, as indices into `docs`.
pub open spec fn spec_topk(
    q: Seq<Seq<char>>,
    docs: Seq<(Seq<char>, Seq<char>)>,
    excl: Seq<int>,
    k: nat,
) -> Seq<int>
    decreases k,
{
    if k <= 0 {
        Seq::empty()
    } else {
        match best_before(q, docs, docs.len() as int, excl) {
            None => Seq::empty(),
            Some(j) => seq![j] + spec_topk(q, docs, excl.push(j), (k - 1) as nat),
        }
    }
}

/// The terms of a query string: its tokens, first occurrences only.
pub open spec fn query_terms(q: Seq<char>) -> Seq<Seq<char>> {
    dedup(tokens(q))
}

/// The search result for a query over the indexed documents: the stored
/// fields of the ten best matches, best first; empty for a query without
/// terms.
pub open spec fn spec_search(
    q: Seq<char>,
    docs: Seq<(Seq<char>, Seq<char>)>,
) -> Seq<(Seq<char>, Seq<char>)> {
    if query_terms(q).len() <= 0 {
        Seq::empty()
    } else {
        spec_topk(query_terms(q), docs, Seq::empty(), TOP_K as nat).map(
            |x: int, d: int| docs[d],
        )
    }
}

/// The texts of a result list's stored fields.
pub open spec fn pairs_model(rs: Seq<(String, String)>) -> Seq<(Seq<char>, Seq<char>)> {
    rs.map(|i: int, p: (String, String)| (p.0@, p.1@))
}

/// The indices of a result list, as mathematical integers.
pub open spec fn ids_view(v: Seq<usize>) -> Seq<int> {
    v.map(|i: int, x: usize| x as int)
}

impl SearchIndex {
    /// Looks the term up in the dictionary.
    fn find_term(&self, t: &Vec<char>) -> (r: Option<usize>)
        ensures
            match r {
                Some(x) => x < self.terms@.len() && self.terms.deep_view()[x as int] == t@,
                None => !self.dict_contains(t@),
            },
    {
        let nt: usize = self.terms.len();
        let mut x: usize = 0;
        while x < nt
            invariant
                x <= nt,
                nt == self.terms@.len(),
                forall|y: int| 0 <= y < x ==> self.terms.deep_view()[y] != t@,
            decreases nt - x,
        {
            proof {
                assert(self.terms.deep_view()[x as int] == self.terms@[x as int]@);
            }
            if chars_eq(&self.terms[x], t) {
                return Some(x);
            }
            x = x + 1;
        }
        proof {
            if self.dict_contains(t@) {
                let w = choose|w: int|
                    0 <= w < self.terms.deep_view().len() && self.terms.deep_view()[w] == t@;
                assert(self.terms.deep_view()[w] != t@);
            }
        }
        None
    }

    /// The posting list of a term: every document holding it, in
    /// indexing order, with the term's frequency there.
    pub fn postings_of(&self, term: &Vec<char>) -> (r: Vec<(usize, u64)>)
        requires
            self.wf(),
        ensures
            r@.len() == doc_freq(term@, self.model()),
            forall|k: int|
                0 <= k < r@.len() ==> (#[trigger] r@[k]).0 < self.model().len() && r@[k].1 as nat
                    == term_freq(term@, self.model()[r@[k].0 as int]) && r@[k].1 > 0,
            forall|k1: int, k2: int|
                0 <= k1 < k2 < r@.len() ==> (#[trigger] r@[k1]).0 < (#[trigger] r@[k2]).0,
            forall|d: int|
                0 <= d < self.model().len() && term_freq(term@, #[trigger] self.model()[d]) > 0
                    ==> exists|k: int| 0 <= k < r@.len() && (#[trigger] r@[k]).0 == d,
    {
        let ghost dm = self.model();
        match self.find_term(term) {
            Some(x) => {
                proof {
                    assert(postings_ok(
                        self.terms.deep_view()[x as int],
                        (self.postings@[x as int])@,
                        dm,
                    ));
                }
                let pl = &self.postings[x];
                let np: usize = pl.len();
                let mut r: Vec<(usize, u64)> = Vec::new();
                let mut k: usize = 0;
                while k < np
                    invariant
                        k <= np,
                        np == pl@.len(),
                        r@.len() == k,
                        dm == self.model(),
                        postings_ok(term@, pl@, dm),
                        forall|y: int|
                            0 <= y < k ==> (#[trigger] r@[y]).0 == pl@[y].doc && r@[y].1
                                == pl@[y].freq,
                    decreases np - k,
                {
                    let pd: usize = pl[k].doc;
                    let pf: u64 = pl[k].freq;
                    r.push((pd, pf));
                    k = k + 1;
                }
                proof {
                    assert forall|d: int|
                        0 <= d < dm.len() && term_freq(term@, #[trigger] dm[d]) > 0 implies exists|
                        y: int,
                    | 0 <= y < r@.len() && (#[trigger] r@[y]).0 == d by {
                        let w = choose|w: int|
                            0 <= w < pl@.len() && (#[trigger] pl@[w]).doc == d;
                        assert(r@[w].0 == d);
                    }
                }
                r
            },
            None => {
                proof {
                    assert forall|d: int| 0 <= d < dm.len() implies term_freq(
                        term@,
                        #[trigger] dm[d],
                    ) == 0 by {
                        if term_freq(term@, dm[d]) > 0 {
                            assert(self.dict_contains(term@));
                        }
                    }
                    crate::index::lemma_doc_freq_zero(term@, dm);
                }
                let r: Vec<(usize, u64)> = Vec::new();
                r
            },
        }
    }

    /// Evaluates a free-text query against the index: the stored fields
    /// of the ten best matching documents, in descending score order,
    /// ties broken by indexing order; empty for a query without tokens.
    pub fn search(&self, query: &str) -> (r: Vec<(String, String)>)
        requires
            self.wf(),
        ensures
            pairs_model(r@) == spec_search(query@, self.model()),
    {
        let ghost dm = self.model();
        let qc = chars_of(query);
        let qt = tokenize_chars(&qc);
        let q = dedup_terms(&qt);
        let ghost qv = q.deep_view();
        let nq: usize = q.len();
        if nq == 0 {
            let r: Vec<(String, String)> = Vec::new();
            proof {
                assert(pairs_model(r@) =~~= spec_search(query@, dm));
            }
            return r;
        }
        let n: usize = self.docs.len();

        let mut scores: Vec<u64> = Vec::new();
        let mut d0: usize = 0;
        while d0 < n
            invariant
                d0 <= n,
                scores@.len() == d0,
                forall|dd: int| 0 <= dd < d0 ==> (#[trigger] scores@[dd]) == 0,
            decreases n - d0,
        {
            scores.push(0);
            d0 = d0 + 1;
        }
        proof {
            assert(qv.take(0) =~= Seq::<Seq<char>>::empty());
        }

        let mut ki: usize = 0;
        while ki < nq
            invariant
                ki <= nq,
                nq == q@.len(),
                nq == qv.len(),
                qv == q.deep_view(),
                self.wf(),
                dm == self.model(),
                n == self.docs@.len(),
                n == dm.len(),
                scores@.len() == n,
                forall|dd: int|
                    0 <= dd < n ==> (#[trigger] scores@[dd]) as nat == score(
                        qv.take(ki as int),
                        dm,
                        dm[dd],
                    ),
            decreases nq - ki,
        {
            proof {
                assert(qv[ki as int] == q@[ki as int]@);
            }
            let ghost tq = qv[ki as int];
            match self.find_term(&q[ki]) {
                Some(x) => {
                    proof {
                        assert(postings_ok(
                            self.terms.deep_view()[x as int],
                            (self.postings@[x as int])@,
                            dm,
                        ));
                    }
                    let pl = &self.postings[x];
                    let np: usize = pl.len();
                    if np == 0 {
                        proof {
                            assert forall|dd: int| 0 <= dd < n implies term_freq(tq, dm[dd])
                                == 0 by {
                                if term_freq(tq, dm[dd]) > 0 {
                                    let k = choose|k: int|
                                        0 <= k < pl@.len() && (#[trigger] pl@[k]).doc == dd;
                                }
                            }
                            assert forall|dd: int| 0 <= dd < n implies (#[trigger] scores@[dd])
                                as nat == score(qv.take(ki as int + 1), dm, dm[dd]) by {
                                lemma_score_step_zero(qv, dm, dm[dd], ki as int);
                            }
                        }
                    } else {
                        proof {
                            lemma_doc_freq_le(tq, dm);
                        }
                        let w0: usize = n - np;
                        let w: u64 = (w0 as u64) + 1;
                        proof {
                            assert(w as nat == weight(tq, dm));
                        }
                        let mut pj: usize = 0;
                        while pj < np
                            invariant
                                pj <= np,
                                np == pl@.len(),
                                self.wf(),
                                dm == self.model(),
                                n == dm.len(),
                                ki < nq,
                                nq == qv.len(),
                                tq == qv[ki as int],
                                postings_ok(tq, pl@, dm),
                                w as nat == weight(tq, dm),
                                scores@.len() == n,
                                forall|dd: int|
                                    0 <= dd < n ==> (#[trigger] scores@[dd]) as nat == if (
                                    exists|k: int|
                                        0 <= k < pj && (#[trigger] pl@[k]).doc == dd) {
                                        score(qv.take(ki as int + 1), dm, dm[dd])
                                    } else {
                                        score(qv.take(ki as int), dm, dm[dd])
                                    },
                            decreases np - pj,
                        {
                            let pd: usize = pl[pj].doc;
                            let pf: u64 = pl[pj].freq;
                            proof {
                                assert(pl@[pj as int].doc == pd);
                                assert forall|k: int| 0 <= k < pj implies (#[trigger] pl@[k]).doc
                                    != pd by {
                                    assert(pl@[k].doc < pl@[pj as int].doc);
                                }
                                assert(pf as nat == term_freq(tq, dm[pd as int]));
                            }
                            let gain = sat_mul(pf, w);
                            let cur = scores[pd];
                            let newv = sat_add(cur, gain);
                            proof {
                                lemma_score_step(qv, dm, dm[pd as int], ki as int);
                                lemma_score_le(qv.take(ki as int), dm, dm[pd as int]);
                                assert(gain as nat == term_score(tq, dm, dm[pd as int]));
                                assert(newv as nat == score(qv.take(ki as int + 1), dm, dm[
                                    pd as int]));
                            }
                            scores.set(pd, newv);
                            pj = pj + 1;
                            proof {
                                assert forall|dd: int| 0 <= dd < n implies (#[trigger] scores@[dd])
                                    as nat == if (exists|k: int|
                                    0 <= k < pj && (#[trigger] pl@[k]).doc == dd) {
                                    score(qv.take(ki as int + 1), dm, dm[dd])
                                } else {
                                    score(qv.take(ki as int), dm, dm[dd])
                                } by {
                                    if dd == pd {
                                        assert(pl@[pj - 1].doc == dd);
                                    } else {
                                        if exists|k: int|
                                            0 <= k < pj && (#[trigger] pl@[k]).doc == dd {
                                            let k = choose|k: int|
                                                0 <= k < pj && (#[trigger] pl@[k]).doc == dd;
                                            assert(k < pj - 1 || pl@[k].doc == pd);
                                            assert(0 <= k < pj - 1 && pl@[k].doc == dd);
                                        }
                                    }
                                }
                            }
                        }
                        proof {
                            assert forall|dd: int| 0 <= dd < n implies (#[trigger] scores@[dd])
                                as nat == score(qv.take(ki as int + 1), dm, dm[dd]) by {
                                if !(exists|k: int| 0 <= k < np && (#[trigger] pl@[k]).doc == dd) {
                                    assert(term_freq(tq, dm[dd]) == 0);
                                    lemma_score_step_zero(qv, dm, dm[dd], ki as int);
                                }
                            }
                        }
                    }
                },
                None => {
                    proof {
                        assert forall|dd: int| 0 <= dd < n implies (#[trigger] scores@[dd])
                            as nat == score(qv.take(ki as int + 1), dm, dm[dd]) by {
                            assert(term_freq(tq, dm[dd]) == 0);
                            lemma_score_step_zero(qv, dm, dm[dd], ki as int);
                        }
                    }
                },
            }
            ki = ki + 1;
        }
        proof {
            assert(qv.take(nq as int) =~= qv);
        }

        let mut taken: Vec<bool> = Vec::new();
        let mut d1: usize = 0;
        while d1 < n
            invariant
                d1 <= n,
                taken@.len() == d1,
                forall|dd: int| 0 <= dd < d1 ==> !(#[trigger] taken@[dd]),
            decreases n - d1,
        {
            taken.push(false);
            d1 = d1 + 1;
        }
        let mut ids: Vec<usize> = Vec::new();
        let mut done: bool = false;
        let mut round: usize = 0;
        proof {
            assert(ids_view(ids@) =~= Seq::<int>::empty());
        }
        while round < TOP_K && !done
            invariant
                round <= TOP_K,
                self.wf(),
                dm == self.model(),
                n == dm.len(),
                n == self.docs@.len(),
                scores@.len() == n,
                taken@.len() == n,
                forall|dd: int|
                    0 <= dd < n ==> (#[trigger] scores@[dd]) as nat == score(qv, dm, dm[dd]),
                ids@.len() <= round,
                forall|y: int| 0 <= y < ids@.len() ==> (#[trigger] ids@[y]) < n,
                forall|dd: int|
                    0 <= dd < n ==> ((#[trigger] taken@[dd]) <==> ids_view(ids@).contains(dd)),
                spec_topk(qv, dm, Seq::empty(), TOP_K as nat) == ids_view(ids@) + spec_topk(
                    qv,
                    dm,
                    ids_view(ids@),
                    (TOP_K - ids@.len()) as nat,
                ),
                done ==> spec_topk(qv, dm, ids_view(ids@), (TOP_K - ids@.len()) as nat)
                    == Seq::<int>::empty(),
                !done ==> ids@.len() == round,
            decreases TOP_K - round,
        {
            let ghost excl = ids_view(ids@);
            let mut best: Option<usize> = None;
            let mut d: usize = 0;
            while d < n
                invariant
                    d <= n,
                    self.wf(),
                    dm == self.model(),
                    n == dm.len(),
                    scores@.len() == n,
                    taken@.len() == n,
                    excl == ids_view(ids@),
                    forall|dd: int|
                        0 <= dd < n ==> (#[trigger] scores@[dd]) as nat == score(qv, dm, dm[dd]),
                    forall|dd: int|
                        0 <= dd < n ==> ((#[trigger] taken@[dd]) <==> excl.contains(dd)),
                    match best {
                        None => best_before(qv, dm, d as int, excl) is None,
                        Some(b) => b < n && best_before(qv, dm, d as int, excl) == Some(b as int),
                    },
                decreases n - d,
            {
                let sd = scores[d];
                let tk = taken[d];
                let better: bool = match best {
                    None => true,
                    Some(b) => sd > scores[b],
                };
                if !tk && sd > 0 && better {
                    best = Some(d);
                }
                d = d + 1;
            }
            match best {
                None => {
                    done = true;
                },
                Some(b) => {
                    let ghost old_ids = ids_view(ids@);
                    proof {
                        assert(spec_topk(qv, dm, old_ids, (TOP_K - ids@.len()) as nat)
                            == seq![b as int] + spec_topk(
                            qv,
                            dm,
                            old_ids.push(b as int),
                            (TOP_K - ids@.len() - 1) as nat,
                        ));
                    }
                    taken.set(b, true);
                    ids.push(b);
                    proof {
                        assert(ids_view(ids@) =~= old_ids.push(b as int));
                        assert(old_ids + (seq![b as int] + spec_topk(
                            qv,
                            dm,
                            ids_view(ids@),
                            (TOP_K - ids@.len()) as nat,
                        )) =~= ids_view(ids@) + spec_topk(
                            qv,
                            dm,
                            ids_view(ids@),
                            (TOP_K - ids@.len()) as nat,
                        ));
                        assert forall|dd: int|
                            0 <= dd < n implies ((#[trigger] taken@[dd]) <==> ids_view(
                            ids@,
                        ).contains(dd)) by {
                            if dd == b {
                                assert(ids_view(ids@)[ids@.len() - 1] == dd);
                            } else if ids_view(ids@).contains(dd) {
                                let y = choose|y: int|
                                    0 <= y < ids_view(ids@).len() && ids_view(ids@)[y] == dd;
                                assert(old_ids[y] == dd);
                                assert(old_ids.contains(dd));
                            } else if old_ids.contains(dd) {
                                let y = choose|y: int|
                                    0 <= y < old_ids.len() && old_ids[y] == dd;
                                assert(ids_view(ids@)[y] == dd);
                            }
                        }
                    }
                },
            }
            round = round + 1;
        }
        proof {
            if !done {
                assert(ids@.len() == TOP_K);
                assert(spec_topk(qv, dm, ids_view(ids@), 0nat) == Seq::<int>::empty());
            }
            assert(ids_view(ids@) + Seq::<int>::empty() =~= ids_view(ids@));
            assert(spec_topk(qv, dm, Seq::empty(), TOP_K as nat) == ids_view(ids@));
        }

        let mut out: Vec<(String, String)> = Vec::new();
        let nr: usize = ids.len();
        let mut y: usize = 0;
        while y < nr
            invariant
                y <= nr,
                nr == ids@.len(),
                dm == self.model(),
                n == self.docs@.len(),
                n == dm.len(),
                forall|z: int| 0 <= z < nr ==> (#[trigger] ids@[z]) < n,
                out@.len() == y,
                forall|z: int|
                    0 <= z < y ==> (#[trigger] out@[z]).0@ == dm[ids@[z] as int].0 && out@[z].1@
                        == dm[ids@[z] as int].1,
            decreases nr - y,
        {
            let b: usize = ids[y];
            let title = self.docs[b].title.clone();
            let url = self.docs[b].url.clone();
            proof {
                assert(dm[b as int] == self.docs@[b as int].model());
            }
            out.push((title, url));
            y = y + 1;
        }
        proof {
            assert(pairs_model(out@) =~~= spec_search(query@, dm));
        }
        out
    }
}

} // verus!
