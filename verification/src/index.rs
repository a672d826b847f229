//! The index builder: an immutable in-memory inverted index.
//!
//! Building walks the given documents once and records, for every term
//! that occurs in a title or url, the ascending list of documents holding
//! it together with the term's frequency there. The index is never
//! changed after `build` returns; a rebuild is a fresh `build` call.

use vstd::prelude::*;
use crate::tokenize::chars_of;
use crate::tokenize::contains_term;
use crate::tokenize::copy_chars;
use crate::tokenize::count_occ;
use crate::tokenize::count_term;
use crate::tokenize::distinct_terms;
use crate::tokenize::lemma_count_pos;
use crate::tokenize::tokenize_chars;
use crate::tokenize::tokens;

verus! {

/// One indexed document: its stored fields.
pub struct Document {
    pub title: String,
    pub url: String,
}

impl Document {
    /// The mathematical content of the document: its title and url texts.
    pub open spec fn model(self) -> (Seq<char>, Seq<char>) {
        (self.title@, self.url@)
    }

    /// Builds a document from its stored fields.
    pub fn new(title: String, url: String) -> (r: Document)
        ensures
            r.model() == (title@, url@),
    {
        Document { title, url }
    }
}

/// The models of a sequence of documents, in indexing order.
pub open spec fn docs_model(ds: Seq<Document>) -> Seq<(Seq<char>, Seq<char>)> {
    ds.map(|i: int, d: Document| d.model())
}

/// The searchable terms of one document: the tokens of its title, the
/// tokens of its url, and the whole url as one unanalyzed term.
pub open spec fn doc_terms(m: (Seq<char>, Seq<char>)) -> Seq<Seq<char>> {
    tokens(m.0) + tokens(m.1) + seq![m.1]
}

/// How often the term `t` occurs among the document's searchable terms.
pub open spec fn term_freq(t: Seq<char>, m: (Seq<char>, Seq<char>)) -> nat {
    count_occ(doc_terms(m), t)
}

/// In how many of the documents the term `t` occurs.
pub open spec fn doc_freq(t: Seq<char>, docs: Seq<(Seq<char>, Seq<char>)>) -> nat
    decreases docs.len(),
{
    if docs.len() <= 0 {
        0
    } else {
        doc_freq(t, docs.drop_last()) + if term_freq(t, docs.last()) > 0 {
            1nat
        } else {
            0nat
        }
    }
}

/// A term occurs in no more documents than there are.
pub proof fn lemma_doc_freq_le(t: Seq<char>, docs: Seq<(Seq<char>, Seq<char>)>)
    ensures
        doc_freq(t, docs) <= docs.len(),
    decreases docs.len(),
{
    if docs.len() > 0 {
        lemma_doc_freq_le(t, docs.drop_last());
    }
}

/// A term held by no document occurs in zero documents.
pub proof fn lemma_doc_freq_zero(t: Seq<char>, docs: Seq<(Seq<char>, Seq<char>)>)
    requires
        forall|d: int| 0 <= d < docs.len() ==> term_freq(t, #[trigger] docs[d]) == 0,
    ensures
        doc_freq(t, docs) == 0,
    decreases docs.len(),
{
    if docs.len() > 0 {
        let pre = docs.drop_last();
        assert forall|d: int| 0 <= d < pre.len() implies term_freq(t, #[trigger] pre[d])
            == 0 by {
            assert(pre[d] == docs[d]);
        }
        lemma_doc_freq_zero(t, pre);
        assert(docs.last() == docs[docs.len() - 1]);
    }
}

/// One entry of a posting list: a document and the term's frequency there.
pub struct Posting {
    pub doc: usize,
    pub freq: u64,
}

/// `pl` is the posting list of the term `t` over `docs`: exactly the
/// documents holding `t`, in ascending order of their index, each with
/// the term's frequency there.
pub open spec fn postings_ok(
    t: Seq<char>,
    pl: Seq<Posting>,
    docs: Seq<(Seq<char>, Seq<char>)>,
) -> bool {
    &&& forall|k: int| 0 <= k < pl.len() ==> (#[trigger] pl[k]).doc < docs.len()
    &&& forall|k: int|
        0 <= k < pl.len() ==> (#[trigger] pl[k]).freq as nat == term_freq(
            t,
            docs[pl[k].doc as int],
        )
    &&& forall|k: int| 0 <= k < pl.len() ==> (#[trigger] pl[k]).freq > 0
    &&& forall|k1: int, k2: int|
        0 <= k1 < k2 < pl.len() ==> (#[trigger] pl[k1]).doc < (#[trigger] pl[k2]).doc
    &&& forall|d: int|
        0 <= d < docs.len() && term_freq(t, #[trigger] docs[d]) > 0 ==> exists|k: int|
            0 <= k < pl.len() && (#[trigger] pl[k]).doc == d
    &&& pl.len() == doc_freq(t, docs)
}

/// The inverted index: the documents in indexing order, the term
/// dictionary, and one posting list per dictionary term.
pub struct SearchIndex {
    pub docs: Vec<Document>,
    pub terms: Vec<Vec<char>>,
    pub postings: Vec<Vec<Posting>>,
}

impl SearchIndex {
    /// The mathematical content of the index: the indexed documents'
    /// titles and urls, in indexing order.
    pub open spec fn model(self) -> Seq<(Seq<char>, Seq<char>)> {
        docs_model(self.docs@)
    }

    /// The term stands in the dictionary.
    pub open spec fn dict_contains(self, t: Seq<char>) -> bool {
        self.terms.deep_view().contains(t)
    }

    /// The index is well formed: the dictionary is duplicate-free and
    /// holds every term of every document, and each term's posting list
    /// is exact.
    pub open spec fn wf(self) -> bool {
        &&& self.postings@.len() == self.terms@.len()
        &&& distinct_terms(self.terms.deep_view())
        &&& forall|x: int|
            0 <= x < self.terms@.len() ==> postings_ok(
                self.terms.deep_view()[x],
                (#[trigger] self.postings@[x])@,
                self.model(),
            )
        &&& forall|d: int, t: Seq<char>|
            0 <= d < self.model().len() && #[trigger] term_freq(t, self.model()[d]) > 0
                ==> self.dict_contains(t)
    }

    /// How many documents the index holds.
    pub fn doc_count(&self) -> (r: usize)
        ensures
            r == self.model().len(),
    {
        self.docs.len()
    }
}

/// The searchable terms of a document, as vectors.
fn doc_terms_vec(d: &Document) -> (r: Vec<Vec<char>>)
    ensures
        r.deep_view() == doc_terms(d.model()),
{
    let tc = chars_of(d.title.as_str());
    let mut r = tokenize_chars(&tc);
    let uc = chars_of(d.url.as_str());
    let ut = tokenize_chars(&uc);
    let m: usize = ut.len();
    let mut j: usize = 0;
    proof {
        assert(r.deep_view() + ut.deep_view().take(0) =~~= r.deep_view());
    }
    let ghost base = r.deep_view();
    while j < m
        invariant
            j <= m,
            m == ut@.len(),
            r.deep_view() == base + ut.deep_view().take(j as int),
        decreases m - j,
    {
        let cp = copy_chars(&ut[j]);
        proof {
            assert(ut.deep_view()[j as int] == ut@[j as int]@);
        }
        let ghost prev = r.deep_view();
        r.push(cp);
        j = j + 1;
        proof {
            assert(r.deep_view() =~~= prev.push(ut.deep_view()[j as int - 1]));
            assert(prev.push(ut.deep_view()[j as int - 1]) =~~= base + ut.deep_view().take(
                j as int,
            ));
        }
    }
    proof {
        assert(ut.deep_view().take(m as int) =~~= ut.deep_view());
    }
    let ghost prev = r.deep_view();
    r.push(uc);
    proof {
        assert(r.deep_view() =~~= prev.push(uc@));
        assert(prev.push(uc@) =~~= doc_terms(d.model()));
    }
    r
}

/// Builds the inverted index over the given documents, in their order.
///
/// The result is well formed and holds exactly the given documents; it
/// is a pure function of their titles and urls, so an unchanged document
/// set always yields an index with the same content.
pub fn build(docs: Vec<Document>) -> (r: SearchIndex)
    ensures
        r.wf(),
        r.model() == docs_model(docs@),
{
    let nd: usize = docs.len();
    let ghost dm = docs_model(docs@);
    proof {
        assert(dm.len() == nd);
    }
    let mut terms: Vec<Vec<char>> = Vec::new();
    let mut di: usize = 0;
    while di < nd
        invariant
            di <= nd,
            nd == docs@.len(),
            dm == docs_model(docs@),
            distinct_terms(terms.deep_view()),
            forall|d: int, t: Seq<char>|
                0 <= d < di && #[trigger] term_freq(t, dm[d]) > 0 ==> terms.deep_view().contains(
                    t,
                ),
        decreases nd - di,
    {
        let dts = doc_terms_vec(&docs[di]);
        proof {
            assert(dm[di as int] == docs@[di as int].model());
        }
        let m: usize = dts.len();
        let mut j: usize = 0;
        while j < m
            invariant
                j <= m,
                di < nd,
                nd == docs@.len(),
                dm == docs_model(docs@),
                m == dts@.len(),
                dts.deep_view() == doc_terms(dm[di as int]),
                distinct_terms(terms.deep_view()),
                forall|d: int, t: Seq<char>|
                    0 <= d < di && #[trigger] term_freq(t, dm[d]) > 0
                        ==> terms.deep_view().contains(t),
                forall|y: int|
                    0 <= y < j ==> terms.deep_view().contains(#[trigger] dts.deep_view()[y]),
            decreases m - j,
        {
            proof {
                assert(dts.deep_view()[j as int] == dts@[j as int]@);
            }
            if !contains_term(&terms, &dts[j]) {
                let ghost old_terms = terms.deep_view();
                let cp = copy_chars(&dts[j]);
                terms.push(cp);
                proof {
                    assert(terms.deep_view() =~~= old_terms.push(dts@[j as int]@));
                    assert forall|t: Seq<char>| #[trigger]
                        old_terms.contains(t) implies terms.deep_view().contains(t) by {
                        let w = choose|w: int| 0 <= w < old_terms.len() && old_terms[w] == t;
                        assert(terms.deep_view()[w] == t);
                    }
                    assert(terms.deep_view()[old_terms.len() as int] == dts@[j as int]@);
                    assert forall|a: int, b: int|
                        0 <= a < b < terms.deep_view().len() implies terms.deep_view()[a]
                        != terms.deep_view()[b] by {
                        if b == old_terms.len() {
                            assert(old_terms.contains(old_terms[a]));
                        }
                    }
                }
            }
            j = j + 1;
        }
        proof {
            assert forall|t: Seq<char>| #[trigger]
                term_freq(t, dm[di as int]) > 0 implies terms.deep_view().contains(t) by {
                lemma_count_pos(doc_terms(dm[di as int]), t);
                let w = choose|w: int|
                    0 <= w < doc_terms(dm[di as int]).len() && doc_terms(dm[di as int])[w] == t;
                assert(dts.deep_view()[w] == t);
            }
        }
        di = di + 1;
    }

    let nt: usize = terms.len();
    let mut postings: Vec<Vec<Posting>> = Vec::new();
    let mut x: usize = 0;
    while x < nt
        invariant
            x <= nt,
            nt == terms@.len(),
            nd == docs@.len(),
            dm == docs_model(docs@),
            postings@.len() == x,
            forall|y: int|
                0 <= y < x ==> postings_ok(
                    terms.deep_view()[y],
                    (#[trigger] postings@[y])@,
                    dm,
                ),
        decreases nt - x,
    {
        let ghost tx = terms.deep_view()[x as int];
        proof {
            assert(tx == terms@[x as int]@);
        }
        let mut pl: Vec<Posting> = Vec::new();
        let mut d: usize = 0;
        proof {
            assert(dm.take(0) =~= Seq::<(Seq<char>, Seq<char>)>::empty());
        }
        while d < nd
            invariant
                d <= nd,
                nd == docs@.len(),
                x < nt,
                nt == terms@.len(),
                dm == docs_model(docs@),
                tx == terms@[x as int]@,
                forall|k: int| 0 <= k < pl@.len() ==> (#[trigger] pl@[k]).doc < d,
                forall|k: int|
                    0 <= k < pl@.len() ==> (#[trigger] pl@[k]).freq as nat == term_freq(
                        tx,
                        dm[pl@[k].doc as int],
                    ),
                forall|k: int| 0 <= k < pl@.len() ==> (#[trigger] pl@[k]).freq > 0,
                forall|k1: int, k2: int|
                    0 <= k1 < k2 < pl@.len() ==> (#[trigger] pl@[k1]).doc < (#[trigger] pl@[k2]).doc,
                forall|dd: int|
                    0 <= dd < d && term_freq(tx, #[trigger] dm[dd]) > 0 ==> exists|k: int|
                        0 <= k < pl@.len() && (#[trigger] pl@[k]).doc == dd,
                pl@.len() == doc_freq(tx, dm.take(d as int)),
            decreases nd - d,
        {
            let dts = doc_terms_vec(&docs[d]);
            proof {
                assert(dm[d as int] == docs@[d as int].model());
            }
            let f: u64 = count_term(&dts, &terms[x]);
            let ghost old_pl = pl@;
            if f > 0 {
                pl.push(Posting { doc: d, freq: f });
                proof {
                    assert(pl@[old_pl.len() as int].doc == d);
                    assert forall|dd: int|
                        0 <= dd < d + 1 && term_freq(tx, #[trigger] dm[dd]) > 0 implies exists|
                        k: int,
                    |
                        0 <= k < pl@.len() && (#[trigger] pl@[k]).doc == dd by {
                        if dd == d {
                            assert(pl@[old_pl.len() as int].doc == dd);
                        } else {
                            let k = choose|k: int|
                                0 <= k < old_pl.len() && (#[trigger] old_pl[k]).doc == dd;
                            assert(pl@[k].doc == dd);
                        }
                    }
                }
            }
            proof {
                assert(dm.take(d as int + 1).drop_last() =~= dm.take(d as int));
                assert(dm.take(d as int + 1).last() == dm[d as int]);
            }
            d = d + 1;
        }
        proof {
            assert(dm.take(nd as int) =~= dm);
            assert(postings_ok(tx, pl@, dm));
        }
        let ghost old_postings = postings@;
        postings.push(pl);
        x = x + 1;
    }
    let r = SearchIndex { docs, terms, postings };
    proof {
        assert(r.wf());
    }
    r
}

} // verus!
