//! The index builder and query engine, end to end.

use sitesearch::extract::extract;
use sitesearch::index::build;
use sitesearch::index::Document;
use sitesearch::tokenize::chars_of;
use sitesearch::tokenize::tokenize_chars;

fn doc(title: &str, url: &str) -> Document {
    Document::new(String::from(title), String::from(url))
}

#[test]
fn tokenizer_lowercases_and_splits() {
    let cs = chars_of("Hello, WORLD-42");
    let toks = tokenize_chars(&cs);
    let words: Vec<String> = toks.iter().map(|t| t.iter().collect()).collect();
    assert_eq!(words, vec!["hello", "world", "42"]);
}

#[test]
fn tokenizer_drops_separators_only_text() {
    let cs = chars_of("  \t ... !!");
    let toks = tokenize_chars(&cs);
    assert_eq!(toks.len(), 0);
}

#[test]
fn end_to_end_two_documents() {
    let (ta, ua) = extract("a.html", "<title>Getting Started</title>");
    let (tb, ub) = extract("b.html", "<title>Advanced Usage</title>");
    let idx = build(vec![Document::new(ta, ua), Document::new(tb, ub)]);
    let hits = idx.search("started");
    assert_eq!(hits.len(), 1);
    assert_eq!(hits[0].0, "Getting Started");
    assert_eq!(hits[0].1, "a.html");
    assert_eq!(idx.search("zzz").len(), 0);
    assert_eq!(idx.search("").len(), 0);
}

#[test]
fn empty_query_on_nonempty_index() {
    let idx = build(vec![doc("One", "1.html"), doc("Two", "2.html")]);
    assert_eq!(idx.search("").len(), 0);
    assert_eq!(idx.search("   \t ").len(), 0);
}

#[test]
fn unmatched_query_returns_empty() {
    let idx = build(vec![doc("One", "1.html"), doc("Two", "2.html")]);
    assert_eq!(idx.search("three").len(), 0);
}

#[test]
fn rebuild_gives_identical_results() {
    let mk = || {
        build(vec![
            doc("Rust Guide", "rust.html"),
            doc("Python Guide", "python.html"),
            doc("Guide to Guides", "meta.html"),
        ])
    };
    let a = mk();
    let b = mk();
    for q in ["guide", "rust guide", "python", "zzz", ""] {
        assert_eq!(a.search(q), b.search(q));
    }
}

#[test]
fn higher_term_frequency_ranks_first() {
    let idx = build(vec![
        doc("rust intro", "one.html"),
        doc("rust rust", "two.html"),
    ]);
    let hits = idx.search("rust");
    assert_eq!(hits.len(), 2);
    assert_eq!(hits[0].1, "two.html");
    assert_eq!(hits[1].1, "one.html");
}

#[test]
fn more_matching_terms_rank_first() {
    let idx = build(vec![
        doc("apple", "0.html"),
        doc("banana", "1.html"),
        doc("apple banana", "2.html"),
    ]);
    let hits = idx.search("apple banana");
    assert_eq!(hits.len(), 3);
    assert_eq!(hits[0].1, "2.html");
    assert_eq!(hits[1].1, "0.html");
    assert_eq!(hits[2].1, "1.html");
}

#[test]
fn equal_scores_keep_indexing_order() {
    let idx = build(vec![
        doc("same words", "first.html"),
        doc("same words", "second.html"),
        doc("same words", "third.html"),
    ]);
    let hits = idx.search("words");
    assert_eq!(hits.len(), 3);
    assert_eq!(hits[0].1, "first.html");
    assert_eq!(hits[1].1, "second.html");
    assert_eq!(hits[2].1, "third.html");
}

#[test]
fn cutoff_at_ten_results() {
    let mut docs: Vec<Document> = Vec::new();
    for i in 0..12 {
        docs.push(doc("common topic", &format!("{}.html", i)));
    }
    let idx = build(docs);
    let hits = idx.search("topic");
    assert_eq!(hits.len(), 10);
    for (i, hit) in hits.iter().enumerate() {
        assert_eq!(hit.1, format!("{}.html", i));
    }
}

#[test]
fn url_tokens_are_searchable() {
    let idx = build(vec![doc("Nothing Here", "guide.html")]);
    let hits = idx.search("guide");
    assert_eq!(hits.len(), 1);
    assert_eq!(hits[0].0, "Nothing Here");
}

#[test]
fn whole_url_is_a_term() {
    let idx = build(vec![doc("Nothing", "readme")]);
    let hits = idx.search("readme");
    assert_eq!(hits.len(), 1);
}

#[test]
fn query_is_case_insensitive() {
    let idx = build(vec![doc("Getting Started", "a.html")]);
    assert_eq!(idx.search("STARTED").len(), 1);
    assert_eq!(idx.search("Started").len(), 1);
}

#[test]
fn doc_count_reports_documents() {
    let idx = build(vec![doc("One", "1.html"), doc("Two", "2.html")]);
    assert_eq!(idx.doc_count(), 2);
}

#[test]
fn postings_hold_exact_frequencies() {
    let idx = build(vec![
        doc("alpha alpha beta", "a.html"),
        doc("beta", "b.html"),
    ]);
    let alpha = chars_of("alpha");
    let beta = chars_of("beta");
    let missing = chars_of("gamma");
    assert_eq!(idx.postings_of(&alpha), vec![(0usize, 2u64)]);
    assert_eq!(idx.postings_of(&beta), vec![(0usize, 1u64), (1usize, 1u64)]);
    assert_eq!(idx.postings_of(&missing), vec![]);
}

#[test]
fn empty_index_answers_empty() {
    let idx = build(Vec::new());
    assert_eq!(idx.search("anything").len(), 0);
    assert_eq!(idx.doc_count(), 0);
}
