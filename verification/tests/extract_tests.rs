//! The field extractor: titles, fallbacks and urls.

use sitesearch::extract::extract;
use sitesearch::extract::is_html;

#[test]
fn title_element_verbatim() {
    let (title, url) = extract("docs/a.html", "<html><title>  My Title </title></html>");
    assert_eq!(title, "  My Title ");
    assert_eq!(url, "docs/a.html");
}

#[test]
fn first_title_element_wins() {
    let (title, _) = extract("a.html", "<title>First</title><title>Second</title>");
    assert_eq!(title, "First");
}

#[test]
fn empty_title_element() {
    let (title, _) = extract("a.html", "<title></title>");
    assert_eq!(title, "");
}

#[test]
fn missing_title_falls_back_to_basename() {
    let (title, url) = extract("docs/page.html", "<p>no title here</p>");
    assert_eq!(title, "page.html");
    assert_eq!(url, "docs/page.html");
}

#[test]
fn unclosed_title_falls_back_to_basename() {
    let (title, _) = extract("docs/page.html", "<title>never closed");
    assert_eq!(title, "page.html");
}

#[test]
fn leading_slash_stripped_from_url() {
    let (_, url) = extract("/a/b.html", "<title>T</title>");
    assert_eq!(url, "a/b.html");
}

#[test]
fn basename_of_plain_file() {
    let (title, url) = extract("top.html", "x");
    assert_eq!(title, "top.html");
    assert_eq!(url, "top.html");
}

#[test]
fn is_html_accepts_suffix() {
    assert!(is_html("a.html"));
    assert!(is_html("index.html"));
}

#[test]
fn is_html_rejects_others() {
    assert!(!is_html("a.htm"));
    assert!(!is_html("html"));
    assert!(!is_html("a.html.txt"));
    assert!(!is_html(""));
}
