//! The field extractor: a title and a canonical url from raw HTML.
//!
//! The title is the text between the first `<title>` and the next
//! `</title>`, kept verbatim; a document without such an element falls
//! back to the file's base name. The url is the given relative path with
//! any leading slashes removed.

use vstd::prelude::*;
use crate::tokenize::chars_of;

verus! {

/// The pattern `pat` stands in `s` at position `i`.
pub open spec fn found_at(s: Seq<char>, pat: Seq<char>, i: int) -> bool {
    s.subrange(i, i + pat.len() as int) == pat
}

/// The first position at or after `from` where `pat` stands in `s`.
pub open spec fn spec_find(s: Seq<char>, pat: Seq<char>, from: int) -> Option<int>
    decreases s.len() + 1 - from,
{
    if from < 0 {
        None
    } else if from + pat.len() > s.len() {
        None
    } else if found_at(s, pat, from) {
        Some(from)
    } else {
        spec_find(s, pat, from + 1)
    }
}

/// A found position lies between `from` and the end of `s`, and the
/// pattern stands there.
pub proof fn lemma_find_some(s: Seq<char>, pat: Seq<char>, from: int, i: int)
    requires
        spec_find(s, pat, from) == Some(i),
    ensures
        from <= i,
        i + pat.len() <= s.len(),
        found_at(s, pat, i),
    decreases s.len() + 1 - from,
{
    if from < 0 || from + pat.len() > s.len() {
    } else if found_at(s, pat, from) {
    } else {
        lemma_find_some(s, pat, from + 1, i);
    }
}

/// The position of the last `/` in `s`, or `-1` where there is none.
pub open spec fn last_slash(s: Seq<char>) -> int
    decreases s.len(),
{
    if s.len() <= 0 {
        -1
    } else if s.last() == '/' {
        s.len() - 1
    } else {
        last_slash(s.drop_last())
    }
}

/// The last slash lies within the sequence.
pub proof fn lemma_last_slash_bounds(s: Seq<char>)
    ensures
        -1 <= last_slash(s) < s.len(),
    decreases s.len(),
{
    if s.len() > 0 && s.last() != '/' {
        lemma_last_slash_bounds(s.drop_last());
    }
}

/// The part of `s` after its last `/`: the file's base name.
pub open spec fn basename(s: Seq<char>) -> Seq<char> {
    s.subrange(last_slash(s) + 1, s.len() as int)
}

/// `s` with its leading slashes removed.
pub open spec fn strip_slashes(s: Seq<char>) -> Seq<char>
    decreases s.len(),
{
    if s.len() > 0 && s[0] == '/' {
        strip_slashes(s.drop_first())
    } else {
        s
    }
}

/// The canonical url of a document at the relative path `path`.
pub open spec fn spec_url(path: Seq<char>) -> Seq<char> {
    strip_slashes(path)
}

/// The characters of `<title>`.
pub open spec fn open_tag() -> Seq<char> {
    seq!['<', 't', 'i', 't', 'l', 'e', '>']
}

/// The characters of `</title>`.
pub open spec fn close_tag() -> Seq<char> {
    seq!['<', '/', 't', 'i', 't', 'l', 'e', '>']
}

/// The title of a document: the text between the first `<title>` and the
/// next `</title>`, verbatim; without such an element, the base name of
/// the document's url.
pub open spec fn spec_title(path: Seq<char>, content: Seq<char>) -> Seq<char> {
    match spec_find(content, open_tag(), 0) {
        Some(i) => match spec_find(content, close_tag(), i + open_tag().len()) {
            Some(j) => content.subrange(i + open_tag().len(), j),
            None => basename(spec_url(path)),
        },
        None => basename(spec_url(path)),
    }
}

/// The suffix that marks a document file.
pub open spec fn html_suffix() -> Seq<char> {
    seq!['.', 'h', 't', 'm', 'l']
}

/// Whether a file name ends in `.html`: only such files are indexed.
pub fn is_html(name: &str) -> (r: bool)
    ensures
        r == (name@.len() >= 5 && name@.subrange(name@.len() - 5, name@.len() as int)
            == html_suffix()),
{
    let cs = chars_of(name);
    let n: usize = cs.len();
    if n < 5 {
        return false;
    }
    let ok: bool = cs[n - 5] == '.' && cs[n - 4] == 'h' && cs[n - 3] == 't' && cs[n - 2] == 'm'
        && cs[n - 1] == 'l';
    proof {
        let sub = name@.subrange(n as int - 5, n as int);
        assert(sub[0] == name@[n as int - 5]);
        assert(sub[1] == name@[n as int - 4]);
        assert(sub[2] == name@[n as int - 3]);
        assert(sub[3] == name@[n as int - 2]);
        assert(sub[4] == name@[n as int - 1]);
        if ok {
            assert(sub =~= html_suffix());
        } else {
            if sub == html_suffix() {
                assert(sub[0] == '.' && sub[1] == 'h' && sub[2] == 't' && sub[3] == 'm' && sub[4]
                    == 'l');
            }
        }
    }
    ok
}

/// Decides whether `pat` stands in `hay` at position `i`.
fn match_at(hay: &Vec<char>, pat: &Vec<char>, i: usize) -> (r: bool)
    requires
        i + pat@.len() <= hay@.len(),
    ensures
        r == found_at(hay@, pat@, i as int),
{
    let m: usize = pat.len();
    let hn: usize = hay.len();
    let mut j: usize = 0;
    while j < m
        invariant
            j <= m,
            m == pat@.len(),
            hn == hay@.len(),
            i + m <= hn,
            forall|k: int| 0 <= k < j ==> hay@[i + k] == pat@[k],
        decreases m - j,
    {
        if hay[i + j] != pat[j] {
            proof {
                assert(hay@.subrange(i as int, i + m) [j as int] == hay@[i + j]);
            }
            return false;
        }
        j = j + 1;
    }
    proof {
        assert(hay@.subrange(i as int, i + m) =~= pat@);
    }
    true
}

/// Finds the first position at or after `from` where `pat` stands in `hay`.
pub fn find_sub(hay: &Vec<char>, pat: &Vec<char>, from: usize) -> (r: Option<usize>)
    ensures
        match r {
            Some(i) => spec_find(hay@, pat@, from as int) == Some(i as int),
            None => spec_find(hay@, pat@, from as int) is None,
        },
{
    if pat.len() > hay.len() {
        return None;
    }
    let bound: usize = hay.len() - pat.len();
    if from > bound {
        return None;
    }
    let mut i: usize = from;
    while i <= bound
        invariant
            from <= i,
            i <= bound + 1,
            bound == hay@.len() - pat@.len(),
            pat@.len() <= hay@.len(),
            hay@.len() <= usize::MAX,
            spec_find(hay@, pat@, from as int) == spec_find(hay@, pat@, i as int),
        decreases bound + 1 - i,
    {
        if match_at(hay, pat, i) {
            return Some(i);
        }
        proof {
            if pat@.len() == 0 {
                assert(hay@.subrange(i as int, i as int) =~= pat@);
            }
            assert(pat@.len() >= 1);
        }
        i = i + 1;
    }
    None
}

/// The base name of `s`: everything after its last slash.
pub fn basename_str(s: &str) -> (r: String)
    ensures
        r@ == basename(s@),
{
    let cs = chars_of(s);
    let n: usize = cs.len();
    let mut i: usize = n;
    proof {
        assert(cs@.take(n as int) =~= cs@);
        lemma_last_slash_bounds(cs@);
    }
    while i > 0 && cs[i - 1] != '/'
        invariant
            i <= n,
            n == s@.len(),
            cs@ == s@,
            last_slash(cs@) == last_slash(cs@.take(i as int)),
        decreases i,
    {
        proof {
            assert(cs@.take(i as int).drop_last() =~= cs@.take(i as int - 1));
            assert(cs@.take(i as int).last() == cs@[i as int - 1]);
        }
        i = i - 1;
    }
    proof {
        if i > 0 {
            assert(cs@.take(i as int).last() == cs@[i as int - 1]);
        }
        assert(last_slash(s@) == i - 1);
    }
    let r = s.substring_char(i, s.unicode_len());
    r.to_owned()
}

/// Derives the stored fields of a document: its title and its url.
///
/// The url is `path` with leading slashes removed; the title is the text
/// between the first `<title>` and the next `</title>` in `content`, or
/// the base name of the url where no such element exists.
pub fn extract(path: &str, content: &str) -> (r: (String, String))
    ensures
        r.0@ == spec_title(path@, content@),
        r.1@ == spec_url(path@),
{
    let pc = chars_of(path);
    let n: usize = pc.len();
    let mut k: usize = 0;
    proof {
        assert(path@.subrange(0, n as int) =~= path@);
    }
    while k < n && pc[k] == '/'
        invariant
            k <= n,
            n == path@.len(),
            pc@ == path@,
            strip_slashes(path@) == strip_slashes(path@.subrange(k as int, n as int)),
        decreases n - k,
    {
        proof {
            assert(path@.subrange(k as int, n as int).drop_first() =~= path@.subrange(
                k as int + 1,
                n as int,
            ));
        }
        k = k + 1;
    }
    proof {
        assert(strip_slashes(path@.subrange(k as int, n as int)) == path@.subrange(
            k as int,
            n as int,
        ));
    }
    let url_part = s_substring(path, k, n);
    let url: String = url_part.to_owned();

    let cc = chars_of(content);
    let ot = open_tag_vec();
    let ct = close_tag_vec();
    let title: String = match find_sub(&cc, &ot, 0) {
        Some(i) => {
            let cn: usize = cc.len();
            proof {
                lemma_find_some(cc@, ot@, 0, i as int);
                assert(ot@.len() == 7);
                assert(i + 7 <= cn);
            }
            match find_sub(&cc, &ct, i + 7) {
                Some(j) => {
                    proof {
                        lemma_find_some(cc@, ct@, i as int + 7, j as int);
                    }
                    let inner = s_substring(content, i + 7, j);
                    inner.to_owned()
                },
                None => basename_str(url_part),
            }
        },
        None => basename_str(url_part),
    };
    (title, url)
}

/// The substring of `s` between the character positions `from` and `to`.
fn s_substring<'a>(s: &'a str, from: usize, to: usize) -> (r: &'a str)
    requires
        from <= to <= s@.len(),
    ensures
        r@ == s@.subrange(from as int, to as int),
{
    s.substring_char(from, to)
}

/// Builds the character vector of `<title>`.
fn open_tag_vec() -> (r: Vec<char>)
    ensures
        r@ == open_tag(),
{
    let mut v: Vec<char> = Vec::new();
    v.push('<');
    v.push('t');
    v.push('i');
    v.push('t');
    v.push('l');
    v.push('e');
    v.push('>');
    proof {
        assert(v@ =~= open_tag());
    }
    v
}

/// Builds the character vector of `</title>`.
fn close_tag_vec() -> (r: Vec<char>)
    ensures
        r@ == close_tag(),
{
    let mut v: Vec<char> = Vec::new();
    v.push('<');
    v.push('/');
    v.push('t');
    v.push('i');
    v.push('t');
    v.push('l');
    v.push('e');
    v.push('>');
    proof {
        assert(v@ =~= close_tag());
    }
    v
}

} // verus!
