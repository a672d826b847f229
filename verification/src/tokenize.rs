//! The text analyzer: lowercase alphanumeric runs.
//!
//! A token is a maximal run of ASCII alphanumeric characters, mapped to
//! lowercase; every other character is a separator and is dropped.

use vstd::prelude::*;

verus! {

/// A character that belongs to a token: an ASCII letter or digit.
pub open spec fn is_alnum(c: char) -> bool {
    ('a' <= c && c <= 'z') || ('A' <= c && c <= 'Z') || ('0' <= c && c <= '9')
}

/// ASCII lowercase: uppercase letters are shifted, all else is unchanged.
pub open spec fn lower(c: char) -> char {
    if 'A' <= c && c <= 'Z' {
        ((c as u32) + 32) as char
    } else {
        c
    }
}

/// The tokens of `s` with a partial token `cur` carried in from the left.
pub open spec fn toks_from(s: Seq<char>, cur: Seq<char>) -> Seq<Seq<char>>
    decreases s.len(),
{
    if s.len() <= 0 {
        if cur.len() == 0 {
            Seq::empty()
        } else {
            seq![cur]
        }
    } else if is_alnum(s[0]) {
        toks_from(s.drop_first(), cur.push(lower(s[0])))
    } else if cur.len() == 0 {
        toks_from(s.drop_first(), cur)
    } else {
        seq![cur] + toks_from(s.drop_first(), Seq::empty())
    }
}

/// The token sequence of a text: maximal lowercased alphanumeric runs.
pub open spec fn tokens(s: Seq<char>) -> Seq<Seq<char>> {
    toks_from(s, Seq::empty())
}

/// Decides `is_alnum`.
pub fn is_alnum_char(c: char) -> (r: bool)
    ensures
        r == is_alnum(c),
{
    ('a' <= c && c <= 'z') || ('A' <= c && c <= 'Z') || ('0' <= c && c <= '9')
}

/// Computes `lower`.
pub fn lower_char(c: char) -> (r: char)
    ensures
        r == lower(c),
{
    if 'A' <= c && c <= 'Z' {
        let u: u32 = c as u32;
        let b: u8 = (u + 32) as u8;
        proof {
            assert(b == (u + 32) as u32) by (bit_vector)
                requires
                    65 <= u && u <= 90,
                    b == (u + 32) as u8,
            ;
        }
        b as char
    } else {
        c
    }
}

/// The characters of a string as a vector.
pub fn chars_of(s: &str) -> (r: Vec<char>)
    ensures
        r@ == s@,
{
    let n: usize = s.unicode_len();
    let mut r: Vec<char> = Vec::new();
    let mut i: usize = 0;
    while i < n
        invariant
            i <= n,
            n == s@.len(),
            r@ == s@.take(i as int),
        decreases n - i,
    {
        r.push(s.get_char(i));
        i = i + 1;
        proof {
            assert(r@ =~= s@.take(i as int));
        }
    }
    proof {
        assert(r@ =~= s@);
    }
    r
}

/// Splits a character sequence into its tokens.
pub fn tokenize_chars(cs: &Vec<char>) -> (r: Vec<Vec<char>>)
    ensures
        r.deep_view() == tokens(cs@),
{
    let n: usize = cs.len();
    let mut out: Vec<Vec<char>> = Vec::new();
    let mut cur: Vec<char> = Vec::new();
    let mut i: usize = 0;
    proof {
        assert(cs@.subrange(0, n as int) =~= cs@);
        assert(out.deep_view() =~~= Seq::<Seq<char>>::empty());
        assert(Seq::<Seq<char>>::empty() + toks_from(cs@, Seq::empty()) =~~= toks_from(
            cs@,
            Seq::empty(),
        ));
    }
    while i < n
        invariant
            i <= n,
            n == cs@.len(),
            tokens(cs@) == out.deep_view() + toks_from(cs@.subrange(i as int, n as int), cur@),
        decreases n - i,
    {
        let ghost pre: Seq<char> = cs@.subrange(i as int, n as int);
        proof {
            assert(pre[0] == cs@[i as int]);
            assert(pre.drop_first() =~= cs@.subrange(i as int + 1, n as int));
        }
        let c = cs[i];
        if is_alnum_char(c) {
            cur.push(lower_char(c));
        } else if cur.len() > 0 {
            let ghost done: Seq<char> = cur@;
            out.push(cur);
            cur = Vec::new();
            proof {
                assert(out.deep_view() =~~= out.deep_view().drop_last().push(done));
                assert(out.deep_view().drop_last().push(done) + toks_from(
                    cs@.subrange(i as int + 1, n as int),
                    Seq::empty(),
                ) =~~= out.deep_view().drop_last() + (seq![done] + toks_from(
                    cs@.subrange(i as int + 1, n as int),
                    Seq::empty(),
                )));
            }
        }
        i = i + 1;
    }
    proof {
        assert(cs@.subrange(n as int, n as int) =~= Seq::<char>::empty());
    }
    if cur.len() > 0 {
        let ghost done: Seq<char> = cur@;
        out.push(cur);
        proof {
            assert(out.deep_view() =~~= out.deep_view().drop_last().push(done));
            assert(out.deep_view().drop_last() + seq![done] =~~= out.deep_view());
        }
    } else {
        proof {
            assert(out.deep_view() + Seq::<Seq<char>>::empty() =~~= out.deep_view());
        }
    }
    out
}

/// A text of separators alone has no tokens.
pub proof fn lemma_tokens_separators(s: Seq<char>)
    requires
        forall|i: int| 0 <= i < s.len() ==> !is_alnum(#[trigger] s[i]),
    ensures
        tokens(s) == Seq::<Seq<char>>::empty(),
    decreases s.len(),
{
    if s.len() > 0 {
        let rest = s.drop_first();
        assert forall|i: int| 0 <= i < rest.len() implies !is_alnum(#[trigger] rest[i]) by {
            assert(rest[i] == s[i + 1]);
        }
        lemma_tokens_separators(rest);
    }
}

/// How often the term `t` occurs in the term sequence `ts`.
pub open spec fn count_occ(ts: Seq<Seq<char>>, t: Seq<char>) -> nat
    decreases ts.len(),
{
    if ts.len() <= 0 {
        0
    } else {
        count_occ(ts.drop_last(), t) + if ts.last() == t {
            1nat
        } else {
            0nat
        }
    }
}

/// No term occurs twice in the sequence.
pub open spec fn distinct_terms(ts: Seq<Seq<char>>) -> bool {
    forall|a: int, b: int| 0 <= a < b < ts.len() ==> ts[a] != ts[b]
}

/// The sequence with each term kept at its first occurrence only.
pub open spec fn dedup(ts: Seq<Seq<char>>) -> Seq<Seq<char>>
    decreases ts.len(),
{
    if ts.len() <= 0 {
        ts
    } else {
        let rest = dedup(ts.drop_last());
        if ts.drop_last().contains(ts.last()) {
            rest
        } else {
            rest.push(ts.last())
        }
    }
}

/// A term occurs in a sequence exactly when its count there is positive.
pub proof fn lemma_count_pos(ts: Seq<Seq<char>>, t: Seq<char>)
    ensures
        count_occ(ts, t) > 0 <==> ts.contains(t),
    decreases ts.len(),
{
    if ts.len() > 0 {
        lemma_count_pos(ts.drop_last(), t);
        if ts.last() == t {
            assert(ts[ts.len() - 1] == t);
        } else if ts.drop_last().contains(t) {
            let w = choose|w: int| 0 <= w < ts.drop_last().len() && ts.drop_last()[w] == t;
            assert(ts[w] == t);
        } else if ts.contains(t) {
            let w = choose|w: int| 0 <= w < ts.len() && ts[w] == t;
            assert(ts.drop_last()[w] == t);
        }
    }
}

/// Removing duplicates keeps exactly the terms of the given sequence,
/// and leaves each of them once.
pub proof fn lemma_dedup(ts: Seq<Seq<char>>)
    ensures
        distinct_terms(dedup(ts)),
        forall|t: Seq<char>| #[trigger] dedup(ts).contains(t) <==> ts.contains(t),
    decreases ts.len(),
{
    if ts.len() > 0 {
        lemma_dedup(ts.drop_last());
        let pre = ts.drop_last();
        assert forall|t: Seq<char>| #[trigger] pre.contains(t) implies ts.contains(t) by {
            let w = choose|w: int| 0 <= w < pre.len() && pre[w] == t;
            assert(ts[w] == t);
        }
        assert(ts.contains(ts.last())) by {
            assert(ts[ts.len() - 1] == ts.last());
        }
        assert forall|t: Seq<char>| #[trigger] ts.contains(t) && t != ts.last() implies pre.contains(
            t,
        ) by {
            let w = choose|w: int| 0 <= w < ts.len() && ts[w] == t;
            assert(pre[w] == t);
        }
        if !pre.contains(ts.last()) {
            let d = dedup(pre);
            assert forall|a: int, b: int|
                0 <= a < b < d.push(ts.last()).len() implies d.push(ts.last())[a] != d.push(
                ts.last(),
            )[b] by {
                if b == d.len() {
                    assert(d.contains(d[a]));
                }
            }
            assert forall|t: Seq<char>| #[trigger] d.push(ts.last()).contains(t) implies
                ts.contains(t) by {
                let w = choose|w: int|
                    0 <= w < d.push(ts.last()).len() && d.push(ts.last())[w] == t;
                if w < d.len() {
                    assert(d[w] == t);
                    assert(d.contains(t));
                }
            }
            assert forall|t: Seq<char>| ts.contains(t) implies #[trigger] d.push(
                ts.last(),
            ).contains(t) by {
                if t == ts.last() {
                    assert(d.push(ts.last())[d.len() as int] == t);
                } else {
                    assert(d.contains(t));
                    let w = choose|w: int| 0 <= w < d.len() && d[w] == t;
                    assert(d.push(ts.last())[w] == t);
                }
            }
        }
    }
}

/// Copies a character vector.
pub fn copy_chars(v: &Vec<char>) -> (r: Vec<char>)
    ensures
        r@ == v@,
{
    let n: usize = v.len();
    let mut r: Vec<char> = Vec::new();
    let mut j: usize = 0;
    while j < n
        invariant
            j <= n,
            n == v@.len(),
            r@ == v@.take(j as int),
        decreases n - j,
    {
        r.push(v[j]);
        j = j + 1;
        proof {
            assert(r@ =~= v@.take(j as int));
        }
    }
    proof {
        assert(r@ =~= v@);
    }
    r
}

/// Decides equality of two character vectors.
pub fn chars_eq(a: &Vec<char>, b: &Vec<char>) -> (r: bool)
    ensures
        r == (a@ == b@),
{
    if a.len() != b.len() {
        return false;
    }
    let n: usize = a.len();
    let mut j: usize = 0;
    while j < n
        invariant
            j <= n,
            n == a@.len(),
            n == b@.len(),
            forall|m: int| 0 <= m < j ==> a@[m] == b@[m],
        decreases n - j,
    {
        if a[j] != b[j] {
            return false;
        }
        j = j + 1;
    }
    proof {
        assert(a@ =~= b@);
    }
    true
}

/// Decides whether the term `t` occurs in `ts`.
pub fn contains_term(ts: &Vec<Vec<char>>, t: &Vec<char>) -> (r: bool)
    ensures
        r == ts.deep_view().contains(t@),
{
    let n: usize = ts.len();
    let mut j: usize = 0;
    while j < n
        invariant
            j <= n,
            n == ts@.len(),
            forall|m: int| 0 <= m < j ==> ts.deep_view()[m] != t@,
        decreases n - j,
    {
        proof {
            assert(ts.deep_view()[j as int] == ts@[j as int]@);
        }
        if chars_eq(&ts[j], t) {
            proof {
                assert(ts.deep_view()[j as int] == t@);
            }
            return true;
        }
        j = j + 1;
    }
    proof {
        if ts.deep_view().contains(t@) {
            let w = choose|w: int| 0 <= w < ts.deep_view().len() && ts.deep_view()[w] == t@;
            assert(ts.deep_view()[w] != t@);
        }
    }
    false
}

/// Counts the occurrences of the term `t` in `ts`.
pub fn count_term(ts: &Vec<Vec<char>>, t: &Vec<char>) -> (r: u64)
    ensures
        r as nat == count_occ(ts.deep_view(), t@),
{
    let n: usize = ts.len();
    let mut r: u64 = 0;
    let mut j: usize = 0;
    while j < n
        invariant
            j <= n,
            n == ts@.len(),
            r <= j,
            r as nat == count_occ(ts.deep_view().take(j as int), t@),
        decreases n - j,
    {
        let ghost pre = ts.deep_view().take(j as int + 1);
        proof {
            assert(pre.drop_last() =~~= ts.deep_view().take(j as int));
            assert(pre.last() == ts.deep_view()[j as int]);
            assert(ts.deep_view()[j as int] == ts@[j as int]@);
        }
        if chars_eq(&ts[j], t) {
            r = r + 1;
        }
        j = j + 1;
    }
    proof {
        assert(ts.deep_view().take(n as int) =~~= ts.deep_view());
    }
    r
}

/// Keeps the first occurrence of each term of `ts`, in order.
pub fn dedup_terms(ts: &Vec<Vec<char>>) -> (r: Vec<Vec<char>>)
    ensures
        r.deep_view() == dedup(ts.deep_view()),
{
    let n: usize = ts.len();
    let mut out: Vec<Vec<char>> = Vec::new();
    let mut j: usize = 0;
    proof {
        assert(ts.deep_view().take(0) =~~= Seq::<Seq<char>>::empty());
        assert(out.deep_view() =~~= dedup(ts.deep_view().take(0)));
    }
    while j < n
        invariant
            j <= n,
            n == ts@.len(),
            out.deep_view() == dedup(ts.deep_view().take(j as int)),
        decreases n - j,
    {
        let ghost pre = ts.deep_view().take(j as int + 1);
        proof {
            assert(pre.drop_last() =~~= ts.deep_view().take(j as int));
            assert(pre.last() == ts.deep_view()[j as int]);
            assert(ts.deep_view()[j as int] == ts@[j as int]@);
            lemma_dedup(ts.deep_view().take(j as int));
        }
        if !contains_term(&out, &ts[j]) {
            let ghost old_out = out.deep_view();
            let cp = copy_chars(&ts[j]);
            out.push(cp);
            proof {
                assert(out.deep_view() =~~= old_out.push(ts.deep_view()[j as int]));
            }
        }
        j = j + 1;
    }
    proof {
        assert(ts.deep_view().take(n as int) =~~= ts.deep_view());
    }
    out
}

} // verus!
