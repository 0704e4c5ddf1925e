//! The integer signals of the heuristic reranker: a query's lowercased
//! terms, how many of them occur in a text, and the lowercased heading
//! text of a hit. Blending these into a score happens where floats are
//! handled.
use vstd::prelude::*;

use crate::text::{
    chars_of, find_exec, join, lemma_find_from, lowercase, occurs_at, split_whitespace,
    string_of, to_lowercase, words,
};

verus! {

/// The terms of a query: its whitespace-separated words, lowercased.
pub open spec fn query_tokens_spec(query: Seq<char>) -> Seq<Seq<char>> {
    words(query).map_values(|t: Seq<char>| lowercase(t))
}

/// `p` occurs somewhere in `s` (`str::contains`).
pub open spec fn contains_sub(s: Seq<char>, p: Seq<char>) -> bool {
    exists|k: int| 0 <= k && k + p.len() <= s.len() && #[trigger] occurs_at(s, p, k)
}

/// The number of `tokens` that occur in `haystack`.
pub open spec fn matched_count(tokens: Seq<Seq<char>>, haystack: Seq<char>) -> nat
    decreases tokens.len(),
{
    if tokens.len() == 0 {
        0
    } else {
        matched_count(tokens.drop_last(), haystack) + if contains_sub(haystack, tokens.last()) {
            1nat
        } else {
            0nat
        }
    }
}

/// The views of a vector of strings.
pub open spec fn string_views(v: Seq<String>) -> Seq<Seq<char>> {
    v.map_values(|s: String| s@)
}

/// The lowercased terms of a query.
pub fn query_tokens(query: &str) -> (r: Vec<String>)
    ensures
        string_views(r@) == query_tokens_spec(query@),
{
    let v = chars_of(query);
    let ws = split_whitespace(&v);
    let ghost wv = ws@.map_values(|w: Vec<char>| w@);
    let mut out: Vec<String> = Vec::new();
    let mut i: usize = 0;
    while i < ws.len()
        invariant
            i <= ws.len(),
            wv == ws@.map_values(|w: Vec<char>| w@),
            string_views(out@) == wv.take(i as int).map_values(|t: Seq<char>| lowercase(t)),
        decreases ws.len() - i,
    {
        let low = to_lowercase(&ws[i]);
        let s = string_of(&low);
        let ghost before = out@;
        out.push(s);
        proof {
            assert(wv.take(i + 1) == wv.take(i as int).push(wv[i as int]));
            assert(string_views(out@) =~= string_views(before).push(lowercase(wv[i as int])));
            assert(wv.take(i + 1).map_values(|t: Seq<char>| lowercase(t)) =~= wv.take(i as int).map_values(
                |t: Seq<char>| lowercase(t),
            ).push(lowercase(wv[i as int])));
        }
        i += 1;
    }
    assert(wv.take(ws.len() as int) == wv);
    out
}

/// Whether `p` occurs in `v`.
fn contains_exec(v: &Vec<char>, p: &Vec<char>) -> (r: bool)
    ensures
        r == contains_sub(v@, p@),
{
    proof {
        lemma_find_from(v@, p@, 0);
    }
    match find_exec(v, p, 0) {
        Some(j) => {
            assert(occurs_at(v@, p@, j as int));
            true
        },
        None => false,
    }
}

/// How many of `tokens` occur (as substrings) in `haystack`; the overlap
/// signal of the reranker is this count over the number of tokens.
pub fn token_matches(tokens: &Vec<String>, haystack: &str) -> (n: usize)
    ensures
        n == matched_count(string_views(tokens@), haystack@),
{
    let hay = chars_of(haystack);
    let ghost tv = string_views(tokens@);
    let mut n: usize = 0;
    let mut i: usize = 0;
    while i < tokens.len()
        invariant
            i <= tokens.len(),
            tv == string_views(tokens@),
            hay@ == haystack@,
            n == matched_count(tv.take(i as int), haystack@),
            n <= i,
        decreases tokens.len() - i,
    {
        let t = chars_of(tokens[i].as_str());
        proof {
            assert(tv.take(i + 1).drop_last() == tv.take(i as int));
            assert(tv.take(i + 1).last() == tv[i as int]);
        }
        if contains_exec(&hay, &t) {
            n += 1;
        }
        i += 1;
    }
    assert(tv.take(tokens.len() as int) == tv);
    n
}

/// The heading text of a hit that title matches are looked for in: the
/// document title and the section heading that are present, joined by a
/// space.
pub open spec fn heading_text(title: Option<Seq<char>>, section: Option<Seq<char>>) -> Seq<char> {
    let parts: Seq<Seq<char>> = (if title is Some {
        seq![title->0]
    } else {
        seq![]
    }) + (if section is Some {
        seq![section->0]
    } else {
        seq![]
    });
    join(parts, " "@)
}

/// The lowercased heading text of a hit (see [`heading_text`]).
pub fn title_haystack(title: Option<&str>, section: Option<&str>) -> (r: String)
    ensures
        r@ == lowercase(
            heading_text(
                match title {
                    Some(t) => Some(t@),
                    None => None,
                },
                match section {
                    Some(s) => Some(s@),
                    None => None,
                },
            ),
        ),
{
    let mut parts: Vec<Vec<char>> = Vec::new();
    match title {
        Some(t) => parts.push(chars_of(t)),
        None => {},
    }
    match section {
        Some(s) => parts.push(chars_of(s)),
        None => {},
    }
    let sep = chars_of(" ");
    let joined = crate::text::join_exec(&parts, &sep);
    proof {
        let tv: Option<Seq<char>> = match title {
            Some(t) => Some(t@),
            None => None,
        };
        let sv: Option<Seq<char>> = match section {
            Some(s) => Some(s@),
            None => None,
        };
        let expect: Seq<Seq<char>> = (if tv is Some {
            seq![tv->0]
        } else {
            seq![]
        }) + (if sv is Some {
            seq![sv->0]
        } else {
            seq![]
        });
        assert(parts@.map_values(|w: Vec<char>| w@) =~= expect);
    }
    let low = to_lowercase(&joined);
    string_of(&low)
}

} // verus!
