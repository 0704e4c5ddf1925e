//! A minimal HTML-to-text pass: strips tags and `<script>`/`<style>`
//! bodies, collapses whitespace and decodes a few entities. Good enough
//! for indexing; not a rendering engine.
use vstd::prelude::*;

use crate::ingest::error::IngestError;
use crate::text::{
    chars_of, ends_with, ends_with_exec, join, join_exec, lowercase, replace, replace_str,
    split_whitespace, starts_with, starts_with_exec, string_of, to_lowercase, words,
};

verus! {

/// Which element body is being skipped.
#[derive(PartialEq, Eq, Structural, Clone, Copy)]
pub enum Skip {
    Script,
    Style,
}

/// State of the tag stripper between characters.
pub struct HtmlState {
    pub out: Seq<char>,
    pub in_tag: bool,
    pub skip: Option<Skip>,
    pub tag_buf: Seq<char>,
}

pub open spec fn script_name() -> Seq<char> {
    seq!['s', 'c', 'r', 'i', 'p', 't']
}

pub open spec fn style_name() -> Seq<char> {
    seq!['s', 't', 'y', 'l', 'e']
}

/// The closing tag that ends a skipped body.
pub open spec fn closing_tag(k: Skip) -> Seq<char> {
    seq!['<', '/'] + (match k {
        Skip::Script => script_name(),
        Skip::Style => style_name(),
    }) + seq!['>']
}

/// One character of input.
pub open spec fn html_step(st: HtmlState, c: char) -> HtmlState {
    match st.skip {
        Some(k) => {
            let buf = st.tag_buf.push(c);
            if ends_with(lowercase(buf), closing_tag(k)) {
                HtmlState { skip: None, tag_buf: seq![], ..st }
            } else {
                HtmlState { tag_buf: buf, ..st }
            }
        },
        None => {
            if c == '<' {
                HtmlState { in_tag: true, tag_buf: seq![], ..st }
            } else if c == '>' && st.in_tag {
                let lower = lowercase(st.tag_buf);
                if starts_with(lower, script_name()) {
                    HtmlState { in_tag: false, skip: Some(Skip::Script), tag_buf: seq![], ..st }
                } else if starts_with(lower, style_name()) {
                    HtmlState { in_tag: false, skip: Some(Skip::Style), tag_buf: seq![], ..st }
                } else {
                    HtmlState { in_tag: false, out: st.out.push(' '), tag_buf: seq![], ..st }
                }
            } else if st.in_tag {
                HtmlState { tag_buf: st.tag_buf.push(c), ..st }
            } else {
                HtmlState { out: st.out.push(c), ..st }
            }
        },
    }
}

/// The state after the first `n` characters of `s`.
pub open spec fn html_state(s: Seq<char>, n: int) -> HtmlState
    decreases n,
{
    if n <= 0 {
        HtmlState { out: seq![], in_tag: false, skip: None, tag_buf: seq![] }
    } else {
        html_step(html_state(s, n - 1), s[n - 1])
    }
}

/// The entity decoding applied to the collapsed text: `&amp;`, `&lt;`,
/// `&gt;`, `&quot;`, `&#39;` and `&nbsp;`, in that order.
pub open spec fn decode_entities(s: Seq<char>) -> Seq<char> {
    replace(
        replace(
            replace(
                replace(replace(replace(s, "&amp;"@, "&"@), "&lt;"@, "<"@), "&gt;"@, ">"@),
                "&quot;"@,
                "\""@,
            ),
            "&#39;"@,
            "'"@,
        ),
        "&nbsp;"@,
        " "@,
    )
}

/// Whether `x` holds no `&`.
pub open spec fn amp_free(x: Seq<char>) -> bool {
    forall|i: int| 0 <= i < x.len() ==> x[i] != '&'
}

proof fn lemma_replace_amp_free(x: Seq<char>, p: Seq<char>, r: Seq<char>)
    requires
        p.len() > 0,
        p[0] == '&',
        amp_free(x),
    ensures
        replace(x, p, r) == x,
    decreases x.len(),
{
    if x.len() > 0 {
        assert(!starts_with(x, p)) by {
            if starts_with(x, p) {
                assert(x.subrange(0, p.len() as int)[0] == x[0]);
            }
        }
        lemma_replace_amp_free(x.drop_first(), p, r);
        assert(seq![x[0]] + x.drop_first() =~= x);
    }
}

proof fn lemma_replace_after_amp_free(x: Seq<char>, y: Seq<char>, p: Seq<char>, r: Seq<char>)
    requires
        p.len() > 0,
        p[0] == '&',
        amp_free(x),
    ensures
        replace(x + y, p, r) == x + replace(y, p, r),
    decreases x.len(),
{
    if x.len() == 0 {
        assert(x + y =~= y);
        assert(x + replace(y, p, r) =~= replace(y, p, r));
    } else {
        let xy = x + y;
        assert(xy[0] == x[0]);
        assert(!starts_with(xy, p)) by {
            if starts_with(xy, p) {
                assert(xy.subrange(0, p.len() as int)[0] == xy[0]);
            }
        }
        assert(xy.drop_first() =~= x.drop_first() + y);
        lemma_replace_after_amp_free(x.drop_first(), y, p, r);
        assert(seq![x[0]] + (x.drop_first() + replace(y, p, r)) =~= x + replace(y, p, r));
    }
}

proof fn lemma_not_starting(x: Seq<char>, p: Seq<char>, k: int)
    requires
        0 <= k < p.len(),
        k < x.len() ==> x[k] != p[k],
    ensures
        !starts_with(x, p),
{
    if starts_with(x, p) {
        assert(x.subrange(0, p.len() as int)[k] == x[k]);
    }
}

/// One replacement step on `s`, then `e`, then `t`, where only `e` may hold
/// an `&`, and then only at its start.
proof fn lemma_replace_one(s: Seq<char>, e: Seq<char>, t: Seq<char>, p: Seq<char>, r: Seq<char>)
    requires
        amp_free(s),
        amp_free(t),
        p.len() > 0,
        p[0] == '&',
        amp_free(e) || (e.len() > 0 && e[0] == '&' && amp_free(e.drop_first()) && (e == p || !starts_with(
            e + t,
            p,
        ))),
    ensures
        replace(s + e + t, p, r) == s + (if e == p {
            r
        } else {
            e
        }) + t,
{
    assert(s + e + t =~= s + (e + t));
    lemma_replace_after_amp_free(s, e + t, p, r);
    if amp_free(e) {
        assert(e != p);
        assert(amp_free(e + t));
        lemma_replace_amp_free(e + t, p, r);
    } else if e == p {
        assert((e + t).subrange(0, p.len() as int) =~= p);
        assert((e + t).subrange(p.len() as int, (e + t).len() as int) =~= t);
        lemma_replace_amp_free(t, p, r);
    } else {
        let et = e + t;
        assert(et.drop_first() =~= e.drop_first() + t);
        assert(amp_free(e.drop_first() + t));
        lemma_replace_amp_free(e.drop_first() + t, p, r);
        assert(seq![et[0]] + et.drop_first() =~= et);
    }
    assert(s + ((if e == p {
        r
    } else {
        e
    }) + t) =~= s + (if e == p {
        r
    } else {
        e
    }) + t);
}

proof fn lemma_decode_amp(s: Seq<char>, t: Seq<char>)
    requires
        amp_free(s),
        amp_free(t),
        forall|i: int| 0 <= i < t.len() ==> t[i] != ';',
    ensures
        decode_entities(s + "&amp;"@ + t) == s + "&"@ + t,
{
    reveal_strlit("&amp;");
    reveal_strlit("&lt;");
    reveal_strlit("&gt;");
    reveal_strlit("&quot;");
    reveal_strlit("&#39;");
    reveal_strlit("&nbsp;");
    reveal_strlit("&");
    reveal_strlit("<");
    reveal_strlit(">");
    reveal_strlit("\"");
    reveal_strlit("'");
    reveal_strlit(" ");
    lemma_replace_one(s, "&amp;"@, t, "&amp;"@, "&"@);
    assert("&amp;"@ == "&amp;"@);
    let x0 = replace(s + "&amp;"@ + t, "&amp;"@, "&"@);
    assert(x0 == s + "&"@ + t);
    lemma_not_starting("&"@ + t, "&lt;"@, "&lt;"@.len() - 1);
    lemma_replace_one(s, "&"@, t, "&lt;"@, "<"@);
    assert("&"@ != "&lt;"@);
    let x1 = replace(x0, "&lt;"@, "<"@);
    assert(x1 == s + "&"@ + t);
    lemma_not_starting("&"@ + t, "&gt;"@, "&gt;"@.len() - 1);
    lemma_replace_one(s, "&"@, t, "&gt;"@, ">"@);
    assert("&"@ != "&gt;"@);
    let x2 = replace(x1, "&gt;"@, ">"@);
    assert(x2 == s + "&"@ + t);
    lemma_not_starting("&"@ + t, "&quot;"@, "&quot;"@.len() - 1);
    lemma_replace_one(s, "&"@, t, "&quot;"@, "\""@);
    assert("&"@ != "&quot;"@);
    let x3 = replace(x2, "&quot;"@, "\""@);
    assert(x3 == s + "&"@ + t);
    lemma_not_starting("&"@ + t, "&#39;"@, "&#39;"@.len() - 1);
    lemma_replace_one(s, "&"@, t, "&#39;"@, "'"@);
    assert("&"@ != "&#39;"@);
    let x4 = replace(x3, "&#39;"@, "'"@);
    assert(x4 == s + "&"@ + t);
    lemma_not_starting("&"@ + t, "&nbsp;"@, "&nbsp;"@.len() - 1);
    lemma_replace_one(s, "&"@, t, "&nbsp;"@, " "@);
    assert("&"@ != "&nbsp;"@);
    let x5 = replace(x4, "&nbsp;"@, " "@);
    assert(x5 == s + "&"@ + t);
}

proof fn lemma_decode_lt(s: Seq<char>, t: Seq<char>)
    requires
        amp_free(s),
        amp_free(t),
    ensures
        decode_entities(s + "&lt;"@ + t) == s + "<"@ + t,
{
    reveal_strlit("&amp;");
    reveal_strlit("&lt;");
    reveal_strlit("&gt;");
    reveal_strlit("&quot;");
    reveal_strlit("&#39;");
    reveal_strlit("&nbsp;");
    reveal_strlit("&");
    reveal_strlit("<");
    reveal_strlit(">");
    reveal_strlit("\"");
    reveal_strlit("'");
    reveal_strlit(" ");
    lemma_not_starting("&lt;"@ + t, "&amp;"@, 1);
    lemma_replace_one(s, "&lt;"@, t, "&amp;"@, "&"@);
    assert("&lt;"@[1] != "&amp;"@[1]);
    assert("&lt;"@ != "&amp;"@);
    let x0 = replace(s + "&lt;"@ + t, "&amp;"@, "&"@);
    assert(x0 == s + "&lt;"@ + t);
    lemma_replace_one(s, "&lt;"@, t, "&lt;"@, "<"@);
    assert("&lt;"@ == "&lt;"@);
    let x1 = replace(x0, "&lt;"@, "<"@);
    assert(x1 == s + "<"@ + t);
    lemma_replace_one(s, "<"@, t, "&gt;"@, ">"@);
    assert("<"@ != "&gt;"@);
    let x2 = replace(x1, "&gt;"@, ">"@);
    assert(x2 == s + "<"@ + t);
    lemma_replace_one(s, "<"@, t, "&quot;"@, "\""@);
    assert("<"@ != "&quot;"@);
    let x3 = replace(x2, "&quot;"@, "\""@);
    assert(x3 == s + "<"@ + t);
    lemma_replace_one(s, "<"@, t, "&#39;"@, "'"@);
    assert("<"@ != "&#39;"@);
    let x4 = replace(x3, "&#39;"@, "'"@);
    assert(x4 == s + "<"@ + t);
    lemma_replace_one(s, "<"@, t, "&nbsp;"@, " "@);
    assert("<"@ != "&nbsp;"@);
    let x5 = replace(x4, "&nbsp;"@, " "@);
    assert(x5 == s + "<"@ + t);
}

proof fn lemma_decode_gt(s: Seq<char>, t: Seq<char>)
    requires
        amp_free(s),
        amp_free(t),
    ensures
        decode_entities(s + "&gt;"@ + t) == s + ">"@ + t,
{
    reveal_strlit("&amp;");
    reveal_strlit("&lt;");
    reveal_strlit("&gt;");
    reveal_strlit("&quot;");
    reveal_strlit("&#39;");
    reveal_strlit("&nbsp;");
    reveal_strlit("&");
    reveal_strlit("<");
    reveal_strlit(">");
    reveal_strlit("\"");
    reveal_strlit("'");
    reveal_strlit(" ");
    lemma_not_starting("&gt;"@ + t, "&amp;"@, 1);
    lemma_replace_one(s, "&gt;"@, t, "&amp;"@, "&"@);
    assert("&gt;"@[1] != "&amp;"@[1]);
    assert("&gt;"@ != "&amp;"@);
    let x0 = replace(s + "&gt;"@ + t, "&amp;"@, "&"@);
    assert(x0 == s + "&gt;"@ + t);
    lemma_not_starting("&gt;"@ + t, "&lt;"@, 1);
    lemma_replace_one(s, "&gt;"@, t, "&lt;"@, "<"@);
    assert("&gt;"@[1] != "&lt;"@[1]);
    assert("&gt;"@ != "&lt;"@);
    let x1 = replace(x0, "&lt;"@, "<"@);
    assert(x1 == s + "&gt;"@ + t);
    lemma_replace_one(s, "&gt;"@, t, "&gt;"@, ">"@);
    assert("&gt;"@ == "&gt;"@);
    let x2 = replace(x1, "&gt;"@, ">"@);
    assert(x2 == s + ">"@ + t);
    lemma_replace_one(s, ">"@, t, "&quot;"@, "\""@);
    assert(">"@ != "&quot;"@);
    let x3 = replace(x2, "&quot;"@, "\""@);
    assert(x3 == s + ">"@ + t);
    lemma_replace_one(s, ">"@, t, "&#39;"@, "'"@);
    assert(">"@ != "&#39;"@);
    let x4 = replace(x3, "&#39;"@, "'"@);
    assert(x4 == s + ">"@ + t);
    lemma_replace_one(s, ">"@, t, "&nbsp;"@, " "@);
    assert(">"@ != "&nbsp;"@);
    let x5 = replace(x4, "&nbsp;"@, " "@);
    assert(x5 == s + ">"@ + t);
}

proof fn lemma_decode_quot(s: Seq<char>, t: Seq<char>)
    requires
        amp_free(s),
        amp_free(t),
    ensures
        decode_entities(s + "&quot;"@ + t) == s + "\""@ + t,
{
    reveal_strlit("&amp;");
    reveal_strlit("&lt;");
    reveal_strlit("&gt;");
    reveal_strlit("&quot;");
    reveal_strlit("&#39;");
    reveal_strlit("&nbsp;");
    reveal_strlit("&");
    reveal_strlit("<");
    reveal_strlit(">");
    reveal_strlit("\"");
    reveal_strlit("'");
    reveal_strlit(" ");
    lemma_not_starting("&quot;"@ + t, "&amp;"@, 1);
    lemma_replace_one(s, "&quot;"@, t, "&amp;"@, "&"@);
    assert("&quot;"@[1] != "&amp;"@[1]);
    assert("&quot;"@ != "&amp;"@);
    let x0 = replace(s + "&quot;"@ + t, "&amp;"@, "&"@);
    assert(x0 == s + "&quot;"@ + t);
    lemma_not_starting("&quot;"@ + t, "&lt;"@, 1);
    lemma_replace_one(s, "&quot;"@, t, "&lt;"@, "<"@);
    assert("&quot;"@[1] != "&lt;"@[1]);
    assert("&quot;"@ != "&lt;"@);
    let x1 = replace(x0, "&lt;"@, "<"@);
    assert(x1 == s + "&quot;"@ + t);
    lemma_not_starting("&quot;"@ + t, "&gt;"@, 1);
    lemma_replace_one(s, "&quot;"@, t, "&gt;"@, ">"@);
    assert("&quot;"@[1] != "&gt;"@[1]);
    assert("&quot;"@ != "&gt;"@);
    let x2 = replace(x1, "&gt;"@, ">"@);
    assert(x2 == s + "&quot;"@ + t);
    lemma_replace_one(s, "&quot;"@, t, "&quot;"@, "\""@);
    assert("&quot;"@ == "&quot;"@);
    let x3 = replace(x2, "&quot;"@, "\""@);
    assert(x3 == s + "\""@ + t);
    lemma_replace_one(s, "\""@, t, "&#39;"@, "'"@);
    assert("\""@ != "&#39;"@);
    let x4 = replace(x3, "&#39;"@, "'"@);
    assert(x4 == s + "\""@ + t);
    lemma_replace_one(s, "\""@, t, "&nbsp;"@, " "@);
    assert("\""@ != "&nbsp;"@);
    let x5 = replace(x4, "&nbsp;"@, " "@);
    assert(x5 == s + "\""@ + t);
}

proof fn lemma_decode_apos(s: Seq<char>, t: Seq<char>)
    requires
        amp_free(s),
        amp_free(t),
    ensures
        decode_entities(s + "&#39;"@ + t) == s + "'"@ + t,
{
    reveal_strlit("&amp;");
    reveal_strlit("&lt;");
    reveal_strlit("&gt;");
    reveal_strlit("&quot;");
    reveal_strlit("&#39;");
    reveal_strlit("&nbsp;");
    reveal_strlit("&");
    reveal_strlit("<");
    reveal_strlit(">");
    reveal_strlit("\"");
    reveal_strlit("'");
    reveal_strlit(" ");
    lemma_not_starting("&#39;"@ + t, "&amp;"@, 1);
    lemma_replace_one(s, "&#39;"@, t, "&amp;"@, "&"@);
    assert("&#39;"@[1] != "&amp;"@[1]);
    assert("&#39;"@ != "&amp;"@);
    let x0 = replace(s + "&#39;"@ + t, "&amp;"@, "&"@);
    assert(x0 == s + "&#39;"@ + t);
    lemma_not_starting("&#39;"@ + t, "&lt;"@, 1);
    lemma_replace_one(s, "&#39;"@, t, "&lt;"@, "<"@);
    assert("&#39;"@[1] != "&lt;"@[1]);
    assert("&#39;"@ != "&lt;"@);
    let x1 = replace(x0, "&lt;"@, "<"@);
    assert(x1 == s + "&#39;"@ + t);
    lemma_not_starting("&#39;"@ + t, "&gt;"@, 1);
    lemma_replace_one(s, "&#39;"@, t, "&gt;"@, ">"@);
    assert("&#39;"@[1] != "&gt;"@[1]);
    assert("&#39;"@ != "&gt;"@);
    let x2 = replace(x1, "&gt;"@, ">"@);
    assert(x2 == s + "&#39;"@ + t);
    lemma_not_starting("&#39;"@ + t, "&quot;"@, 1);
    lemma_replace_one(s, "&#39;"@, t, "&quot;"@, "\""@);
    assert("&#39;"@[1] != "&quot;"@[1]);
    assert("&#39;"@ != "&quot;"@);
    let x3 = replace(x2, "&quot;"@, "\""@);
    assert(x3 == s + "&#39;"@ + t);
    lemma_replace_one(s, "&#39;"@, t, "&#39;"@, "'"@);
    assert("&#39;"@ == "&#39;"@);
    let x4 = replace(x3, "&#39;"@, "'"@);
    assert(x4 == s + "'"@ + t);
    lemma_replace_one(s, "'"@, t, "&nbsp;"@, " "@);
    assert("'"@ != "&nbsp;"@);
    let x5 = replace(x4, "&nbsp;"@, " "@);
    assert(x5 == s + "'"@ + t);
}

proof fn lemma_decode_nbsp(s: Seq<char>, t: Seq<char>)
    requires
        amp_free(s),
        amp_free(t),
    ensures
        decode_entities(s + "&nbsp;"@ + t) == s + " "@ + t,
{
    reveal_strlit("&amp;");
    reveal_strlit("&lt;");
    reveal_strlit("&gt;");
    reveal_strlit("&quot;");
    reveal_strlit("&#39;");
    reveal_strlit("&nbsp;");
    reveal_strlit("&");
    reveal_strlit("<");
    reveal_strlit(">");
    reveal_strlit("\"");
    reveal_strlit("'");
    reveal_strlit(" ");
    lemma_not_starting("&nbsp;"@ + t, "&amp;"@, 1);
    lemma_replace_one(s, "&nbsp;"@, t, "&amp;"@, "&"@);
    assert("&nbsp;"@[1] != "&amp;"@[1]);
    assert("&nbsp;"@ != "&amp;"@);
    let x0 = replace(s + "&nbsp;"@ + t, "&amp;"@, "&"@);
    assert(x0 == s + "&nbsp;"@ + t);
    lemma_not_starting("&nbsp;"@ + t, "&lt;"@, 1);
    lemma_replace_one(s, "&nbsp;"@, t, "&lt;"@, "<"@);
    assert("&nbsp;"@[1] != "&lt;"@[1]);
    assert("&nbsp;"@ != "&lt;"@);
    let x1 = replace(x0, "&lt;"@, "<"@);
    assert(x1 == s + "&nbsp;"@ + t);
    lemma_not_starting("&nbsp;"@ + t, "&gt;"@, 1);
    lemma_replace_one(s, "&nbsp;"@, t, "&gt;"@, ">"@);
    assert("&nbsp;"@[1] != "&gt;"@[1]);
    assert("&nbsp;"@ != "&gt;"@);
    let x2 = replace(x1, "&gt;"@, ">"@);
    assert(x2 == s + "&nbsp;"@ + t);
    lemma_not_starting("&nbsp;"@ + t, "&quot;"@, 1);
    lemma_replace_one(s, "&nbsp;"@, t, "&quot;"@, "\""@);
    assert("&nbsp;"@[1] != "&quot;"@[1]);
    assert("&nbsp;"@ != "&quot;"@);
    let x3 = replace(x2, "&quot;"@, "\""@);
    assert(x3 == s + "&nbsp;"@ + t);
    lemma_not_starting("&nbsp;"@ + t, "&#39;"@, 1);
    lemma_replace_one(s, "&nbsp;"@, t, "&#39;"@, "'"@);
    assert("&nbsp;"@[1] != "&#39;"@[1]);
    assert("&nbsp;"@ != "&#39;"@);
    let x4 = replace(x3, "&#39;"@, "'"@);
    assert(x4 == s + "&nbsp;"@ + t);
    lemma_replace_one(s, "&nbsp;"@, t, "&nbsp;"@, " "@);
    assert("&nbsp;"@ == "&nbsp;"@);
    let x5 = replace(x4, "&nbsp;"@, " "@);
    assert(x5 == s + " "@ + t);
}

/// Entity decoding: in a text with no other `&`, each of `&lt;`, `&gt;`,
/// `&quot;`, `&#39;` and `&nbsp;` becomes `<`, `>`, `"`, `'` and a space,
/// and everything around it is kept; `&amp;` becomes `&` where no `;`
/// follows it (a following `lt;`, say, would make the `&` it leaves the
/// start of another entity, which is decoded too).
pub proof fn lemma_decode_entities(s: Seq<char>, t: Seq<char>)
    requires
        amp_free(s),
        amp_free(t),
    ensures
        decode_entities(s + "&lt;"@ + t) == s + "<"@ + t,
        decode_entities(s + "&gt;"@ + t) == s + ">"@ + t,
        decode_entities(s + "&quot;"@ + t) == s + "\""@ + t,
        decode_entities(s + "&#39;"@ + t) == s + "'"@ + t,
        decode_entities(s + "&nbsp;"@ + t) == s + " "@ + t,
        (forall|i: int| 0 <= i < t.len() ==> t[i] != ';') ==> decode_entities(s + "&amp;"@ + t) == s
            + "&"@ + t,
{
    if forall|i: int| 0 <= i < t.len() ==> t[i] != ';' {
        lemma_decode_amp(s, t);
    }
    lemma_decode_lt(s, t);
    lemma_decode_gt(s, t);
    lemma_decode_quot(s, t);
    lemma_decode_apos(s, t);
    lemma_decode_nbsp(s, t);
}

/// The text of HTML `s`: tags replaced by a space, script and style
/// bodies dropped, whitespace runs collapsed to one space, entities
/// decoded.
pub open spec fn html_spec(s: Seq<char>) -> Seq<char> {
    decode_entities(join(words(html_state(s, s.len() as int).out), seq![' ']))
}

/// Strip tags and script/style bodies, collapse whitespace, decode
/// entities.
pub fn parse(raw: &str) -> (r: Result<String, IngestError>)
    ensures
        r matches Ok(t) && t@ == html_spec(raw@),
{
    let s = chars_of(raw);
    Ok(string_of(&parse_chars(&s)))
}

/// [`parse`] over characters.
pub fn parse_chars(s: &Vec<char>) -> (r: Vec<char>)
    ensures
        r@ == html_spec(s@),
{
    let script = chars_of("script");
    let style = chars_of("style");
    let close_script = chars_of("</script>");
    let close_style = chars_of("</style>");
    proof {
        reveal_strlit("script");
        reveal_strlit("style");
        reveal_strlit("</script>");
        reveal_strlit("</style>");
        assert(script@ =~= script_name());
        assert(style@ =~= style_name());
        assert(close_script@ =~= closing_tag(Skip::Script));
        assert(close_style@ =~= closing_tag(Skip::Style));
    }
    let mut out: Vec<char> = Vec::new();
    let mut in_tag = false;
    let mut skip: Option<Skip> = None;
    let mut tag_buf: Vec<char> = Vec::new();
    let mut i: usize = 0;
    while i < s.len()
        invariant
            i <= s.len(),
            script@ == script_name(),
            style@ == style_name(),
            close_script@ == closing_tag(Skip::Script),
            close_style@ == closing_tag(Skip::Style),
            html_state(s@, i as int) == (HtmlState {
                out: out@,
                in_tag,
                skip,
                tag_buf: tag_buf@,
            }),
        decreases s.len() - i,
    {
        let c = s[i];
        match skip {
            Some(k) => {
                tag_buf.push(c);
                let lower = to_lowercase(&tag_buf);
                let closing = match k {
                    Skip::Script => &close_script,
                    Skip::Style => &close_style,
                };
                if ends_with_exec(&lower, closing) {
                    skip = None;
                    tag_buf = Vec::new();
                }
            },
            None => {
                if c == '<' {
                    in_tag = true;
                    tag_buf = Vec::new();
                } else if c == '>' && in_tag {
                    in_tag = false;
                    let lower = to_lowercase(&tag_buf);
                    if starts_with_exec(&lower, &script) {
                        skip = Some(Skip::Script);
                    } else if starts_with_exec(&lower, &style) {
                        skip = Some(Skip::Style);
                    } else {
                        out.push(' ');
                    }
                    tag_buf = Vec::new();
                } else if in_tag {
                    tag_buf.push(c);
                } else {
                    out.push(c);
                }
            },
        }
        i += 1;
    }
    let ws = split_whitespace(&out);
    let sep = chars_of(" ");
    proof {
        reveal_strlit(" ");
        assert(sep@ =~= seq![' ']);
    }
    let normalized = join_exec(&ws, &sep);
    html_escape_decode(&normalized)
}

/// Decodes `&amp;`, `&lt;`, `&gt;`, `&quot;`, `&#39;` and `&nbsp;`.
fn html_escape_decode(s: &Vec<char>) -> (r: Vec<char>)
    ensures
        r@ == decode_entities(s@),
{
    proof {
        reveal_strlit("&amp;");
        reveal_strlit("&lt;");
        reveal_strlit("&gt;");
        reveal_strlit("&quot;");
        reveal_strlit("&#39;");
        reveal_strlit("&nbsp;");
    }
    let a = replace_str(s, "&amp;", "&");
    let b = replace_str(&a, "&lt;", "<");
    let c = replace_str(&b, "&gt;", ">");
    let d = replace_str(&c, "&quot;", "\"");
    let e = replace_str(&d, "&#39;", "'");
    replace_str(&e, "&nbsp;", " ")
}

} // verus!
