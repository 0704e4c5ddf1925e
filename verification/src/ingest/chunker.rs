//! Paragraph-aware chunking. Within each section of a document,
//! consecutive paragraphs (blank-line separated) are packed into chunks up
//! to a target size rather than cut mid-sentence.
use vstd::prelude::*;

use crate::ingest::parsers::markdown::{opt_chars_view, opt_string_view};
use crate::ingest::parsers::{parsed_sections_view, ParsedFile, SectionSpec};
use crate::text::{
    byte_len, chars_of, copy_window, extend_all, extend_window, find_exec, find_from, is_blank, is_ws,
    join, lemma_skip_ws_back_bounds, lemma_trim_empty_iff_blank, lemma_trim_fixed, skip_ws_back,
    lemma_byte_len_split, lemma_find_from, lemma_skip_ws_bounds, lemma_trim_window, skip_ws,
    string_of, trim, trim_window, window_byte_len,
};

verus! {

/// Chunk sizes, in characters.
#[derive(Debug, Clone)]
pub struct ChunkConfig {
    /// Soft upper bound on characters per chunk. A single paragraph longer
    /// than this is kept whole rather than split further.
    pub target_chars: usize,
    /// A trailing chunk of fewer characters than this is merged into the
    /// previous chunk of its section, when there is one.
    pub min_chars: usize,
}

impl Default for ChunkConfig {
    /// Chunks of about 1200 characters; trailing pieces under 200 are merged.
    fn default() -> (c: Self)
        ensures
            c.target_chars == 1200,
            c.min_chars == 200,
    {
        ChunkConfig { target_chars: 1200, min_chars: 200 }
    }
}

/// A chunk of a document before it gets an id.
#[derive(Debug, Clone)]
pub struct ChunkDraft {
    pub text: String,
    pub section: Option<String>,
    pub start_offset: usize,
    pub end_offset: usize,
    /// The page of the section it came from, for paginated formats.
    pub page: Option<u32>,
}

/// A draft as the specification sees it: text, section, start, end, page.
pub type DraftSpec = (Seq<char>, Option<Seq<char>>, int, int, Option<u32>);

pub open spec fn draft_view(d: ChunkDraft) -> DraftSpec {
    (d.text@, opt_string_view(d.section), d.start_offset as int, d.end_offset as int, d.page)
}

pub open spec fn drafts_view(v: Seq<ChunkDraft>) -> Seq<DraftSpec> {
    v.map_values(|d: ChunkDraft| draft_view(d))
}

pub open spec fn blank_line() -> Seq<char> {
    seq!['\n', '\n']
}

// ---------------------------------------------------------------------
// Paragraphs
// ---------------------------------------------------------------------

/// The paragraph in the part `[i, j)` of `s`: nothing when the part is
/// blank; otherwise its trimmed text with the byte offset (in `s`) of its
/// first non-whitespace character.
pub open spec fn para_of(s: Seq<char>, i: int, j: int) -> Seq<(Seq<char>, int)> {
    if is_blank(s.subrange(i, j)) {
        seq![]
    } else {
        seq![(trim(s.subrange(i, j)), byte_len(s.subrange(0, skip_ws(s, i, j))) as int)]
    }
}

/// The paragraphs of `s` from index `i` on: the parts between `"\n\n"`
/// separators (as `str::split("\n\n")` cuts them), blank parts skipped.
pub open spec fn paras_from(s: Seq<char>, i: int) -> Seq<(Seq<char>, int)>
    decreases s.len() + 1 - i,
{
    if i < 0 || i > s.len() {
        seq![]
    } else {
        match find_from(s, blank_line(), i) {
            None => para_of(s, i, s.len() as int),
            Some(j) => {
                proof {
                    lemma_find_from(s, blank_line(), i);
                }
                para_of(s, i, j) + paras_from(s, j + 2)
            },
        }
    }
}

/// The paragraphs of `s`, each with its byte offset.
pub open spec fn paragraphs(s: Seq<char>) -> Seq<(Seq<char>, int)> {
    paras_from(s, 0)
}

/// A paragraph found in exec code: window `[a, b)` of the text, and the
/// byte offset of `a`.
struct Para {
    a: usize,
    b: usize,
    offset: usize,
}

spec fn para_spec(s: Seq<char>, p: Para) -> (Seq<char>, int) {
    (s.subrange(p.a as int, p.b as int), p.offset as int)
}

spec fn paras_spec(s: Seq<char>, v: Seq<Para>) -> Seq<(Seq<char>, int)> {
    v.map_values(|p: Para| para_spec(s, p))
}

spec fn para_ok(s: Seq<char>, p: Para) -> bool {
    &&& p.a < p.b <= s.len()
    &&& p.offset == byte_len(s.subrange(0, p.a as int))
    &&& p.offset + byte_len(s.subrange(p.a as int, p.b as int)) == byte_len(s.subrange(0, p.b as int))
}

/// The paragraph of the part `[i, j)`, if the part is not blank.
fn para_exec(s: &Vec<char>, i: usize, j: usize) -> (r: Option<Para>)
    requires
        i <= j <= s.len(),
        byte_len(s@) <= usize::MAX,
    ensures
        r is None ==> para_of(s@, i as int, j as int) == Seq::<(Seq<char>, int)>::empty(),
        r matches Some(p) ==> para_of(s@, i as int, j as int) == seq![para_spec(s@, p)] && para_ok(s@, p),
{
    let (a, b) = trim_window(s, i, j);
    proof {
        lemma_trim_window(s@, i as int, j as int);
        crate::text::lemma_trim_empty_iff_blank(s@.subrange(i as int, j as int));
        lemma_byte_len_split(s@, 0, a as int, s@.len() as int);
        lemma_byte_len_split(s@, 0, b as int, s@.len() as int);
        lemma_byte_len_split(s@, 0, a as int, b as int);
        assert(s@.subrange(0, s@.len() as int) == s@);
    }
    if a == b {
        None
    } else {
        let offset = window_byte_len(s, 0, a);
        Some(Para { a, b, offset })
    }
}

/// Split on blank lines, returning each paragraph with its byte offset.
fn split_paragraphs_with_offsets(s: &Vec<char>) -> (r: Vec<Para>)
    requires
        byte_len(s@) <= usize::MAX,
    ensures
        paras_spec(s@, r@) == paragraphs(s@),
        forall|k: int| 0 <= k < r@.len() ==> para_ok(s@, #[trigger] r@[k]),
{
    let sep = vec!['\n', '\n'];
    proof {
        assert(sep@ =~= blank_line());
    }
    let mut out: Vec<Para> = Vec::new();
    let mut i: usize = 0;
    loop
        invariant_except_break
            i <= s.len(),
            sep@ == blank_line(),
            byte_len(s@) <= usize::MAX,
            paras_spec(s@, out@) + paras_from(s@, i as int) == paragraphs(s@),
            forall|k: int| 0 <= k < out@.len() ==> para_ok(s@, #[trigger] out@[k]),
        ensures
            paras_spec(s@, out@) == paragraphs(s@),
            forall|k: int| 0 <= k < out@.len() ==> para_ok(s@, #[trigger] out@[k]),
        decreases s.len() + 1 - i,
    {
        let ghost before = out@;
        match find_exec(s, &sep, i) {
            None => {
                match para_exec(s, i, s.len()) {
                    Some(p) => {
                        out.push(p);
                        proof {
                            assert(paras_spec(s@, out@) =~= paras_spec(s@, before) + seq![
                                para_spec(s@, p),
                            ]);
                        }
                    },
                    None => {
                        proof {
                            assert(paras_spec(s@, out@) =~= paras_spec(s@, before) + Seq::<
                                (Seq<char>, int),
                            >::empty());
                        }
                    },
                }
                break ;
            },
            Some(j) => {
                proof {
                    lemma_find_from(s@, sep@, i as int);
                }
                match para_exec(s, i, j) {
                    Some(p) => {
                        out.push(p);
                        proof {
                            assert(paras_spec(s@, out@) =~= paras_spec(s@, before) + seq![
                                para_spec(s@, p),
                            ]);
                        }
                    },
                    None => {},
                }
                proof {
                    assert(paras_spec(s@, before) + paras_from(s@, i as int) == paras_spec(
                        s@,
                        before,
                    ) + para_of(s@, i as int, j as int) + paras_from(s@, j + 2));
                }
                i = j + 2;
            },
        }
    }
    out
}

// ---------------------------------------------------------------------
// Packing paragraphs into chunks
// ---------------------------------------------------------------------

/// State of the packer between paragraphs: finished drafts, the buffer,
/// the offset its first paragraph starts at and the offset its last ends.
pub struct ChunkState {
    pub drafts: Seq<DraftSpec>,
    pub buf: Seq<char>,
    pub buf_start: Option<int>,
    pub buf_end: int,
}

/// Where a section's text, heading and page go in its drafts.
pub struct SectionCtx {
    pub heading: Option<Seq<char>>,
    pub base: int,
    pub page: Option<u32>,
}

pub open spec fn start_of(st: ChunkState, ctx: SectionCtx) -> int {
    ctx.base + match st.buf_start {
        Some(b) => b,
        None => 0,
    }
}

/// The draft the buffer becomes.
pub open spec fn buffer_draft(st: ChunkState, ctx: SectionCtx) -> DraftSpec {
    (trim(st.buf), ctx.heading, start_of(st, ctx), ctx.base + st.buf_end, ctx.page)
}

/// One paragraph: when the buffer is non-empty and adding the paragraph
/// (with its blank-line separator) would pass the target, the buffer is
/// emitted first; then the paragraph joins the buffer.
pub open spec fn chunk_step(
    st: ChunkState,
    para: (Seq<char>, int),
    ctx: SectionCtx,
    target: int,
) -> ChunkState {
    let (p, off) = para;
    if is_blank(p) {
        st
    } else {
        let st1 = if st.buf.len() > 0 && st.buf.len() + p.len() + 2 > target {
            ChunkState {
                drafts: st.drafts.push(buffer_draft(st, ctx)),
                buf: seq![],
                buf_start: None,
                ..st
            }
        } else {
            st
        };
        ChunkState {
            drafts: st1.drafts,
            buf: if st1.buf.len() > 0 {
                st1.buf + blank_line() + p
            } else {
                p
            },
            buf_start: if st1.buf_start is None {
                Some(off)
            } else {
                st1.buf_start
            },
            buf_end: off + byte_len(p),
        }
    }
}

pub open spec fn chunk_fold(
    paras: Seq<(Seq<char>, int)>,
    k: int,
    st: ChunkState,
    ctx: SectionCtx,
    target: int,
) -> ChunkState
    decreases paras.len() - k,
{
    if k < 0 || k >= paras.len() {
        st
    } else {
        chunk_fold(paras, k + 1, chunk_step(st, paras[k], ctx, target), ctx, target)
    }
}

/// The last buffer: emitted when not blank, except that one smaller than
/// `min` is merged (after a blank line) into the previous draft when
/// there is one.
pub open spec fn chunk_finish(st: ChunkState, ctx: SectionCtx, min: int) -> Seq<DraftSpec> {
    if is_blank(st.buf) {
        st.drafts
    } else if st.buf.len() < min && st.drafts.len() > 0 {
        let last = st.drafts.last();
        st.drafts.drop_last().push(
            (last.0 + blank_line() + trim(st.buf), last.1, last.2, ctx.base + st.buf_end, last.4),
        )
    } else {
        st.drafts.push(buffer_draft(st, ctx))
    }
}

pub open spec fn empty_chunk_state() -> ChunkState {
    ChunkState { drafts: seq![], buf: seq![], buf_start: None, buf_end: 0 }
}

/// The drafts of one section.
pub open spec fn chunk_section_spec(
    heading: Option<Seq<char>>,
    text: Seq<char>,
    base: int,
    page: Option<u32>,
    target: int,
    min: int,
) -> Seq<DraftSpec> {
    let ctx = SectionCtx { heading, base, page };
    chunk_finish(chunk_fold(paragraphs(text), 0, empty_chunk_state(), ctx, target), ctx, min)
}

/// The drafts of sections `k..`.
pub open spec fn chunk_sections_from(secs: Seq<SectionSpec>, k: int, target: int, min: int) -> Seq<
    DraftSpec,
>
    decreases secs.len() - k,
{
    if k < 0 || k >= secs.len() {
        seq![]
    } else {
        chunk_section_spec(secs[k].0, secs[k].1, secs[k].2, secs[k].3, target, min)
            + chunk_sections_from(secs, k + 1, target, min)
    }
}

/// Every section's offsets fit: its start plus its text's byte length is a
/// `usize`.
pub open spec fn sections_fit(secs: Seq<SectionSpec>) -> bool {
    forall|k: int| 0 <= k < secs.len() ==> #[trigger] secs[k].2 + byte_len(secs[k].1) <= usize::MAX
}

/// Every draft has a non-empty text.
pub open spec fn drafts_nonempty(ds: Seq<DraftSpec>) -> bool {
    forall|i: int| 0 <= i < ds.len() ==> (#[trigger] ds[i]).0.len() > 0
}

/// The packer's state is sound: finished drafts are non-empty and a
/// non-empty buffer is not blank.
spec fn chunk_state_sound(st: ChunkState) -> bool {
    drafts_nonempty(st.drafts) && (st.buf.len() > 0 ==> !is_blank(st.buf))
}

proof fn lemma_chunk_step_sound(st: ChunkState, para: (Seq<char>, int), ctx: SectionCtx, target: int)
    requires
        chunk_state_sound(st),
    ensures
        chunk_state_sound(chunk_step(st, para, ctx, target)),
{
    let (p, off) = para;
    if !is_blank(p) {
        if st.buf.len() > 0 {
            lemma_trim_empty_iff_blank(st.buf);
        }
        let st1 = if st.buf.len() > 0 && st.buf.len() + p.len() + 2 > target {
            ChunkState { drafts: st.drafts.push(buffer_draft(st, ctx)), buf: seq![], buf_start: None, ..st }
        } else {
            st
        };
        let k = choose|k: int| 0 <= k < p.len() && !is_ws(p[k]);
        if st1.buf.len() > 0 {
            let nb = st1.buf + blank_line() + p;
            assert(nb[st1.buf.len() + 2 + k] == p[k]);
        }
        let nx = chunk_step(st, para, ctx, target);
        assert forall|i: int| 0 <= i < nx.drafts.len() implies (#[trigger] nx.drafts[i]).0.len() > 0 by {
            if i < st.drafts.len() {
                assert(nx.drafts[i] == st.drafts[i]);
            }
        }
    }
}

proof fn lemma_chunk_fold_sound(
    paras: Seq<(Seq<char>, int)>,
    k: int,
    st: ChunkState,
    ctx: SectionCtx,
    target: int,
)
    requires
        chunk_state_sound(st),
    ensures
        chunk_state_sound(chunk_fold(paras, k, st, ctx, target)),
    decreases paras.len() - k,
{
    if 0 <= k < paras.len() {
        lemma_chunk_step_sound(st, paras[k], ctx, target);
        lemma_chunk_fold_sound(paras, k + 1, chunk_step(st, paras[k], ctx, target), ctx, target);
    }
}

/// Every chunk of a section has a non-empty text: blank paragraphs are
/// skipped, and a buffer is emitted only when it holds a paragraph.
pub proof fn lemma_section_chunks_nonempty(
    heading: Option<Seq<char>>,
    text: Seq<char>,
    base: int,
    page: Option<u32>,
    target: int,
    min: int,
)
    ensures
        drafts_nonempty(chunk_section_spec(heading, text, base, page, target, min)),
{
    let ctx = SectionCtx { heading, base, page };
    let st = chunk_fold(paragraphs(text), 0, empty_chunk_state(), ctx, target);
    lemma_chunk_fold_sound(paragraphs(text), 0, empty_chunk_state(), ctx, target);
    let out = chunk_section_spec(heading, text, base, page, target, min);
    if !is_blank(st.buf) {
        lemma_trim_empty_iff_blank(st.buf);
        assert forall|i: int| 0 <= i < out.len() implies (#[trigger] out[i]).0.len() > 0 by {
            if st.buf.len() < min && st.drafts.len() > 0 {
                if i < st.drafts.len() - 1 {
                    assert(out[i] == st.drafts[i]);
                }
            } else {
                if i < st.drafts.len() {
                    assert(out[i] == st.drafts[i]);
                }
            }
        }
    }
}

/// Every chunk of a document has a non-empty text.
pub proof fn lemma_chunks_nonempty(secs: Seq<SectionSpec>, k: int, target: int, min: int)
    ensures
        drafts_nonempty(chunk_sections_from(secs, k, target, min)),
    decreases secs.len() - k,
{
    if 0 <= k < secs.len() {
        let first = chunk_section_spec(secs[k].0, secs[k].1, secs[k].2, secs[k].3, target, min);
        let rest = chunk_sections_from(secs, k + 1, target, min);
        lemma_section_chunks_nonempty(secs[k].0, secs[k].1, secs[k].2, secs[k].3, target, min);
        lemma_chunks_nonempty(secs, k + 1, target, min);
        assert forall|i: int| 0 <= i < (first + rest).len() implies (#[trigger] (first + rest)[i]).0.len() > 0 by {
            if i < first.len() {
                assert((first + rest)[i] == first[i]);
            } else {
                assert((first + rest)[i] == rest[i - first.len()]);
            }
        }
    }
}

// ---------------------------------------------------------------------
// Chunking regroups whole paragraphs
// ---------------------------------------------------------------------

/// Texts joined by blank lines.
pub open spec fn joined(parts: Seq<Seq<char>>) -> Seq<char> {
    join(parts, blank_line())
}

/// The texts of drafts.
pub open spec fn draft_texts(ds: Seq<DraftSpec>) -> Seq<Seq<char>> {
    ds.map_values(|d: DraftSpec| d.0)
}

/// The texts of paragraphs.
pub open spec fn para_texts(ps: Seq<(Seq<char>, int)>) -> Seq<Seq<char>> {
    ps.map_values(|p: (Seq<char>, int)| p.0)
}

/// Non-empty, starting and ending with a non-whitespace character.
pub open spec fn clean(t: Seq<char>) -> bool {
    t.len() > 0 && !is_ws(t[0]) && !is_ws(t[t.len() - 1])
}

proof fn lemma_trim_clean(w: Seq<char>)
    requires
        !is_blank(w),
    ensures
        clean(trim(w)),
{
    let n = w.len() as int;
    lemma_trim_window(w, 0, n);
    assert(w.subrange(0, n) == w);
    lemma_skip_ws_bounds(w, 0, n);
    let a = skip_ws(w, 0, n);
    lemma_skip_ws_back_bounds(w, a, n);
    let b = skip_ws_back(w, a, n);
    if a == n {
        assert(is_blank(w));
    }
    if b == a {
        assert(is_ws(w[a]));
    }
    assert(trim(w)[0] == w[a]);
    assert(trim(w)[trim(w).len() - 1] == w[b - 1]);
}

/// Every paragraph's text is clean: trimmed and not blank.
proof fn lemma_paras_clean(s: Seq<char>, i: int)
    ensures
        forall|k: int| 0 <= k < paras_from(s, i).len() ==> clean(#[trigger] paras_from(s, i)[k].0),
    decreases s.len() + 1 - i,
{
    if 0 <= i <= s.len() {
        lemma_find_from(s, blank_line(), i);
        match find_from(s, blank_line(), i) {
            None => {
                if !is_blank(s.subrange(i, s.len() as int)) {
                    lemma_trim_clean(s.subrange(i, s.len() as int));
                }
            },
            Some(j) => {
                lemma_paras_clean(s, j + 2);
                let first = para_of(s, i, j);
                let rest = paras_from(s, j + 2);
                if !is_blank(s.subrange(i, j)) {
                    lemma_trim_clean(s.subrange(i, j));
                }
                assert forall|k: int| 0 <= k < (first + rest).len() implies clean(
                    #[trigger] (first + rest)[k].0,
                ) by {
                    if k < first.len() {
                        assert((first + rest)[k] == first[k]);
                    } else {
                        assert((first + rest)[k] == rest[k - first.len()]);
                    }
                }
            },
        }
    }
}

/// Joining one more part.
proof fn lemma_joined_push(parts: Seq<Seq<char>>, x: Seq<char>)
    ensures
        joined(parts.push(x)) == if parts.len() == 0 {
            x
        } else {
            joined(parts) + blank_line() + x
        },
{
    assert(parts.push(x).drop_last() == parts);
    assert(parts.push(x).last() == x);
    if parts.len() == 0 {
        assert(parts.push(x).len() == 1);
        assert(parts.push(x)[0] == x);
    }
}

/// The texts the packer holds: its drafts' texts, then the buffer if it
/// is not empty.
spec fn held_texts(st: ChunkState) -> Seq<Seq<char>> {
    if st.buf.len() > 0 {
        draft_texts(st.drafts).push(st.buf)
    } else {
        draft_texts(st.drafts)
    }
}

/// The packer's texts are clean, and together they are the paragraphs
/// seen so far.
spec fn chunk_state_regroups(st: ChunkState, seen: Seq<Seq<char>>) -> bool {
    &&& forall|i: int| 0 <= i < st.drafts.len() ==> clean(#[trigger] st.drafts[i].0)
    &&& (st.buf.len() > 0 ==> clean(st.buf))
    &&& joined(held_texts(st)) == joined(seen)
    &&& (held_texts(st).len() == 0) == (seen.len() == 0)
}

proof fn lemma_clean_concat(a: Seq<char>, b: Seq<char>)
    requires
        clean(a),
        clean(b),
    ensures
        clean(a + blank_line() + b),
{
    let c = a + blank_line() + b;
    assert(c[0] == a[0]);
    assert(c[c.len() - 1] == b[b.len() - 1]);
}

proof fn lemma_chunk_step_regroups(
    st: ChunkState,
    seen: Seq<Seq<char>>,
    para: (Seq<char>, int),
    ctx: SectionCtx,
    target: int,
)
    requires
        chunk_state_regroups(st, seen),
        clean(para.0),
    ensures
        chunk_state_regroups(chunk_step(st, para, ctx, target), seen.push(para.0)),
{
    let (p, off) = para;
    assert(!is_blank(p)) by {
        assert(!is_ws(p[0]));
    }
    let emit = st.buf.len() > 0 && st.buf.len() + p.len() + 2 > target;
    let st1 = if emit {
        ChunkState { drafts: st.drafts.push(buffer_draft(st, ctx)), buf: seq![], buf_start: None, ..st }
    } else {
        st
    };
    if emit {
        lemma_trim_fixed(st.buf);
        assert(draft_texts(st1.drafts) =~= draft_texts(st.drafts).push(st.buf));
        assert(held_texts(st1) == held_texts(st));
    }
    let nx = chunk_step(st, para, ctx, target);
    assert(nx.drafts == st1.drafts);
    assert forall|i: int| 0 <= i < nx.drafts.len() implies clean(#[trigger] nx.drafts[i].0) by {
        if i < st.drafts.len() {
            assert(nx.drafts[i] == st.drafts[i]);
        } else {
            assert(nx.drafts[i] == buffer_draft(st, ctx));
        }
    }
    lemma_joined_push(seen, p);
    if st1.buf.len() > 0 {
        lemma_clean_concat(st1.buf, p);
        let ds = draft_texts(st1.drafts);
        assert(held_texts(st1) == ds.push(st1.buf));
        assert(held_texts(nx) == ds.push(st1.buf + blank_line() + p));
        lemma_joined_push(ds, st1.buf);
        lemma_joined_push(ds, st1.buf + blank_line() + p);
        assert(joined(held_texts(nx)) =~= joined(held_texts(st1)) + blank_line() + p);
    } else {
        assert(held_texts(nx) == held_texts(st1).push(p));
        lemma_joined_push(held_texts(st1), p);
    }
}

proof fn lemma_chunk_fold_regroups(
    paras: Seq<(Seq<char>, int)>,
    k: int,
    st: ChunkState,
    ctx: SectionCtx,
    target: int,
)
    requires
        0 <= k <= paras.len(),
        chunk_state_regroups(st, para_texts(paras).take(k)),
        forall|i: int| 0 <= i < paras.len() ==> clean(#[trigger] paras[i].0),
    ensures
        chunk_state_regroups(chunk_fold(paras, k, st, ctx, target), para_texts(paras)),
    decreases paras.len() - k,
{
    if k < paras.len() {
        lemma_chunk_step_regroups(st, para_texts(paras).take(k), paras[k], ctx, target);
        assert(para_texts(paras).take(k).push(paras[k].0) == para_texts(paras).take(k + 1));
        lemma_chunk_fold_regroups(paras, k + 1, chunk_step(st, paras[k], ctx, target), ctx, target);
    } else {
        assert(para_texts(paras).take(k) == para_texts(paras));
    }
}

/// Chunking keeps whole paragraphs, in order, and loses none: the texts
/// of a section's chunks, joined by blank lines, are the section's
/// non-blank paragraphs, trimmed, joined by blank lines. A paragraph
/// longer than the target stays whole in one chunk.
pub proof fn lemma_section_chunks_regroup_paragraphs(
    heading: Option<Seq<char>>,
    text: Seq<char>,
    base: int,
    page: Option<u32>,
    target: int,
    min: int,
)
    ensures
        joined(draft_texts(chunk_section_spec(heading, text, base, page, target, min))) == joined(
            para_texts(paragraphs(text)),
        ),
{
    let ctx = SectionCtx { heading, base, page };
    let paras = paragraphs(text);
    lemma_paras_clean(text, 0);
    assert(para_texts(paras).take(0) =~= Seq::<Seq<char>>::empty());
    assert(held_texts(empty_chunk_state()) =~= Seq::<Seq<char>>::empty());
    lemma_chunk_fold_regroups(paras, 0, empty_chunk_state(), ctx, target);
    let st = chunk_fold(paras, 0, empty_chunk_state(), ctx, target);
    let out = chunk_section_spec(heading, text, base, page, target, min);
    if st.buf.len() == 0 {
        assert(is_blank(st.buf));
        assert(draft_texts(out) == held_texts(st));
    } else {
        assert(!is_blank(st.buf)) by {
            assert(!is_ws(st.buf[0]));
        }
        lemma_trim_fixed(st.buf);
        let ds = draft_texts(st.drafts);
        if st.buf.len() < min && st.drafts.len() > 0 {
            let last = st.drafts.last();
            let merged = last.0 + blank_line() + st.buf;
            let front = draft_texts(st.drafts.drop_last());
            assert(draft_texts(out) =~= front.push(merged));
            assert(ds =~= front.push(last.0));
            lemma_joined_push(front, merged);
            lemma_joined_push(front, last.0);
            lemma_joined_push(ds, st.buf);
            assert(joined(draft_texts(out)) =~= joined(ds.push(st.buf)));
        } else {
            assert(draft_texts(out) =~= ds.push(st.buf));
        }
    }
}

struct ChunkScan {
    drafts: Vec<ChunkDraft>,
    buf: Vec<char>,
    buf_start: Option<usize>,
    buf_end: usize,
}

spec fn opt_usize_view(o: Option<usize>) -> Option<int> {
    match o {
        Some(v) => Some(v as int),
        None => None,
    }
}

impl ChunkScan {
    spec fn view(&self) -> ChunkState {
        ChunkState {
            drafts: drafts_view(self.drafts@),
            buf: self.buf@,
            buf_start: opt_usize_view(self.buf_start),
            buf_end: self.buf_end as int,
        }
    }

    /// Bounds the scan keeps: everything lies within the section's text.
    spec fn bounded(&self, text_bytes: int) -> bool {
        &&& self.buf_end <= text_bytes
        &&& (self.buf_start matches Some(b) ==> b <= text_bytes)
    }

    fn emit(&mut self, heading: &Option<Vec<char>>, base: usize, page: Option<u32>, text_bytes: usize)
        requires
            old(self).bounded(text_bytes as int),
            base + text_bytes <= usize::MAX,
        ensures
            final(self).drafts@.len() == old(self).drafts@.len() + 1,
            final(self).view() == (ChunkState {
                drafts: old(self).view().drafts.push(
                    buffer_draft(
                        old(self).view(),
                        SectionCtx { heading: opt_chars_view(*heading), base: base as int, page },
                    ),
                ),
                ..old(self).view()
            }),
            final(self).buf == old(self).buf,
            final(self).buf_start == old(self).buf_start,
            final(self).buf_end == old(self).buf_end,
    {
        let (a, b) = trim_window(&self.buf, 0, self.buf.len());
        proof {
            assert(self.buf@.subrange(0, self.buf@.len() as int) == self.buf@);
        }
        let text = crate::text::string_of_window(&self.buf, a, b);
        let section = match heading {
            Some(h) => Some(string_of(h)),
            None => None,
        };
        let start = match self.buf_start {
            Some(s) => base + s,
            None => base,
        };
        let d = ChunkDraft { text, section, start_offset: start, end_offset: base + self.buf_end, page };
        let ghost before = self.drafts@;
        let ghost dv = d;
        self.drafts.push(d);
        proof {
            assert(drafts_view(self.drafts@) =~= drafts_view(before).push(draft_view(dv)));
        }
    }

    #[verifier::spinoff_prover]
    #[verifier::rlimit(40)]
    fn step(
        &mut self,
        s: &Vec<char>,
        p: &Para,
        heading: &Option<Vec<char>>,
        base: usize,
        page: Option<u32>,
        target: usize,
    )
        requires
            para_ok(s@, *p),
            byte_len(s@) <= usize::MAX,
            base + byte_len(s@) <= usize::MAX,
            old(self).bounded(byte_len(s@) as int),
        ensures
            final(self).view() == chunk_step(
                old(self).view(),
                para_spec(s@, *p),
                SectionCtx { heading: opt_chars_view(*heading), base: base as int, page },
                target as int,
            ),
            final(self).bounded(byte_len(s@) as int),
    {
        let ghost ctx = SectionCtx { heading: opt_chars_view(*heading), base: base as int, page };
        proof {
            lemma_byte_len_split(s@, 0, p.b as int, s@.len() as int);
            assert(s@.subrange(0, s@.len() as int) == s@);
        }
        let text_bytes = window_byte_len(s, 0, s.len());
        let para = copy_window(s, p.a, p.b);
        let para_len = window_byte_len(s, p.a, p.b);
        let (x, y) = trim_window(&para, 0, para.len());
        proof {
            assert(para@.subrange(0, para@.len() as int) == para@);
            lemma_skip_ws_bounds(para@, 0, para@.len() as int);
        }
        if x == y {
            proof {
                crate::text::lemma_trim_empty_iff_blank(para@);
            }
            return;
        }
        proof {
            crate::text::lemma_trim_empty_iff_blank(para@);
        }
        let buf_len = self.buf.len();
        let para_chars = para.len();
        // `buf_len + para_chars + 2 > target`, without overflow.
        let too_big = buf_len > target || para_chars > target - buf_len || 2 > target - buf_len
            - para_chars;
        if self.buf.len() > 0 && too_big {
            self.emit(heading, base, page, text_bytes);
            self.buf = Vec::new();
            self.buf_start = None;
        }
        if self.buf_start.is_none() {
            self.buf_start = Some(p.offset);
        }
        let ghost b1 = self.buf@;
        if self.buf.len() > 0 {
            self.buf.push('\n');
            self.buf.push('\n');
        }
        extend_all(&mut self.buf, &para);
        proof {
            if b1.len() > 0 {
                assert(self.buf@ =~= b1 + blank_line() + para@);
            } else {
                assert(self.buf@ =~= para@);
            }
        }
        self.buf_end = p.offset + para_len;
    }

    fn finish(&mut self, heading: &Option<Vec<char>>, base: usize, page: Option<u32>, text_bytes: usize, min: usize)
        requires
            old(self).bounded(text_bytes as int),
            base + text_bytes <= usize::MAX,
        ensures
            drafts_view(final(self).drafts@) == chunk_finish(
                old(self).view(),
                SectionCtx { heading: opt_chars_view(*heading), base: base as int, page },
                min as int,
            ),
    {
        let (a, b) = trim_window(&self.buf, 0, self.buf.len());
        proof {
            assert(self.buf@.subrange(0, self.buf@.len() as int) == self.buf@);
            crate::text::lemma_trim_empty_iff_blank(self.buf@);
        }
        if a == b {
            return;
        }
        if self.buf.len() < min && self.drafts.len() > 0 {
            let ghost before = self.drafts@;
            let mut last = self.drafts.pop().unwrap();
            let mut t = chars_of(last.text.as_str());
            t.push('\n');
            t.push('\n');
            extend_window(&mut t, &self.buf, a, b);
            proof {
                assert(t@ =~= before.last().text@ + blank_line() + trim(self.buf@));
            }
            last.text = string_of(&t);
            last.end_offset = base + self.buf_end;
            let ghost lv = last;
            self.drafts.push(last);
            proof {
                assert(self.drafts@ == before.drop_last().push(lv));
                assert(drafts_view(self.drafts@) =~= drafts_view(before).drop_last().push(
                    draft_view(lv),
                ));
            }
        } else {
            self.emit(heading, base, page, text_bytes);
        }
    }
}

/// The drafts of one section: heading `heading`, text `text` starting at
/// byte `base` of the document, on page `page`.
fn chunk_section(
    heading: &Option<Vec<char>>,
    text: &Vec<char>,
    base: usize,
    page: Option<u32>,
    config: &ChunkConfig,
) -> (r: Vec<ChunkDraft>)
    requires
        base + byte_len(text@) <= usize::MAX,
    ensures
        drafts_view(r@) == chunk_section_spec(
            opt_chars_view(*heading),
            text@,
            base as int,
            page,
            config.target_chars as int,
            config.min_chars as int,
        ),
{
    let ghost ctx = SectionCtx { heading: opt_chars_view(*heading), base: base as int, page };
    let paras = split_paragraphs_with_offsets(text);
    let ghost pv = paras_spec(text@, paras@);
    let mut scan = ChunkScan { drafts: Vec::new(), buf: Vec::new(), buf_start: None, buf_end: 0 };
    proof {
        assert(drafts_view(scan.drafts@) =~= Seq::<DraftSpec>::empty());
        assert(scan.view() == empty_chunk_state());
        assert(byte_len(Seq::<char>::empty()) == 0);
    }
    let mut k: usize = 0;
    while k < paras.len()
        invariant
            k <= paras.len(),
            byte_len(text@) <= usize::MAX,
            base + byte_len(text@) <= usize::MAX,
            pv == paras_spec(text@, paras@),
            pv == paragraphs(text@),
            ctx == (SectionCtx { heading: opt_chars_view(*heading), base: base as int, page }),
            forall|m: int| 0 <= m < paras@.len() ==> para_ok(text@, #[trigger] paras@[m]),
            scan.bounded(byte_len(text@) as int),
            chunk_fold(pv, k as int, scan.view(), ctx, config.target_chars as int) == chunk_fold(
                pv,
                0,
                empty_chunk_state(),
                ctx,
                config.target_chars as int,
            ),
        decreases paras.len() - k,
    {
        proof {
            assert(pv.len() == paras@.len());
            assert(pv[k as int] == para_spec(text@, paras@[k as int]));
            assert(para_ok(text@, paras@[k as int]));
        }
        let ghost old_view = scan.view();
        scan.step(text, &paras[k], heading, base, page, config.target_chars);
        proof {
            assert(scan.view() == chunk_step(old_view, pv[k as int], ctx, config.target_chars as int));
            assert(chunk_fold(pv, k as int, old_view, ctx, config.target_chars as int) == chunk_fold(
                pv,
                k + 1,
                scan.view(),
                ctx,
                config.target_chars as int,
            ));
        }
        k += 1;
    }
    proof {
        lemma_byte_len_split(text@, 0, text@.len() as int, text@.len() as int);
        assert(text@.subrange(0, text@.len() as int) == text@);
    }
    let text_bytes = window_byte_len(text, 0, text.len());
    scan.finish(heading, base, page, text_bytes, config.min_chars);
    scan.drafts
}

/// The drafts of every section of `parsed`, in order; each carries its
/// section's heading and page.
pub fn chunk_parsed_file(parsed: &ParsedFile, config: &ChunkConfig) -> (r: Vec<ChunkDraft>)
    requires
        sections_fit(parsed_sections_view(parsed.sections@)),
    ensures
        drafts_view(r@) == chunk_sections_from(
            parsed_sections_view(parsed.sections@),
            0,
            config.target_chars as int,
            config.min_chars as int,
        ),
{
    let ghost sv = parsed_sections_view(parsed.sections@);
    let mut drafts: Vec<ChunkDraft> = Vec::new();
    let mut k: usize = 0;
    while k < parsed.sections.len()
        invariant
            k <= parsed.sections.len(),
            sv == parsed_sections_view(parsed.sections@),
            sections_fit(sv),
            drafts_view(drafts@) + chunk_sections_from(
                sv,
                k as int,
                config.target_chars as int,
                config.min_chars as int,
            ) == chunk_sections_from(sv, 0, config.target_chars as int, config.min_chars as int),
        decreases parsed.sections.len() - k,
    {
        let sec = &parsed.sections[k];
        let heading = match &sec.heading {
            Some(h) => Some(chars_of(h.as_str())),
            None => None,
        };
        let text = chars_of(sec.text.as_str());
        proof {
            assert(sv[k as int] == crate::ingest::parsers::parsed_section_view(
                parsed.sections@[k as int],
            ));
            assert(sv[k as int].2 + byte_len(sv[k as int].1) <= usize::MAX);
        }
        let part = chunk_section(&heading, &text, sec.start_offset, sec.page, config);
        let ghost before = drafts@;
        let ghost pview = drafts_view(part@);
        let mut part = part;
        drafts.append(&mut part);
        proof {
            assert(drafts_view(drafts@) =~= drafts_view(before) + pview);
        }
        k += 1;
    }
    drafts
}

} // verus!
