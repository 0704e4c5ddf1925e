//! Markdown: the document title (first level-1 heading) and the body
//! split into heading-delimited sections.
use vstd::prelude::*;

use crate::ingest::error::IngestError;
use crate::text::{
    back_char, back_char_exec, byte_len, chars_of, copy_window, extend_all, find_char, is_blank, is_blank_exec,
    lemma_byte_len_split, lemma_trim_window, is_ws, skip_char, skip_char_exec, skip_whitespace, skip_ws,
    starts_with,
    string_of, string_of_window, strip_leading, strip_trailing, trim, trim_start, trim_window,
    window_byte_len,
};

verus! {

/// A Markdown section: a heading and the raw text that follows it, up to
/// (but not including) the next heading of equal or higher level. The
/// text of a section holds its subsections, heading lines included; each
/// subsection is a section of its own too.
#[derive(Debug, Clone)]
pub struct MarkdownSection {
    pub heading: Option<String>,
    pub text: String,
    /// Byte offset of the section's heading line (or 0) in the input.
    pub start_offset: usize,
}

/// A section as the specification sees it: heading, text, start offset.
pub type SectionView = (Option<Seq<char>>, Seq<char>, int);

pub open spec fn opt_string_view(o: Option<String>) -> Option<Seq<char>> {
    match o {
        Some(s) => Some(s@),
        None => None,
    }
}

pub open spec fn opt_chars_view(o: Option<Vec<char>>) -> Option<Seq<char>> {
    match o {
        Some(s) => Some(s@),
        None => None,
    }
}

pub open spec fn section_view(s: MarkdownSection) -> SectionView {
    (opt_string_view(s.heading), s.text@, s.start_offset as int)
}

pub open spec fn sections_view(v: Seq<MarkdownSection>) -> Seq<SectionView> {
    v.map_values(|s: MarkdownSection| section_view(s))
}

/// Index just past the first line feed at or after `i` (or the end):
/// where the line starting at `i` ends, as `split_inclusive('\n')` cuts.
pub open spec fn line_end(s: Seq<char>, i: int) -> int
    decreases s.len() - i,
{
    if i < 0 || i >= s.len() {
        s.len() as int
    } else if s[i] == '\n' {
        i + 1
    } else {
        line_end(s, i + 1)
    }
}

pub proof fn lemma_line_end(s: Seq<char>, i: int)
    requires
        0 <= i < s.len(),
    ensures
        i < line_end(s, i) <= s.len(),
        forall|k: int| i <= k < line_end(s, i) - 1 ==> s[k] != '\n',
        line_end(s, i) < s.len() ==> s[line_end(s, i) - 1] == '\n',
    decreases s.len() - i,
{
    if s[i] != '\n' {
        if i + 1 < s.len() {
            lemma_line_end(s, i + 1);
        } else {
            assert(line_end(s, i + 1) == s.len());
        }
    }
}

/// A section being read: its heading (`None` for the text before the
/// first heading), the level of that heading, its text so far, the offset
/// it starts at, and whether it is still open.
pub struct MdSec {
    pub heading: Option<Seq<char>>,
    pub level: int,
    pub text: Seq<char>,
    pub start: int,
    pub open: bool,
}

/// Parser state between lines: the title so far, every section started
/// so far (in order), and the offset reached.
pub struct MdState {
    pub title: Option<Seq<char>>,
    pub secs: Seq<MdSec>,
    pub offset: int,
}

/// The line with its trailing line feeds removed.
pub open spec fn line_body(line: Seq<char>) -> Seq<char> {
    strip_trailing(line, '\n')
}

/// A heading line starts (after indentation) with `#`.
pub open spec fn is_heading_line(line: Seq<char>) -> bool {
    let ts = trim_start(line_body(line));
    ts.len() > 0 && ts[0] == '#'
}

/// The title a line offers: the trimmed text after a leading `"# "`.
pub open spec fn title_of_line(line: Seq<char>) -> Option<Seq<char>> {
    let ts = trim_start(line_body(line));
    if starts_with(ts, seq!['#', ' ']) {
        Some(trim(ts.subrange(2, ts.len() as int)))
    } else {
        None
    }
}

/// The heading a heading line opens: its body without leading `#`s, trimmed.
pub open spec fn heading_of_line(line: Seq<char>) -> Seq<char> {
    trim(strip_leading(line_body(line), '#'))
}

/// The level of a heading line: the number of `#` it starts with (after
/// indentation).
pub open spec fn heading_level(line: Seq<char>) -> int {
    let b = line_body(line);
    let a = skip_ws(b, 0, b.len() as int);
    skip_char(b, '#', a) - a
}

/// A heading of level `level` ends the section `x`: `x` has no heading, or
/// one of the same or a lower level (a level number at least `level`).
pub open spec fn closed_by(x: MdSec, level: int) -> bool {
    x.heading is None || x.level >= level
}

/// One line for a section: an open section is closed by a heading line of
/// equal or higher level, and otherwise takes the line into its text.
pub open spec fn sec_step(x: MdSec, line: Seq<char>) -> MdSec {
    if !x.open {
        x
    } else if is_heading_line(line) && closed_by(x, heading_level(line)) {
        MdSec { open: false, ..x }
    } else {
        MdSec { text: x.text + line, ..x }
    }
}

/// Processing one line (with its line feed, if any): every section takes
/// it (see [`sec_step`]), and a heading line starts a new section.
pub open spec fn md_step(st: MdState, line: Seq<char>) -> MdState {
    let title = if st.title is None && title_of_line(line) is Some {
        title_of_line(line)
    } else {
        st.title
    };
    let secs = st.secs.map_values(|x: MdSec| sec_step(x, line));
    MdState {
        title,
        secs: if is_heading_line(line) {
            secs.push(
                MdSec {
                    heading: Some(heading_of_line(line)),
                    level: heading_level(line),
                    text: seq![],
                    start: st.offset,
                    open: true,
                },
            )
        } else {
            secs
        },
        offset: st.offset + byte_len(line),
    }
}

/// Processing the lines of `s` from index `i` on.
pub open spec fn md_fold(s: Seq<char>, i: int, st: MdState) -> MdState
    decreases s.len() - i,
{
    if i < 0 || i >= s.len() {
        st
    } else {
        let e = line_end(s, i);
        proof {
            lemma_line_end(s, i);
        }
        md_fold(s, e, md_step(st, s.subrange(i, e)))
    }
}

pub open spec fn md_initial() -> MdState {
    MdState {
        title: None,
        secs: seq![MdSec { heading: None, level: 0, text: seq![], start: 0, open: true }],
        offset: 0,
    }
}

/// Whether a section is emitted: it has a heading or non-blank text.
pub open spec fn keep_section(x: MdSec) -> bool {
    x.heading is Some || !is_blank(x.text)
}

/// The sections emitted, in the order they started.
pub open spec fn emitted(secs: Seq<MdSec>) -> Seq<SectionView>
    decreases secs.len(),
{
    if secs.len() == 0 {
        seq![]
    } else {
        let r = emitted(secs.drop_last());
        let x = secs.last();
        if keep_section(x) {
            r.push((x.heading, x.text, x.start))
        } else {
            r
        }
    }
}

/// The title and sections of Markdown text `s`: the title is the first
/// `# ` heading's text; every heading line starts a section that runs to
/// the next heading of equal or higher level; the text before the first
/// heading is a section without heading when it is not blank; a document
/// with no sections yields one unnamed section holding all of `s`.
pub open spec fn markdown_spec(s: Seq<char>) -> (Option<Seq<char>>, Seq<SectionView>) {
    let st = md_fold(s, 0, md_initial());
    let secs = emitted(st.secs);
    (st.title, if secs.len() == 0 { seq![(None, s, 0)] } else { secs })
}

/// A section being read, in exec form.
struct OpenSection {
    heading: Option<Vec<char>>,
    level: usize,
    text: Vec<char>,
    start: usize,
    open: bool,
}

spec fn open_view(x: OpenSection) -> MdSec {
    MdSec {
        heading: opt_chars_view(x.heading),
        level: x.level as int,
        text: x.text@,
        start: x.start as int,
        open: x.open,
    }
}

spec fn opens_view(v: Seq<OpenSection>) -> Seq<MdSec> {
    v.map_values(|x: OpenSection| open_view(x))
}

/// A copy of the characters of an optional heading.
fn copy_heading(h: &Option<Vec<char>>) -> (r: Option<Vec<char>>)
    ensures
        opt_chars_view(r) == opt_chars_view(*h),
{
    match h {
        Some(v) => {
            let c = copy_window(v, 0, v.len());
            assert(v@.subrange(0, v@.len() as int) == v@);
            Some(c)
        },
        None => None,
    }
}

/// One line for one section (see [`sec_step`]).
fn step_section(x: &OpenSection, line: &Vec<char>, heading: bool, level: usize) -> (y: OpenSection)
    requires
        heading == is_heading_line(line@),
        heading ==> level == heading_level(line@),
    ensures
        open_view(y) == sec_step(open_view(*x), line@),
        y.start == x.start,
{
    let h = copy_heading(&x.heading);
    let mut t = copy_window(&x.text, 0, x.text.len());
    assert(x.text@.subrange(0, x.text@.len() as int) == x.text@);
    if !x.open {
        OpenSection { heading: h, level: x.level, text: t, start: x.start, open: false }
    } else if heading && (x.heading.is_none() || x.level >= level) {
        OpenSection { heading: h, level: x.level, text: t, start: x.start, open: false }
    } else {
        extend_all(&mut t, line);
        OpenSection { heading: h, level: x.level, text: t, start: x.start, open: true }
    }
}

/// The parser's state while scanning lines.
struct MdScan {
    title: Option<String>,
    secs: Vec<OpenSection>,
    offset: usize,
}

impl MdScan {
    spec fn view(&self) -> MdState {
        MdState { title: opt_string_view(self.title), secs: opens_view(self.secs@), offset: self.offset as int }
    }

    /// Processes one line (`line_bytes` is its UTF-8 length).
    fn step(&mut self, line: &Vec<char>, line_bytes: usize)
        requires
            line_bytes == byte_len(line@),
            old(self).offset + line_bytes <= usize::MAX,
            forall|k: int|
                0 <= k < old(self).secs@.len() ==> #[trigger] old(self).secs@[k].start <= old(self).offset,
        ensures
            final(self).view() == md_step(old(self).view(), line@),
            forall|k: int|
                0 <= k < final(self).secs@.len() ==> #[trigger] final(self).secs@[k].start <= final(self).offset,
    {
        let body_end = back_char_exec(line, '\n', line.len());
        let body = copy_window(line, 0, body_end);
        let a = skip_whitespace(&body, 0, body.len());
        proof {
            lemma_trim_window(body@, 0, body@.len() as int);
            assert(body@.subrange(0, body@.len() as int) == body@);
            assert(body@ == line_body(line@));
        }
        let ghost ts = body@.subrange(a as int, body@.len() as int);
        let ts_len = body.len() - a;
        if self.title.is_none() && ts_len >= 2 && body[a] == '#' && body[a + 1] == ' ' {
            let (x, y) = trim_window(&body, a + 2, body.len());
            proof {
                assert(starts_with(ts, seq!['#', ' '])) by {
                    assert(ts.subrange(0, 2) =~= seq!['#', ' ']);
                }
                assert(ts.subrange(2, ts.len() as int) == body@.subrange(
                    a + 2,
                    body@.len() as int,
                ));
            }
            self.title = Some(string_of_window(&body, x, y));
        } else {
            proof {
                if self.title is None && starts_with(ts, seq!['#', ' ']) {
                    assert(ts[0] == body@[a as int]);
                    assert(ts.subrange(0, 2)[1] == ts[1]);
                }
            }
        }
        let is_heading = ts_len > 0 && body[a] == '#';
        proof {
            if ts_len > 0 {
                assert(ts[0] == body@[a as int]);
            }
            assert(is_heading == is_heading_line(line@));
        }
        let level = if is_heading {
            let hashes = skip_char_exec(&body, '#', a);
            hashes - a
        } else {
            0
        };
        let ghost before = opens_view(self.secs@);
        let mut next: Vec<OpenSection> = Vec::new();
        let mut j: usize = 0;
        while j < self.secs.len()
            invariant
                j <= self.secs.len(),
                before == opens_view(self.secs@),
                is_heading == is_heading_line(line@),
                is_heading ==> level == heading_level(line@),
                opens_view(next@) == before.take(j as int).map_values(|x: MdSec| sec_step(x, line@)),
                forall|k: int| 0 <= k < next@.len() ==> #[trigger] next@[k].start == self.secs@[k].start,
                next@.len() == j,
            decreases self.secs.len() - j,
        {
            let y = step_section(&self.secs[j], line, is_heading, level);
            let ghost nb = next@;
            next.push(y);
            proof {
                assert(before.take(j + 1) == before.take(j as int).push(before[j as int]));
                assert(opens_view(next@) =~= opens_view(nb).push(open_view(y)));
                assert(before.take(j + 1).map_values(|x: MdSec| sec_step(x, line@)) =~= before.take(
                    j as int,
                ).map_values(|x: MdSec| sec_step(x, line@)).push(sec_step(before[j as int], line@)));
            }
            j += 1;
        }
        proof {
            assert(before.take(self.secs@.len() as int) == before);
        }
        if is_heading {
            let h0 = skip_char_exec(&body, '#', 0);
            let (x, y) = trim_window(&body, h0, body.len());
            proof {
                assert(strip_leading(body@, '#') == body@.subrange(h0 as int, body@.len() as int));
            }
            let sec = OpenSection {
                heading: Some(copy_window(&body, x, y)),
                level,
                text: Vec::new(),
                start: self.offset,
                open: true,
            };
            let ghost nb = next@;
            next.push(sec);
            proof {
                assert(opens_view(next@) =~= opens_view(nb).push(open_view(sec)));
            }
        }
        self.secs = next;
        self.offset = self.offset + line_bytes;
    }
}

spec fn md_headed_after_first(st: MdState) -> bool {
    &&& st.secs.len() >= 1
    &&& forall|k: int| 1 <= k < st.secs.len() ==> (#[trigger] st.secs[k]).heading is Some
}

proof fn lemma_md_fold_headed(s: Seq<char>, i: int, st: MdState)
    requires
        md_headed_after_first(st),
    ensures
        md_headed_after_first(md_fold(s, i, st)),
    decreases s.len() - i,
{
    if 0 <= i < s.len() {
        let e = line_end(s, i);
        lemma_line_end(s, i);
        let nx = md_step(st, s.subrange(i, e));
        assert forall|k: int| 1 <= k < nx.secs.len() implies (#[trigger] nx.secs[k]).heading is Some by {
            if k < st.secs.len() {
                assert(nx.secs[k] == sec_step(st.secs[k], s.subrange(i, e)));
            }
        }
        lemma_md_fold_headed(s, e, nx);
    }
}

proof fn lemma_emitted_headed(secs: Seq<MdSec>)
    requires
        forall|k: int| 1 <= k < secs.len() ==> (#[trigger] secs[k]).heading is Some,
    ensures
        forall|k: int| 1 <= k < emitted(secs).len() ==> (#[trigger] emitted(secs)[k]).0 is Some,
        emitted(secs).len() <= secs.len(),
    decreases secs.len(),
{
    if secs.len() > 0 {
        let front = secs.drop_last();
        assert forall|k: int| 1 <= k < front.len() implies (#[trigger] front[k]).heading is Some by {
            assert(front[k] == secs[k]);
        }
        lemma_emitted_headed(front);
        let r = emitted(front);
        let out = emitted(secs);
        assert forall|k: int| 1 <= k < out.len() implies (#[trigger] out[k]).0 is Some by {
            if k < r.len() {
                assert(out[k] == r[k]);
            } else {
                assert(secs.last() == secs[secs.len() - 1]);
            }
        }
    }
}

/// Sections are delimited by headings: every section after the first
/// starts at a heading line and carries its heading (only text before
/// the first heading forms a section without one).
pub proof fn lemma_markdown_sections_headed(s: Seq<char>)
    ensures
        forall|k: int| 1 <= k < markdown_spec(s).1.len() ==> (#[trigger] markdown_spec(s).1[k]).0 is Some,
{
    lemma_md_fold_headed(s, 0, md_initial());
    let st = md_fold(s, 0, md_initial());
    lemma_emitted_headed(st.secs);
}

proof fn lemma_md_fold_title_kept(s: Seq<char>, i: int, st: MdState)
    requires
        st.title is Some,
    ensures
        md_fold(s, i, st).title == st.title,
    decreases s.len() - i,
{
    if 0 <= i < s.len() {
        let e = line_end(s, i);
        lemma_line_end(s, i);
        lemma_md_fold_title_kept(s, e, md_step(st, s.subrange(i, e)));
    }
}

proof fn lemma_line_end_concat(s: Seq<char>, t: Seq<char>, i: int)
    requires
        0 <= i < s.len(),
        s.last() == '\n',
    ensures
        line_end(s + t, i) == line_end(s, i),
    decreases s.len() - i,
{
    assert((s + t)[i] == s[i]);
    if s[i] != '\n' {
        assert(i + 1 < s.len());
        lemma_line_end_concat(s, t, i + 1);
    }
}

proof fn lemma_md_fold_concat(s: Seq<char>, t: Seq<char>, i: int, st: MdState)
    requires
        0 <= i <= s.len(),
        s.len() > 0,
        s.last() == '\n',
    ensures
        md_fold(s + t, i, st) == md_fold(s + t, s.len() as int, md_fold(s, i, st)),
    decreases s.len() - i,
{
    if i < s.len() {
        let e = line_end(s, i);
        lemma_line_end(s, i);
        lemma_line_end_concat(s, t, i);
        assert((s + t).subrange(i, e) =~= s.subrange(i, e));
        lemma_md_fold_concat(s, t, e, md_step(st, s.subrange(i, e)));
    }
}

/// The title is the first `# ` heading: once a document's lines have given
/// it a title, the lines after them never change it. For `s` made of whole
/// lines (ending with a line feed) that has a title, `s` followed by any
/// text `t` has the same title.
pub proof fn lemma_markdown_title_first(s: Seq<char>, t: Seq<char>)
    requires
        s.len() > 0,
        s.last() == '\n',
        markdown_spec(s).0 is Some,
    ensures
        markdown_spec(s + t).0 == markdown_spec(s).0,
{
    lemma_md_fold_concat(s, t, 0, md_initial());
    lemma_md_fold_title_kept(s + t, s.len() as int, md_fold(s, 0, md_initial()));
}

/// A document that opens with the line `# x` (a `#`, a space, then `x`,
/// ending with a line feed) has `x`, trimmed, as its title, whatever
/// follows.
pub proof fn lemma_markdown_title_from_first_line(x: Seq<char>, t: Seq<char>)
    requires
        forall|i: int| 0 <= i < x.len() ==> x[i] != '\n',
    ensures
        markdown_spec(seq!['#', ' '] + x + seq!['\n'] + t).0 == Some(trim(x)),
{
    let line = seq!['#', ' '] + x + seq!['\n'];
    let n = line.len() as int;
    assert forall|k: int| 0 <= k < n - 1 implies line[k] != '\n' by {
        if k >= 2 {
            assert(line[k] == x[k - 2]);
        }
    }
    lemma_line_end_is(line, 0, n);
    assert(line.subrange(0, n) =~= line);
    let body = seq!['#', ' '] + x;
    assert(back_char(line, '\n', n - 1) == n - 1) by {
        assert(line[n - 2] == (if x.len() > 0 { x[x.len() - 1] } else { ' ' }));
    }
    assert(line_body(line) =~= body);
    assert(!is_ws('#'));
    assert(skip_ws(body, 0, body.len() as int) == 0);
    assert(trim_start(body) =~= body);
    assert(body.subrange(0, 2) =~= seq!['#', ' ']);
    assert(body.subrange(2, body.len() as int) =~= x);
    assert(title_of_line(line) == Some(trim(x)));
    let st = md_step(md_initial(), line);
    assert(md_fold(line, n, st) == st);
    assert(markdown_spec(line).0 == Some(trim(x)));
    lemma_markdown_title_first(line, t);
}

/// Extract the document title (first level-1 heading, if any) and split the
/// body into sections, each running from its heading to the next heading
/// of equal or higher level.
pub fn parse(raw: &str) -> (r: Result<(Option<String>, Vec<MarkdownSection>), IngestError>)
    ensures
        r matches Ok((title, sections)) && opt_string_view(title) == markdown_spec(raw@).0
            && sections_view(sections@) == markdown_spec(raw@).1 && sections@.len() >= 1,
{
    // The UTF-8 bytes of `raw` form a slice, so their count is a `usize`.
    let byte_count = raw.as_bytes().len();
    proof {
        crate::text::lemma_byte_len_is_utf8_len(raw@);
        assert(byte_len(raw@) == byte_count);
    }
    let s = chars_of(raw);
    let (title, sections) = parse_chars(&s);
    Ok((title, sections))
}

/// [`parse`] over the characters of the input.
pub fn parse_chars(s: &Vec<char>) -> (r: (Option<String>, Vec<MarkdownSection>))
    requires
        byte_len(s@) <= usize::MAX,
    ensures
        opt_string_view(r.0) == markdown_spec(s@).0,
        sections_view(r.1@) == markdown_spec(s@).1,
        r.1@.len() >= 1,
{
    let mut secs0: Vec<OpenSection> = Vec::new();
    secs0.push(OpenSection { heading: None, level: 0, text: Vec::new(), start: 0, open: true });
    let mut scan = MdScan { title: None, secs: secs0, offset: 0 };
    let mut i: usize = 0;
    let ghost init = md_initial();
    proof {
        assert(s@.subrange(0, 0) =~= Seq::<char>::empty());
        assert(byte_len(Seq::<char>::empty()) == 0);
        assert(opens_view(scan.secs@) =~= init.secs);
        assert(scan.view() == init);
    }
    while i < s.len()
        invariant
            i <= s.len(),
            byte_len(s@) <= usize::MAX,
            scan.offset == byte_len(s@.subrange(0, i as int)),
            md_fold(s@, i as int, scan.view()) == md_fold(s@, 0, init),
            forall|k: int| 0 <= k < scan.secs@.len() ==> #[trigger] scan.secs@[k].start <= scan.offset,
        decreases s.len() - i,
    {
        proof {
            lemma_line_end(s@, i as int);
        }
        let e = match find_char(s, '\n', i) {
            Some(j) => j + 1,
            None => s.len(),
        };
        assert(e == line_end(s@, i as int)) by {
            lemma_line_end_is(s@, i as int, e as int);
        }
        let line = copy_window(s, i, e);
        proof {
            lemma_byte_len_split(s@, 0, i as int, e as int);
            lemma_byte_len_split(s@, 0, e as int, s@.len() as int);
            assert(s@.subrange(0, s@.len() as int) == s@);
        }
        let line_bytes = window_byte_len(s, i, e);
        scan.step(&line, line_bytes);
        i = e;
    }
    proof {
        assert(s@.subrange(0, s@.len() as int) == s@);
    }
    let ghost sv = opens_view(scan.secs@);
    let mut sections: Vec<MarkdownSection> = Vec::new();
    let mut k: usize = 0;
    while k < scan.secs.len()
        invariant
            k <= scan.secs.len(),
            sv == opens_view(scan.secs@),
            sections_view(sections@) == emitted(sv.take(k as int)),
        decreases scan.secs.len() - k,
    {
        let x = &scan.secs[k];
        proof {
            assert(sv.take(k + 1).drop_last() == sv.take(k as int));
            assert(sv.take(k + 1).last() == open_view(*x));
        }
        if x.heading.is_some() || !is_blank_exec(&x.text) {
            let h = match &x.heading {
                Some(hv) => Some(string_of(hv)),
                None => None,
            };
            let ghost before = sections@;
            let ms = MarkdownSection { heading: h, text: string_of(&x.text), start_offset: x.start };
            sections.push(ms);
            proof {
                assert(sections_view(sections@) =~= sections_view(before).push(
                    (open_view(*x).heading, open_view(*x).text, open_view(*x).start),
                ));
            }
        }
        k += 1;
    }
    proof {
        assert(sv.take(scan.secs@.len() as int) == sv);
    }
    let title = scan.title;
    if sections.len() == 0 {
        sections.push(MarkdownSection { heading: None, text: string_of(s), start_offset: 0 });
        proof {
            assert(sections_view(sections@) =~= seq![(None::<Seq<char>>, s@, 0int)]);
        }
    }
    (title, sections)
}

proof fn lemma_line_end_is(s: Seq<char>, i: int, e: int)
    requires
        0 <= i < s.len(),
        i < e <= s.len(),
        forall|k: int| i <= k < e - 1 ==> s[k] != '\n',
        s[e - 1] == '\n' || e == s.len(),
    ensures
        e == line_end(s, i),
    decreases e - i,
{
    if s[i] == '\n' {
        if e > i + 1 {
            assert(s[i] != '\n');
        }
    } else if i + 1 < s.len() {
        lemma_line_end_is(s, i + 1, e);
    }
}

} // verus!
