//! DOCX (WordprocessingML) text extraction. A `.docx` is a ZIP container
//! whose body is `word/document.xml`: `<w:p>` paragraphs of `<w:r>` runs
//! of `<w:t>` text. One linear scan over that XML picks out the few tags
//! that matter for plain text. Paragraphs styled with a heading style
//! (`Heading1`..`Heading9`, `Title`) start sections.
use std::io::Read;
use vstd::prelude::*;
use vstd::utf8::{decode_utf8, valid_utf8};

use crate::ingest::error::IngestError;
use crate::ingest::parsers::markdown::opt_chars_view;
use crate::ingest::parsers::{offsets_chain, parsed_sections_view, ParsedSection, SectionSpec};
use crate::text::{
    byte_len, chars_of, checked_window_byte_len, copy_window, ends_with, eq_lit, extend_all,
    extend_str, find_exec, find_from, is_blank, is_blank_exec, lemma_find_from,
    lowercase, replace, replace_str,
    skip_char_exec, back_char_exec, split_whitespace, starts_with, starts_with_exec, string_of,
    strip_leading, strip_trailing, to_lowercase, trim, trim_end, trim_start, trim_window,
    utf8_chars, words,
};

verus! {

// ---------------------------------------------------------------------
// The ZIP container
// ---------------------------------------------------------------------

#[verifier::external_type_specification]
#[verifier::external_body]
pub struct ExZipError(zip::result::ZipError);

/// Whether `zip::ZipArchive::new` accepts the bytes `raw` as an archive.
pub uninterp spec fn zip_opens(raw: Seq<u8>) -> bool;

/// The bytes of the entry called `name` in the archive `raw`, when the
/// archive opens, holds that entry and the entry reads to its end.
pub uninterp spec fn zip_entry(raw: Seq<u8>, name: Seq<char>) -> Option<Seq<u8>>;

/// Calls `zip::ZipArchive::new` on the bytes (through a cursor); `Ok`
/// exactly when the crate accepts them as an archive.
#[verifier::external_body]
fn open_archive(raw: &[u8]) -> (r: Result<(), zip::result::ZipError>)
    ensures
        (r is Ok) == zip_opens(raw@),
{
    zip::ZipArchive::new(std::io::Cursor::new(raw)).map(|_| ())
}

/// Whether `zip::ZipArchive::by_name` finds the entry called `name` in the
/// archive `raw`.
pub uninterp spec fn zip_entry_found(raw: Seq<u8>, name: Seq<char>) -> bool;

/// Why an entry of an archive could not be read, with the crate's message.
pub enum EntryError {
    /// The archive did not open, or holds no entry of that name.
    Missing(String),
    /// The entry was found but reading it failed.
    Unreadable(String),
}

/// Opens the archive `raw` with `zip::ZipArchive::new`, finds the entry
/// `name` with `by_name`, and reads it to its end with `Read::read_to_end`.
/// A failure to open or find gives `Missing`, a failure to read gives
/// `Unreadable`, each with the error's message (which is left unstated).
/// An entry can only be read from bytes that open as an archive, and only
/// once it is found.
#[verifier::external_body]
fn read_entry(raw: &[u8], name: &str) -> (r: Result<Vec<u8>, EntryError>)
    ensures
        (r is Ok) == (zip_entry(raw@, name@) is Some),
        r matches Ok(b) ==> b@ == zip_entry(raw@, name@).unwrap(),
        r is Ok ==> zip_opens(raw@) && zip_entry_found(raw@, name@),
        (r matches Err(EntryError::Missing(_))) == !(zip_opens(raw@) && zip_entry_found(raw@, name@)),
{
    let mut archive = match zip::ZipArchive::new(std::io::Cursor::new(raw)) {
        Ok(a) => a,
        Err(e) => return Err(EntryError::Missing(e.to_string())),
    };
    let mut file = match archive.by_name(name) {
        Ok(f) => f,
        Err(e) => return Err(EntryError::Missing(e.to_string())),
    };
    let mut buf = Vec::new();
    match file.read_to_end(&mut buf) {
        Ok(_) => Ok(buf),
        Err(e) => Err(EntryError::Unreadable(e.to_string())),
    }
}

/// `prefix` followed by `detail`.
fn with_prefix(prefix: &str, detail: String) -> (m: String)
    ensures
        m@ == prefix@ + detail@,
        prefix@.is_prefix_of(m@),
{
    let mut m = String::from_str(prefix);
    m.append(detail.as_str());
    assert(m@.subrange(0, prefix@.len() as int) =~= prefix@);
    m
}

// ---------------------------------------------------------------------
// Tag helpers
// ---------------------------------------------------------------------

/// The XML entities decoded in text: `&amp;`, `&lt;`, `&gt;`, `&quot;`,
/// `&apos;`, in that order.
pub open spec fn decode_xml(s: Seq<char>) -> Seq<char> {
    replace(
        replace(replace(replace(replace(s, "&amp;"@, "&"@), "&lt;"@, "<"@), "&gt;"@, ">"@), "&quot;"@, "\""@),
        "&apos;"@,
        "'"@,
    )
}

fn decode_xml_entities(s: &Vec<char>) -> (r: Vec<char>)
    ensures
        r@ == decode_xml(s@),
{
    proof {
        reveal_strlit("&amp;");
        reveal_strlit("&lt;");
        reveal_strlit("&gt;");
        reveal_strlit("&quot;");
        reveal_strlit("&apos;");
    }
    let a = replace_str(s, "&amp;", "&");
    let b = replace_str(&a, "&lt;", "<");
    let c = replace_str(&b, "&gt;", ">");
    let d = replace_str(&c, "&quot;", "\"");
    replace_str(&d, "&apos;", "'")
}

/// The element name of a tag's inside: slashes and whitespace around it
/// removed, then its first word (or nothing).
pub open spec fn tag_name(t: Seq<char>) -> Seq<char> {
    let w = words(trim(strip_trailing(strip_leading(t, '/'), '/')));
    if w.len() > 0 {
        w[0]
    } else {
        seq![]
    }
}

/// A closing tag's inside starts (after whitespace) with `/`.
pub open spec fn is_closing(t: Seq<char>) -> bool {
    starts_with(trim_start(t), seq!['/'])
}

/// A self-closing tag's inside ends (before whitespace) with `/`.
pub open spec fn is_self_closing(t: Seq<char>) -> bool {
    ends_with(trim_end(t), seq!['/'])
}

fn tag_name_exec(t: &Vec<char>) -> (r: Vec<char>)
    ensures
        r@ == tag_name(t@),
{
    let a = skip_char_exec(t, '/', 0);
    let l = copy_window(t, a, t.len());
    let b = back_char_exec(&l, '/', l.len());
    let m = copy_window(&l, 0, b);
    let (x, y) = trim_window(&m, 0, m.len());
    let n = copy_window(&m, x, y);
    proof {
        assert(m@.subrange(0, m@.len() as int) == m@);
    }
    let ws = split_whitespace(&n);
    if ws.len() > 0 {
        let mut first = Vec::new();
        extend_all(&mut first, &ws[0]);
        first
    } else {
        Vec::new()
    }
}

fn is_closing_exec(t: &Vec<char>) -> (b: bool)
    ensures
        b == is_closing(t@),
{
    let (a, _) = trim_window(t, 0, t.len());
    proof {
        assert(t@.subrange(0, t@.len() as int) == t@);
    }
    if a < t.len() && t[a] == '/' {
        proof {
            assert(trim_start(t@).subrange(0, 1) =~= seq!['/']);
        }
        true
    } else {
        proof {
            if starts_with(trim_start(t@), seq!['/']) {
                assert(trim_start(t@)[0] == trim_start(t@).subrange(0, 1)[0]);
            }
        }
        false
    }
}

fn is_self_closing_exec(t: &Vec<char>) -> (b: bool)
    ensures
        b == is_self_closing(t@),
{
    let e = crate::text::skip_whitespace_back(t, 0, t.len());
    proof {
        assert(trim_end(t@) == t@.subrange(0, e as int));
    }
    if e > 0 && t[e - 1] == '/' {
        proof {
            let te = trim_end(t@);
            assert(te.subrange(te.len() - 1, te.len() as int) =~= seq!['/']);
        }
        true
    } else {
        proof {
            let te = trim_end(t@);
            if ends_with(te, seq!['/']) {
                assert(te[te.len() - 1] == te.subrange(te.len() - 1, te.len() as int)[0]);
            }
        }
        false
    }
}

/// The value of `attr` quoted by `q`: the text between `attr="` (or
/// `attr='`) and the next quote of the same kind.
pub open spec fn attr_with_quote(t: Seq<char>, attr: Seq<char>, q: char) -> Option<Seq<char>> {
    let needle = attr + seq!['=', q];
    match find_from(t, needle, 0) {
        Some(pos) => {
            let start = pos + needle.len();
            match find_from(t, seq![q], start) {
                Some(end) => Some(t.subrange(start, end)),
                None => None,
            }
        },
        None => None,
    }
}

/// The value of attribute `attr` in a tag's inside, double quotes tried
/// before single quotes.
pub open spec fn attr_value(t: Seq<char>, attr: Seq<char>) -> Option<Seq<char>> {
    match attr_with_quote(t, attr, '"') {
        Some(v) => Some(v),
        None => attr_with_quote(t, attr, '\''),
    }
}

fn attr_with_quote_exec(t: &Vec<char>, attr: &Vec<char>, q: char) -> (r: Option<Vec<char>>)
    ensures
        opt_chars_view(r) == attr_with_quote(t@, attr@, q),
{
    let mut needle = Vec::new();
    extend_all(&mut needle, attr);
    needle.push('=');
    needle.push(q);
    proof {
        assert(needle@ =~= attr@ + seq!['=', q]);
    }
    match find_exec(t, &needle, 0) {
        Some(pos) => {
            proof {
                lemma_find_from(t@, needle@, 0);
            }
            let tlen = t.len();
            assert(pos + needle@.len() <= tlen);
            let start = pos + needle.len();
            let qv = vec![q];
            proof {
                assert(qv@ =~= seq![q]);
            }
            match find_exec(t, &qv, start) {
                Some(end) => {
                    proof {
                        lemma_find_from(t@, qv@, start as int);
                    }
                    Some(copy_window(t, start, end))
                },
                None => None,
            }
        },
        None => None,
    }
}

fn attr_value_exec(t: &Vec<char>, attr: &Vec<char>) -> (r: Option<Vec<char>>)
    ensures
        opt_chars_view(r) == attr_value(t@, attr@),
{
    match attr_with_quote_exec(t, attr, '"') {
        Some(v) => Some(v),
        None => attr_with_quote_exec(t, attr, '\''),
    }
}

/// The entity-decoded text of the first `<tag ...>...</tag>` element.
pub open spec fn tag_text(xml: Seq<char>, tag: Seq<char>) -> Option<Seq<char>> {
    let open = seq!['<'] + tag;
    let close = seq!['<', '/'] + tag + seq!['>'];
    match find_from(xml, open, 0) {
        Some(open_start) => match find_from(xml, seq!['>'], open_start) {
            Some(gt) => match find_from(xml, close, gt + 1) {
                Some(close_start) => Some(decode_xml(xml.subrange(gt + 1, close_start))),
                None => None,
            },
            None => None,
        },
        None => None,
    }
}

fn extract_tag_text(xml: &Vec<char>, tag: &str) -> (r: Option<Vec<char>>)
    ensures
        opt_chars_view(r) == tag_text(xml@, tag@),
{
    let mut open = vec!['<'];
    extend_str(&mut open, tag);
    let mut close = vec!['<', '/'];
    extend_str(&mut close, tag);
    close.push('>');
    proof {
        assert(open@ =~= seq!['<'] + tag@);
        assert(close@ =~= seq!['<', '/'] + tag@ + seq!['>']);
    }
    let open_start = match find_exec(xml, &open, 0) {
        Some(p) => p,
        None => return None,
    };
    proof {
        lemma_find_from(xml@, open@, 0);
    }
    let gtv = vec!['>'];
    proof {
        assert(gtv@ =~= seq!['>']);
    }
    let gt = match find_exec(xml, &gtv, open_start) {
        Some(g) => g,
        None => return None,
    };
    proof {
        lemma_find_from(xml@, gtv@, open_start as int);
    }
    let xlen = xml.len();
    assert(gt + 1 <= xlen);
    let close_start = match find_exec(xml, &close, gt + 1) {
        Some(c) => c,
        None => return None,
    };
    proof {
        lemma_find_from(xml@, close@, gt + 1);
    }
    let inner = copy_window(xml, gt + 1, close_start);
    Some(decode_xml_entities(&inner))
}

// ---------------------------------------------------------------------
// Paragraph extraction
// ---------------------------------------------------------------------

/// A paragraph as read from the XML: its style value (if any) and text.
pub type ParaSpec = (Option<Seq<char>>, Seq<char>);

/// State of the scan between tags.
pub struct XmlState {
    pub paras: Seq<ParaSpec>,
    pub in_p: bool,
    pub style: Option<Seq<char>>,
    pub text: Seq<char>,
    pub in_wt: bool,
}

/// A text node between tags: kept (decoded) inside `<w:t>` in a paragraph.
pub open spec fn text_step(st: XmlState, node: Seq<char>) -> XmlState {
    if st.in_wt && st.in_p && node.len() > 0 {
        XmlState { text: st.text + decode_xml(node), ..st }
    } else {
        st
    }
}

/// The current paragraph ends and is recorded.
pub open spec fn flush(st: XmlState) -> XmlState {
    XmlState { paras: st.paras.push((st.style, st.text)), style: None, text: seq![], ..st }
}

/// A tag (its inside, between `<` and `>`).
pub open spec fn tag_step(st: XmlState, t: Seq<char>) -> XmlState {
    let name = tag_name(t);
    let closing = is_closing(t);
    let self_closing = is_self_closing(t);
    if name == "w:p"@ {
        if closing {
            if st.in_p {
                XmlState { in_p: false, ..flush(st) }
            } else {
                st
            }
        } else {
            let st1 = if st.in_p {
                flush(st)
            } else {
                st
            };
            let st2 = XmlState { in_p: true, style: None, text: seq![], ..st1 };
            if self_closing {
                XmlState { paras: st2.paras.push((None, seq![])), in_p: false, ..st2 }
            } else {
                st2
            }
        }
    } else if name == "w:pStyle"@ && st.in_p {
        match attr_value(t, "w:val"@) {
            Some(v) => XmlState { style: Some(v), ..st },
            None => st,
        }
    } else if name == "w:t"@ {
        XmlState { in_wt: !closing && !self_closing, ..st }
    } else if name == "w:tab"@ && st.in_p {
        XmlState { text: st.text.push('\t'), ..st }
    } else if (name == "w:br"@ || name == "w:cr"@) && st.in_p {
        XmlState { text: st.text.push('\n'), ..st }
    } else {
        st
    }
}

/// Scanning the XML from index `p`: each `<` ends a text node and starts
/// a tag that runs to the next `>`; a tag without its `>` stops the scan.
pub open spec fn xml_fold(s: Seq<char>, p: int, st: XmlState) -> XmlState
    decreases s.len() - p,
{
    if p < 0 || p > s.len() {
        st
    } else {
        match find_from(s, seq!['<'], p) {
            None => st,
            Some(lt) => {
                let st1 = text_step(st, s.subrange(p, lt));
                match find_from(s, seq!['>'], lt + 1) {
                    None => st1,
                    Some(gt) => {
                        proof {
                            lemma_find_from(s, seq!['<'], p);
                            lemma_find_from(s, seq!['>'], lt + 1);
                        }
                        xml_fold(s, gt + 1, tag_step(st1, s.subrange(lt + 1, gt)))
                    },
                }
            },
        }
    }
}

pub open spec fn xml_initial() -> XmlState {
    XmlState { paras: seq![], in_p: false, style: None, text: seq![], in_wt: false }
}

/// The paragraphs of `word/document.xml`: style and text of each `<w:p>`,
/// honouring `<w:tab/>` and `<w:br/>`/`<w:cr/>` as whitespace.
pub open spec fn paragraphs_spec(xml: Seq<char>) -> Seq<ParaSpec> {
    let st = xml_fold(xml, 0, xml_initial());
    if st.in_p {
        st.paras.push((st.style, st.text))
    } else {
        st.paras
    }
}

struct RawParagraph {
    style_val: Option<Vec<char>>,
    text: Vec<char>,
}

spec fn para_view(p: RawParagraph) -> ParaSpec {
    (opt_chars_view(p.style_val), p.text@)
}

spec fn paras_view(v: Seq<RawParagraph>) -> Seq<ParaSpec> {
    v.map_values(|p: RawParagraph| para_view(p))
}

struct XmlScan {
    paras: Vec<RawParagraph>,
    in_p: bool,
    style: Option<Vec<char>>,
    text: Vec<char>,
    in_wt: bool,
}

impl XmlScan {
    spec fn view(&self) -> XmlState {
        XmlState {
            paras: paras_view(self.paras@),
            in_p: self.in_p,
            style: opt_chars_view(self.style),
            text: self.text@,
            in_wt: self.in_wt,
        }
    }

    fn flush(&mut self)
        ensures
            final(self).view() == flush(old(self).view()),
    {
        let style = self.style.take();
        let mut text = Vec::new();
        std::mem::swap(&mut text, &mut self.text);
        let ghost before = self.paras@;
        self.paras.push(RawParagraph { style_val: style, text });
        proof {
            assert(paras_view(self.paras@) =~= paras_view(before).push(
                (old(self).view().style, old(self).view().text),
            ));
        }
    }

    fn text_node(&mut self, s: &Vec<char>, lo: usize, hi: usize)
        requires
            lo <= hi <= s.len(),
        ensures
            final(self).view() == text_step(old(self).view(), s@.subrange(lo as int, hi as int)),
    {
        if self.in_wt && self.in_p && lo < hi {
            let node = copy_window(s, lo, hi);
            let decoded = decode_xml_entities(&node);
            extend_all(&mut self.text, &decoded);
        }
    }

    fn tag(&mut self, t: &Vec<char>)
        ensures
            final(self).view() == tag_step(old(self).view(), t@),
    {
        let name = tag_name_exec(t);
        let closing = is_closing_exec(t);
        let self_closing = is_self_closing_exec(t);
        if eq_lit(&name, "w:p") {
            if closing {
                if self.in_p {
                    self.flush();
                    self.in_p = false;
                }
            } else {
                if self.in_p {
                    self.flush();
                }
                self.in_p = true;
                self.style = None;
                self.text = Vec::new();
                if self_closing {
                    let ghost before = self.paras@;
                    self.paras.push(RawParagraph { style_val: None, text: Vec::new() });
                    proof {
                        assert(paras_view(self.paras@) =~= paras_view(before).push(
                            (None, seq![]),
                        ));
                    }
                    self.in_p = false;
                }
            }
        } else if eq_lit(&name, "w:pStyle") && self.in_p {
            let attr = chars_of("w:val");
            match attr_value_exec(t, &attr) {
                Some(v) => {
                    self.style = Some(v);
                },
                None => {},
            }
        } else if eq_lit(&name, "w:t") {
            self.in_wt = !closing && !self_closing;
        } else if eq_lit(&name, "w:tab") && self.in_p {
            self.text.push('\t');
        } else if (eq_lit(&name, "w:br") || eq_lit(&name, "w:cr")) && self.in_p {
            self.text.push('\n');
        }
    }
}

/// Linear scan over `word/document.xml` extracting each paragraph's style
/// and text.
fn extract_paragraphs(xml: &Vec<char>) -> (r: Vec<RawParagraph>)
    ensures
        paras_view(r@) == paragraphs_spec(xml@),
{
    let mut scan = XmlScan {
        paras: Vec::new(),
        in_p: false,
        style: None,
        text: Vec::new(),
        in_wt: false,
    };
    proof {
        assert(paras_view(scan.paras@) =~= Seq::<ParaSpec>::empty());
    }
    let ltv = vec!['<'];
    let gtv = vec!['>'];
    proof {
        assert(ltv@ =~= seq!['<']);
        assert(gtv@ =~= seq!['>']);
    }
    let mut p: usize = 0;
    loop
        invariant_except_break
            p <= xml.len(),
            ltv@ == seq!['<'],
            gtv@ == seq!['>'],
            xml_fold(xml@, p as int, scan.view()) == xml_fold(xml@, 0, xml_initial()),
        ensures
            scan.view() == xml_fold(xml@, 0, xml_initial()),
        decreases xml.len() - p,
    {
        let lt = match find_exec(xml, &ltv, p) {
            Some(l) => l,
            None => {
                break;
            },
        };
        proof {
            lemma_find_from(xml@, ltv@, p as int);
        }
        let ghost before = scan.view();
        scan.text_node(xml, p, lt);
        let gt = match find_exec(xml, &gtv, lt + 1) {
            Some(g) => g,
            None => {
                assert(xml_fold(xml@, p as int, before) == scan.view());
                break;
            },
        };
        proof {
            lemma_find_from(xml@, gtv@, lt + 1);
        }
        let t = copy_window(xml, lt + 1, gt);
        scan.tag(&t);
        p = gt + 1;
    }
    if scan.in_p {
        scan.flush();
    }
    scan.paras
}

// ---------------------------------------------------------------------
// Sections
// ---------------------------------------------------------------------

/// ASCII lowercase of one character.
pub open spec fn ascii_lower(c: char) -> char {
    if 'A' <= c <= 'Z' {
        ((c as u8) + 32) as char
    } else {
        c
    }
}

/// `str::eq_ignore_ascii_case`.
pub open spec fn eq_ignore_ascii_case(a: Seq<char>, b: Seq<char>) -> bool {
    a.len() == b.len() && forall|k: int| 0 <= k < a.len() ==> ascii_lower(#[trigger] a[k]) == ascii_lower(b[k])
}

fn ascii_lower_exec(c: char) -> (r: char)
    ensures
        r == ascii_lower(c),
{
    if 'A' <= c && c <= 'Z' {
        ((c as u8) + 32) as char
    } else {
        c
    }
}

fn eq_ignore_ascii_case_exec(a: &Vec<char>, b: &Vec<char>) -> (r: bool)
    ensures
        r == eq_ignore_ascii_case(a@, b@),
{
    if a.len() != b.len() {
        return false;
    }
    let mut i: usize = 0;
    while i < a.len()
        invariant
            a.len() == b.len(),
            i <= a.len(),
            forall|k: int| 0 <= k < i ==> ascii_lower(#[trigger] a@[k]) == ascii_lower(b@[k]),
        decreases a.len() - i,
    {
        if ascii_lower_exec(a[i]) != ascii_lower_exec(b[i]) {
            return false;
        }
        i += 1;
    }
    true
}

/// Word's built-in heading styles: anything starting `heading`, or
/// `title`, compared in lowercase.
pub open spec fn is_heading_style(style: Seq<char>) -> bool {
    let lower = lowercase(style);
    starts_with(lower, "heading"@) || lower == "title"@
}

pub open spec fn para_is_heading(style: Option<Seq<char>>) -> bool {
    match style {
        Some(s) => is_heading_style(s),
        None => false,
    }
}

pub open spec fn para_is_title_style(style: Option<Seq<char>>) -> bool {
    match style {
        Some(s) => eq_ignore_ascii_case(s, "title"@),
        None => false,
    }
}

/// State of the grouping between paragraphs.
pub struct GroupState {
    pub sections: Seq<SectionSpec>,
    pub title: Option<Seq<char>>,
    pub heading: Option<Seq<char>>,
    pub text: Seq<char>,
    pub offset: int,
}

pub open spec fn group_open(st: GroupState) -> bool {
    !is_blank(st.text) || st.heading is Some
}

/// One paragraph. A heading closes the open section (which then starts
/// at `offset`; the next starts after its text and a `"\n"` joiner) and
/// opens a new one; other non-blank paragraphs are appended, trimmed and
/// separated by a blank line.
pub open spec fn group_step(st: GroupState, para: ParaSpec) -> GroupState {
    if para_is_heading(para.0) {
        let ht = trim(para.1);
        let title = if st.title is None && para_is_title_style(para.0) && ht.len() > 0 {
            Some(ht)
        } else {
            st.title
        };
        if group_open(st) {
            GroupState {
                sections: st.sections.push((st.heading, st.text, st.offset, None)),
                title,
                heading: Some(ht),
                text: seq![],
                offset: st.offset + byte_len(st.text) + 1,
            }
        } else {
            GroupState { title, heading: Some(ht), text: seq![], ..st }
        }
    } else {
        let t = trim(para.1);
        if t.len() > 0 {
            GroupState {
                text: if st.text.len() > 0 {
                    st.text + seq!['\n', '\n'] + t
                } else {
                    st.text + t
                },
                ..st
            }
        } else {
            st
        }
    }
}

pub open spec fn group_fold(paras: Seq<ParaSpec>, k: int, st: GroupState) -> GroupState
    decreases paras.len() - k,
{
    if k < 0 || k >= paras.len() {
        st
    } else {
        group_fold(paras, k + 1, group_step(st, paras[k]))
    }
}

/// The title and sections built from the paragraphs, starting from the
/// title the document properties give.
pub open spec fn group_spec(paras: Seq<ParaSpec>, core_title: Option<Seq<char>>) -> (
    Option<Seq<char>>,
    Seq<SectionSpec>,
) {
    let st = group_fold(
        paras,
        0,
        GroupState { sections: seq![], title: core_title, heading: None, text: seq![], offset: 0 },
    );
    let secs = if group_open(st) {
        st.sections.push((st.heading, st.text, st.offset, None))
    } else {
        st.sections
    };
    (st.title, if secs.len() == 0 { seq![(None, seq![], 0, None)] } else { secs })
}

/// Every paragraph whose style, lowercased, starts with `heading` (Word's
/// `Heading1` to `Heading9`, in any case) or is `title` is a section
/// heading: a heading
/// paragraph followed by a body paragraph groups into exactly one section,
/// headed by the heading's trimmed text and holding the body's trimmed
/// text, at offset 0.
pub proof fn lemma_heading_styles_open_sections(
    style: Seq<char>,
    heading: Seq<char>,
    body: Seq<char>,
    core_title: Option<Seq<char>>,
)
    requires
        starts_with(lowercase(style), "heading"@) || lowercase(style) == "title"@,
    ensures
        group_spec(seq![(Some(style), heading), (None::<Seq<char>>, body)], core_title).1 == seq![
            (Some(trim(heading)), trim(body), 0int, None::<u32>),
        ],
{
    let paras = seq![(Some(style), heading), (None::<Seq<char>>, body)];
    let init = GroupState { sections: seq![], title: core_title, heading: None, text: seq![], offset: 0 };
    assert(para_is_heading(paras[0].0));
    assert(!para_is_heading(paras[1].0));
    let s1 = group_step(init, paras[0]);
    assert(!group_open(init));
    let s2 = group_step(s1, paras[1]);
    assert(group_fold(paras, 2, s2) == s2);
    assert(group_fold(paras, 1, s1) == s2);
    assert(group_fold(paras, 0, init) == s2);
    if trim(body).len() == 0 {
        assert(trim(body) =~= Seq::<char>::empty());
    } else {
        assert(s1.text.len() == 0);
        assert(s1.text + trim(body) =~= trim(body));
    }
    assert(s2.text == trim(body));
    assert(s2.sections.len() == 0);
    assert(group_open(s2));
    assert(s2.sections.push((s2.heading, s2.text, s2.offset, None)) =~= seq![
        (Some(trim(heading)), trim(body), 0int, None::<u32>),
    ]);
}

spec fn group_headed_after_first(st: GroupState) -> bool {
    &&& (st.sections.len() > 0 ==> st.heading is Some)
    &&& forall|k: int| 1 <= k < st.sections.len() ==> (#[trigger] st.sections[k]).0 is Some
}

proof fn lemma_group_fold_laws(paras: Seq<ParaSpec>, k: int, st: GroupState)
    requires
        group_headed_after_first(st),
    ensures
        group_headed_after_first(group_fold(paras, k, st)),
        st.title is Some ==> group_fold(paras, k, st).title == st.title,
    decreases paras.len() - k,
{
    if 0 <= k < paras.len() {
        let nx = group_step(st, paras[k]);
        assert forall|j: int| 1 <= j < nx.sections.len() implies (#[trigger] nx.sections[j]).0 is Some by {
            if j < st.sections.len() {
                assert(nx.sections[j] == st.sections[j]);
            }
        }
        lemma_group_fold_laws(paras, k + 1, nx);
    }
}

/// A title in the document properties takes priority over a
/// `Title`-styled paragraph; and sections are delimited by headings:
/// every section after the first carries its heading.
pub proof fn lemma_docx_grouping(paras: Seq<ParaSpec>, core_title: Option<Seq<char>>)
    ensures
        core_title is Some ==> group_spec(paras, core_title).0 == core_title,
        forall|k: int|
            1 <= k < group_spec(paras, core_title).1.len() ==> (#[trigger] group_spec(paras, core_title).1[k]).0 is Some,
{
    let init = GroupState { sections: seq![], title: core_title, heading: None, text: seq![], offset: 0 };
    lemma_group_fold_laws(paras, 0, init);
    let st = group_fold(paras, 0, init);
    let secs = group_spec(paras, core_title).1;
    assert forall|k: int| 1 <= k < secs.len() implies (#[trigger] secs[k]).0 is Some by {
        if k < st.sections.len() {
            assert(secs[k] == st.sections[k]);
        }
    }
}

spec fn group_chained(st: GroupState) -> bool {
    &&& offsets_chain(st.sections, 1)
    &&& st.sections.len() == 0 ==> st.offset == 0
    &&& st.sections.len() > 0 ==> st.offset == st.sections.last().2 + byte_len(st.sections.last().1) + 1
}

proof fn lemma_group_push_chained(st: GroupState)
    requires
        group_chained(st),
    ensures
        offsets_chain(st.sections.push((st.heading, st.text, st.offset, None)), 1),
{
    let secs = st.sections.push((st.heading, st.text, st.offset, None));
    assert forall|k: int| 1 <= k < secs.len() implies #[trigger] secs[k].2 == secs[k - 1].2 + byte_len(
        secs[k - 1].1,
    ) + 1 by {
        if k < st.sections.len() {
            assert(secs[k] == st.sections[k]);
            assert(secs[k - 1] == st.sections[k - 1]);
        } else {
            assert(secs[k - 1] == st.sections.last());
        }
    }
    if st.sections.len() > 0 {
        assert(secs[0] == st.sections[0]);
    }
}

proof fn lemma_group_fold_chained(paras: Seq<ParaSpec>, k: int, st: GroupState)
    requires
        group_chained(st),
    ensures
        group_chained(group_fold(paras, k, st)),
    decreases paras.len() - k,
{
    if 0 <= k < paras.len() {
        let nx = group_step(st, paras[k]);
        if nx.sections != st.sections {
            lemma_group_push_chained(st);
        }
        lemma_group_fold_chained(paras, k + 1, nx);
    }
}

/// DOCX section offsets follow one another with the one-byte `"\n"`
/// joiner.
pub proof fn lemma_docx_offsets_chain(paras: Seq<ParaSpec>, core_title: Option<Seq<char>>)
    ensures
        offsets_chain(group_spec(paras, core_title).1, 1),
{
    let init = GroupState { sections: seq![], title: core_title, heading: None, text: seq![], offset: 0 };
    lemma_group_fold_chained(paras, 0, init);
    let st = group_fold(paras, 0, init);
    if group_open(st) {
        lemma_group_push_chained(st);
    }
}

/// Offsets never decrease along the fold.
proof fn lemma_group_offset_grows(paras: Seq<ParaSpec>, k: int, st: GroupState)
    requires
        0 <= k,
    ensures
        group_fold(paras, k, st).offset >= st.offset,
    decreases paras.len() - k,
{
    if k < paras.len() {
        lemma_group_offset_grows(paras, k + 1, group_step(st, paras[k]));
    }
}

/// Whether every section offset fits in a `usize`.
pub open spec fn group_fits(paras: Seq<ParaSpec>) -> bool {
    group_fold(
        paras,
        0,
        GroupState { sections: seq![], title: None, heading: None, text: seq![], offset: 0 },
    ).offset <= usize::MAX
}

/// The offsets do not depend on the starting title.
proof fn lemma_group_offset_title(
    paras: Seq<ParaSpec>,
    k: int,
    st: GroupState,
    title: Option<Seq<char>>,
)
    requires
        0 <= k,
    ensures
        group_fold(paras, k, st).offset == group_fold(paras, k, GroupState { title, ..st }).offset,
    decreases paras.len() - k,
{
    if k < paras.len() {
        let a = group_step(st, paras[k]);
        let b = group_step(GroupState { title, ..st }, paras[k]);
        assert(b.offset == a.offset && b.sections == a.sections && b.heading == a.heading && b.text
            == a.text);
        lemma_group_offset_title(paras, k + 1, a, b.title);
        assert(GroupState { title: b.title, ..a } == b);
    }
}

struct GroupScan {
    sections: Vec<ParsedSection>,
    title: Option<Vec<char>>,
    heading: Option<Vec<char>>,
    text: Vec<char>,
    offset: usize,
}

impl GroupScan {
    spec fn view(&self) -> GroupState {
        GroupState {
            sections: parsed_sections_view(self.sections@),
            title: opt_chars_view(self.title),
            heading: opt_chars_view(self.heading),
            text: self.text@,
            offset: self.offset as int,
        }
    }

    fn close(&mut self)
        ensures
            group_open(old(self).view()) ==> final(self).sections@.len() == old(self).sections@.len() + 1,
            !group_open(old(self).view()) ==> final(self).sections@ == old(self).sections@,
            final(self).view() == (GroupState {
                sections: if group_open(old(self).view()) {
                    old(self).view().sections.push(
                        (old(self).view().heading, old(self).view().text, old(self).view().offset, None),
                    )
                } else {
                    old(self).view().sections
                },
                ..old(self).view()
            }),
    {
        if !is_blank_exec(&self.text) || self.heading.is_some() {
            let h = match &self.heading {
                Some(hv) => Some(string_of(hv)),
                None => None,
            };
            let t = string_of(&self.text);
            let ghost before = self.sections@;
            self.sections.push(
                ParsedSection { heading: h, text: t, start_offset: self.offset, page: None },
            );
            proof {
                assert(parsed_sections_view(self.sections@) =~= parsed_sections_view(before).push(
                    (old(self).view().heading, old(self).view().text, old(self).view().offset, None),
                ));
            }
        }
    }

    /// One paragraph; `false` (with `self` unspecified) when the next
    /// offset would not fit in a `usize`.
    fn step(&mut self, para: &RawParagraph) -> (ok: bool)
        ensures
            ok ==> final(self).view() == group_step(old(self).view(), para_view(*para)),
            !ok ==> group_step(old(self).view(), para_view(*para)).offset > usize::MAX,
    {
        let is_heading = match &para.style_val {
            Some(sv) => {
                let lower = to_lowercase(sv);
                let heading_prefix = chars_of("heading");
                starts_with_exec(&lower, &heading_prefix) || eq_lit(&lower, "title")
            },
            None => false,
        };
        let (a, b) = trim_window(&para.text, 0, para.text.len());
        proof {
            assert(para.text@.subrange(0, para.text@.len() as int) == para.text@);
        }
        if is_heading {
            let ht = copy_window(&para.text, a, b);
            let is_title_style = match &para.style_val {
                Some(sv) => {
                    let title_lit = chars_of("title");
                    eq_ignore_ascii_case_exec(sv, &title_lit)
                },
                None => false,
            };
            if !is_blank_exec(&self.text) || self.heading.is_some() {
                let len = match checked_window_byte_len(&self.text, 0, self.text.len()) {
                    Some(n) => n,
                    None => {
                        proof {
                            assert(self.text@.subrange(0, self.text@.len() as int) == self.text@);
                        }
                        return false;
                    },
                };
                proof {
                    assert(self.text@.subrange(0, self.text@.len() as int) == self.text@);
                }
                if self.offset > usize::MAX - 1 || len > usize::MAX - 1 - self.offset {
                    return false;
                }
                self.close();
                self.offset = self.offset + len + 1;
            }
            if self.title.is_none() && is_title_style && ht.len() > 0 {
                self.title = Some(copy_window(&ht, 0, ht.len()));
                proof {
                    assert(ht@.subrange(0, ht@.len() as int) == ht@);
                }
            }
            self.heading = Some(ht);
            self.text = Vec::new();
        } else {
            if a < b {
                if self.text.len() > 0 {
                    self.text.push('\n');
                    self.text.push('\n');
                }
                let t = copy_window(&para.text, a, b);
                extend_all(&mut self.text, &t);
                proof {
                    if old(self).text@.len() > 0 {
                        assert(self.text@ =~= old(self).text@ + seq!['\n', '\n'] + t@);
                    } else {
                        assert(self.text@ =~= old(self).text@ + t@);
                    }
                }
            }
        }
        true
    }
}

/// Groups paragraphs into sections; `None` when the offsets would not fit
/// in a `usize`.
fn group_into_sections(paras: &Vec<RawParagraph>, core_title: Option<Vec<char>>) -> (r: Option<
    (Option<Vec<char>>, Vec<ParsedSection>),
>)
    ensures
        r matches Some((t, secs)) ==> opt_chars_view(t) == group_spec(
            paras_view(paras@),
            opt_chars_view(core_title),
        ).0 && parsed_sections_view(secs@) == group_spec(
            paras_view(paras@),
            opt_chars_view(core_title),
        ).1,
        (r is Some) == group_fits(paras_view(paras@)),
{
    let ghost pv = paras_view(paras@);
    let mut scan = GroupScan {
        sections: Vec::new(),
        title: core_title,
        heading: None,
        text: Vec::new(),
        offset: 0,
    };
    let ghost init = scan.view();
    proof {
        assert(parsed_sections_view(scan.sections@) =~= Seq::<SectionSpec>::empty());
        lemma_group_offset_title(pv, 0, init, None);
        assert(GroupState { title: None, ..init } == GroupState {
            sections: seq![],
            title: None,
            heading: None,
            text: seq![],
            offset: 0,
        });
    }
    let mut k: usize = 0;
    while k < paras.len()
        invariant
            k <= paras.len(),
            pv == paras_view(paras@),
            group_fold(pv, k as int, scan.view()) == group_fold(pv, 0, init),
            group_fits(pv) == (group_fold(pv, 0, init).offset <= usize::MAX),
        decreases paras.len() - k,
    {
        let ghost before = scan.view();
        proof {
            assert(pv[k as int] == para_view(paras@[k as int]));
        }
        if !scan.step(&paras[k]) {
            proof {
                lemma_group_offset_grows(pv, k + 1, group_step(before, pv[k as int]));
            }
            return None;
        }
        k += 1;
    }
    let ghost fin = scan.view();
    proof {
        assert(fin == group_fold(pv, 0, init));
    }
    scan.close();
    let GroupScan { title, mut sections, .. } = scan;
    if sections.len() == 0 {
        sections.push(
            ParsedSection { heading: None, text: String::new(), start_offset: 0, page: None },
        );
        proof {
            assert(parsed_sections_view(sections@) =~= seq![
                (None::<Seq<char>>, Seq::<char>::empty(), 0int, None::<u32>),
            ]);
        }
    }
    Some((title, sections))
}

// ---------------------------------------------------------------------
// The document
// ---------------------------------------------------------------------

/// The title in `docProps/core.xml` (`dc:title`, trimmed), if present,
/// readable and non-empty.
pub open spec fn core_title_spec(raw: Seq<u8>) -> Option<Seq<char>> {
    match zip_entry(raw, "docProps/core.xml"@) {
        Some(b) => if valid_utf8(b) {
            match tag_text(decode_utf8(b), "dc:title"@) {
                Some(t) => if trim(t).len() > 0 {
                    Some(trim(t))
                } else {
                    None
                },
                None => None,
            }
        } else {
            None
        },
        None => None,
    }
}

fn read_core_title(raw: &[u8]) -> (r: Option<Vec<char>>)
    ensures
        opt_chars_view(r) == core_title_spec(raw@),
{
    let bytes = match read_entry(raw, "docProps/core.xml") {
        Ok(b) => b,
        Err(_) => return None,
    };
    let xml = match utf8_chars(bytes.as_slice()) {
        Ok(x) => x,
        Err(_) => return None,
    };
    match extract_tag_text(&xml, "dc:title") {
        Some(t) => {
            let (a, b) = trim_window(&t, 0, t.len());
            proof {
                assert(t@.subrange(0, t@.len() as int) == t@);
            }
            if a < b {
                Some(copy_window(&t, a, b))
            } else {
                None
            }
        },
        None => None,
    }
}

/// The outcome of parsing DOCX bytes `raw` when the archive opens and its
/// body reads as UTF-8: the title (document properties first, then the
/// first `Title`-styled paragraph) and the sections.
pub open spec fn docx_spec(raw: Seq<u8>) -> (Option<Seq<char>>, Seq<SectionSpec>) {
    let xml = decode_utf8(zip_entry(raw, "word/document.xml"@).unwrap());
    group_spec(paragraphs_spec(xml), core_title_spec(raw))
}

/// Whether the body of DOCX bytes `raw` can be read as text.
pub open spec fn docx_body_readable(raw: Seq<u8>) -> bool {
    zip_opens(raw) && zip_entry(raw, "word/document.xml"@) is Some && valid_utf8(
        zip_entry(raw, "word/document.xml"@).unwrap(),
    )
}

/// Extract the document title and split the body into heading-delimited
/// sections.
///
/// Fails when the bytes are not an archive (`"invalid DOCX archive: "`),
/// the archive holds no `word/document.xml` (`"DOCX missing
/// word/document.xml: "`), that entry cannot be read (`"failed reading
/// word/document.xml from DOCX: "`) or is not UTF-8 (`"word/document.xml
/// is not valid UTF-8: "`), each message followed by the error's own; or
/// (an input too large for memory) when the offsets would not fit.
pub fn parse(raw: &[u8]) -> (r: Result<(Option<String>, Vec<ParsedSection>), IngestError>)
    ensures
        !zip_opens(raw@) ==> (r matches Err(IngestError::Parse(m)) && "invalid DOCX archive: "@.is_prefix_of(
            m@,
        )),
        zip_opens(raw@) && !zip_entry_found(raw@, "word/document.xml"@) ==> (r matches Err(
            IngestError::Parse(m),
        ) && "DOCX missing word/document.xml: "@.is_prefix_of(m@)),
        zip_opens(raw@) && zip_entry_found(raw@, "word/document.xml"@) && zip_entry(
            raw@,
            "word/document.xml"@,
        ) is None ==> (r matches Err(IngestError::Parse(m))
            && "failed reading word/document.xml from DOCX: "@.is_prefix_of(m@)),
        zip_opens(raw@) && zip_entry(raw@, "word/document.xml"@) is Some && !valid_utf8(
            zip_entry(raw@, "word/document.xml"@).unwrap(),
        ) ==> (r matches Err(IngestError::Parse(m)) && "word/document.xml is not valid UTF-8: "@.is_prefix_of(
            m@,
        )),
        !docx_body_readable(raw@) ==> r matches Err(IngestError::Parse(_)),
        docx_body_readable(raw@) && !group_fits(
            paragraphs_spec(decode_utf8(zip_entry(raw@, "word/document.xml"@).unwrap())),
        ) ==> r matches Err(IngestError::Parse(_)),
        docx_body_readable(raw@) && group_fits(
            paragraphs_spec(decode_utf8(zip_entry(raw@, "word/document.xml"@).unwrap())),
        ) ==> (r matches Ok((title, secs)) && crate::ingest::parsers::markdown::opt_string_view(
            title,
        ) == docx_spec(raw@).0 && parsed_sections_view(secs@) == docx_spec(raw@).1),
{
    match open_archive(raw) {
        Ok(()) => {},
        Err(e) => return Err(IngestError::Parse(with_prefix("invalid DOCX archive: ", e.to_string()))),
    }
    let core_title = read_core_title(raw);
    let bytes = match read_entry(raw, "word/document.xml") {
        Ok(b) => b,
        Err(EntryError::Missing(d)) => {
            return Err(IngestError::Parse(with_prefix("DOCX missing word/document.xml: ", d)));
        },
        Err(EntryError::Unreadable(d)) => {
            return Err(IngestError::Parse(with_prefix("failed reading word/document.xml from DOCX: ", d)));
        },
    };
    let xml = match utf8_chars(bytes.as_slice()) {
        Ok(x) => x,
        Err(e) => {
            return Err(IngestError::Parse(with_prefix("word/document.xml is not valid UTF-8: ", e.to_string())));
        },
    };
    let paragraphs = extract_paragraphs(&xml);
    match group_into_sections(&paragraphs, core_title) {
        Some((title, sections)) => {
            let t = match title {
                Some(tv) => Some(string_of(&tv)),
                None => None,
            };
            Ok((t, sections))
        },
        None => Err(IngestError::Parse(String::from_str("DOCX text too large"))),
    }
}

} // verus!
