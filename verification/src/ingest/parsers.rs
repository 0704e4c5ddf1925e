//! Parsers for the supported file kinds, and the dispatch over them.
use vstd::prelude::*;
use vstd::utf8::{decode_utf8, valid_utf8};

pub mod docx;
pub mod html;
pub mod markdown;
pub mod pdf;
pub mod txt;

use crate::ingest::error::IngestError;
use crate::text::{
    byte_len, chars_of, eq_lit, join, join_exec, lemma_byte_len_concat, lemma_decoded_byte_len, lowercase, string_of,
    to_lowercase, utf8_chars,
};
use markdown::{opt_chars_view, opt_string_view, SectionView};

verus! {

/// File formats this crate knows how to parse.
#[derive(Debug, Clone, Copy, PartialEq, Eq, Structural)]
pub enum FileKind {
    Text,
    Markdown,
    Html,
    Pdf,
    Docx,
}

/// Whether `kind` is a binary container format (parsed from bytes) rather
/// than UTF-8 text.
pub open spec fn is_binary_kind(kind: FileKind) -> bool {
    kind == FileKind::Pdf || kind == FileKind::Docx
}

/// Whether `kind` is a binary container format (parsed from bytes) rather
/// than UTF-8 text.
pub fn is_binary(kind: FileKind) -> (b: bool)
    ensures
        b == is_binary_kind(kind),
{
    match kind {
        FileKind::Pdf | FileKind::Docx => true,
        _ => false,
    }
}

/// What `std::path::Path::extension` gives for the path `path`, as UTF-8
/// characters (`None` when there is no extension or it is not UTF-8).
pub uninterp spec fn path_extension(path: Seq<char>) -> Option<Seq<char>>;

/// Calls `Path::new(path).extension()` and `OsStr::to_str`: the part of
/// the file name after its last `.`, if the name has an embedded `.`. The
/// result is named (`path_extension`) as a function of the path alone.
#[verifier::external_body]
fn extension_of(path: &str) -> (r: Option<Vec<char>>)
    ensures
        opt_chars_view(r) == path_extension(path@),
{
    std::path::Path::new(path).extension().and_then(|e| e.to_str()).map(|e| e.chars().collect())
}

/// The kind a (lowercased) extension names.
pub open spec fn kind_of_extension(e: Seq<char>) -> Option<FileKind> {
    if e == "txt"@ || e == "text"@ || e == "log"@ {
        Some(FileKind::Text)
    } else if e == "md"@ || e == "markdown"@ {
        Some(FileKind::Markdown)
    } else if e == "html"@ || e == "htm"@ {
        Some(FileKind::Html)
    } else if e == "pdf"@ {
        Some(FileKind::Pdf)
    } else if e == "docx"@ {
        Some(FileKind::Docx)
    } else {
        None
    }
}

/// The extensions this crate reads, as a table: `txt`, `text` and `log`
/// are plain text; `md` and `markdown` are Markdown; `html` and `htm` are
/// HTML; `pdf` is PDF; `docx` is DOCX. Extensions are compared after
/// lowercasing, so any case of these names gives the same kind. No other
/// extension names a kind.
pub proof fn lemma_extension_table(path: Seq<char>)
    ensures
        lower_extension(path) == "txt"@ ==> kind_of_extension(lower_extension(path)) == Some(FileKind::Text),
        lower_extension(path) == "text"@ ==> kind_of_extension(lower_extension(path)) == Some(FileKind::Text),
        lower_extension(path) == "log"@ ==> kind_of_extension(lower_extension(path)) == Some(FileKind::Text),
        lower_extension(path) == "md"@ ==> kind_of_extension(lower_extension(path)) == Some(FileKind::Markdown),
        lower_extension(path) == "markdown"@ ==> kind_of_extension(lower_extension(path)) == Some(
            FileKind::Markdown,
        ),
        lower_extension(path) == "html"@ ==> kind_of_extension(lower_extension(path)) == Some(FileKind::Html),
        lower_extension(path) == "htm"@ ==> kind_of_extension(lower_extension(path)) == Some(FileKind::Html),
        lower_extension(path) == "pdf"@ ==> kind_of_extension(lower_extension(path)) == Some(FileKind::Pdf),
        lower_extension(path) == "docx"@ ==> kind_of_extension(lower_extension(path)) == Some(FileKind::Docx),
        kind_of_extension(lower_extension(path)) is Some ==> seq![
            "txt"@,
            "text"@,
            "log"@,
            "md"@,
            "markdown"@,
            "html"@,
            "htm"@,
            "pdf"@,
            "docx"@,
        ].contains(lower_extension(path)),
{
    reveal_strlit("txt");
    reveal_strlit("text");
    reveal_strlit("log");
    reveal_strlit("md");
    reveal_strlit("markdown");
    reveal_strlit("html");
    reveal_strlit("htm");
    reveal_strlit("pdf");
    reveal_strlit("docx");
    let lits = seq!["txt"@, "text"@, "log"@, "md"@, "markdown"@, "html"@, "htm"@, "pdf"@, "docx"@];
    assert forall|a: int, b: int| 0 <= a < b < 9 implies lits[a] != lits[b] by {
        assert(lits[a].len() != lits[b].len() || lits[a][0] != lits[b][0] || lits[a][1] != lits[b][1]
            || lits[a][2] != lits[b][2]);
    }
    assert(kind_of_extension("md"@) == Some(FileKind::Markdown)) by {
        assert(lits[3] != lits[0] && lits[3] != lits[1] && lits[3] != lits[2]);
    }
    assert(kind_of_extension("markdown"@) == Some(FileKind::Markdown)) by {
        assert(lits[4] != lits[0] && lits[4] != lits[1] && lits[4] != lits[2]);
    }
    assert(kind_of_extension("html"@) == Some(FileKind::Html)) by {
        assert(lits[5] != lits[0] && lits[5] != lits[1] && lits[5] != lits[2] && lits[5] != lits[3] && lits[5]
            != lits[4]);
    }
    assert(kind_of_extension("htm"@) == Some(FileKind::Html)) by {
        assert(lits[6] != lits[0] && lits[6] != lits[1] && lits[6] != lits[2] && lits[6] != lits[3] && lits[6]
            != lits[4]);
    }
    assert(kind_of_extension("pdf"@) == Some(FileKind::Pdf)) by {
        assert(forall|a: int| 0 <= a < 7 ==> lits[7] != #[trigger] lits[a]);
    }
    assert(kind_of_extension("docx"@) == Some(FileKind::Docx)) by {
        assert(forall|a: int| 0 <= a < 8 ==> lits[8] != #[trigger] lits[a]);
    }
    let e = lower_extension(path);
    if kind_of_extension(e) is Some {
        if e == "txt"@ {
            assert(lits[0] == e);
        } else if e == "text"@ {
            assert(lits[1] == e);
        } else if e == "log"@ {
            assert(lits[2] == e);
        } else if e == "md"@ {
            assert(lits[3] == e);
        } else if e == "markdown"@ {
            assert(lits[4] == e);
        } else if e == "html"@ {
            assert(lits[5] == e);
        } else if e == "htm"@ {
            assert(lits[6] == e);
        } else if e == "pdf"@ {
            assert(lits[7] == e);
        } else {
            assert(lits[8] == e);
        }
    }
}

/// The lowercased extension of `path` (empty when it has none).
pub open spec fn lower_extension(path: Seq<char>) -> Seq<char> {
    lowercase(
        match path_extension(path) {
            Some(e) => e,
            None => seq![],
        },
    )
}

/// The kind of file at `path`, by its (case-insensitive) extension; an
/// unknown extension is `UnsupportedType` carrying the lowercased
/// extension.
pub fn identify(path: &str) -> (r: Result<FileKind, IngestError>)
    ensures
        kind_of_extension(lower_extension(path@)) matches Some(k) ==> r == Ok::<
            FileKind,
            IngestError,
        >(k),
        kind_of_extension(lower_extension(path@)) is None ==> (r matches Err(
            IngestError::UnsupportedType(m),
        ) && m@ == lower_extension(path@)),
{
    let ext = match extension_of(path) {
        Some(e) => e,
        None => Vec::new(),
    };
    proof {
        assert(ext@ == (match path_extension(path@) {
            Some(e) => e,
            None => Seq::<char>::empty(),
        }));
    }
    let lower = to_lowercase(&ext);
    if eq_lit(&lower, "txt") || eq_lit(&lower, "text") || eq_lit(&lower, "log") {
        Ok(FileKind::Text)
    } else if eq_lit(&lower, "md") || eq_lit(&lower, "markdown") {
        Ok(FileKind::Markdown)
    } else if eq_lit(&lower, "html") || eq_lit(&lower, "htm") {
        Ok(FileKind::Html)
    } else if eq_lit(&lower, "pdf") {
        Ok(FileKind::Pdf)
    } else if eq_lit(&lower, "docx") {
        Ok(FileKind::Docx)
    } else {
        Err(IngestError::UnsupportedType(string_of(&lower)))
    }
}

/// The MIME type of each kind.
pub open spec fn mime_spec(kind: FileKind) -> Seq<char> {
    match kind {
        FileKind::Text => "text/plain"@,
        FileKind::Markdown => "text/markdown"@,
        FileKind::Html => "text/html"@,
        FileKind::Pdf => "application/pdf"@,
        FileKind::Docx => "application/vnd.openxmlformats-officedocument.wordprocessingml.document"@,
    }
}

/// The MIME type of `kind`.
pub fn mime_type(kind: FileKind) -> (m: &'static str)
    ensures
        m@ == mime_spec(kind),
{
    match kind {
        FileKind::Text => "text/plain",
        FileKind::Markdown => "text/markdown",
        FileKind::Html => "text/html",
        FileKind::Pdf => "application/pdf",
        FileKind::Docx => "application/vnd.openxmlformats-officedocument.wordprocessingml.document",
    }
}

/// A natural section of a parsed document: an optional heading, the
/// section's text, its byte offset within the document's reconstructed
/// text, and (for paginated formats like PDF) its 1-based page.
#[derive(Debug, Clone)]
pub struct ParsedSection {
    pub heading: Option<String>,
    pub text: String,
    pub start_offset: usize,
    pub page: Option<u32>,
}

/// A parsed section as the specification sees it.
pub type SectionSpec = (Option<Seq<char>>, Seq<char>, int, Option<u32>);

pub open spec fn parsed_section_view(s: ParsedSection) -> SectionSpec {
    (opt_string_view(s.heading), s.text@, s.start_offset as int, s.page)
}

pub open spec fn parsed_sections_view(v: Seq<ParsedSection>) -> Seq<SectionSpec> {
    v.map_values(|s: ParsedSection| parsed_section_view(s))
}

/// The result of parsing a raw file into plain, indexable text plus the
/// section structure the format provided.
pub struct ParsedFile {
    pub kind: FileKind,
    pub title: Option<String>,
    pub text: String,
    /// Markdown headings, DOCX heading-styled paragraphs, PDF pages, or a
    /// single unnamed section for formats without structure.
    pub sections: Vec<ParsedSection>,
}

/// A parsed file as the specification sees it.
pub struct ParsedSpec {
    pub kind: FileKind,
    pub title: Option<Seq<char>>,
    pub text: Seq<char>,
    pub sections: Seq<SectionSpec>,
}

pub open spec fn parsed_file_view(p: ParsedFile) -> ParsedSpec {
    ParsedSpec {
        kind: p.kind,
        title: opt_string_view(p.title),
        text: p.text@,
        sections: parsed_sections_view(p.sections@),
    }
}

/// The texts of the sections.
pub open spec fn section_texts(secs: Seq<SectionSpec>) -> Seq<Seq<char>> {
    secs.map_values(|s: SectionSpec| s.1)
}

/// The single unnamed section covering `text`.
pub open spec fn single_section_spec(text: Seq<char>) -> SectionSpec {
    (None, text, 0, None)
}

/// Markdown sections `k..` placed in the text their texts make when joined
/// by `"\n"`, the one before `k` having ended at `offset`: each starts
/// where the previous one ended plus the one-byte joiner.
pub open spec fn md_sections_from(ms: Seq<SectionView>, k: int, offset: int) -> Seq<SectionSpec>
    decreases ms.len() - k,
{
    if k < 0 || k >= ms.len() {
        seq![]
    } else {
        seq![(ms[k].0, ms[k].1, offset, None)] + md_sections_from(ms, k + 1, offset + byte_len(ms[k].1) + 1)
    }
}

/// Whether every running offset of [`md_sections_from`] fits in a `usize`.
pub open spec fn md_offsets_fit(ms: Seq<SectionView>, k: int, offset: int) -> bool
    decreases ms.len() - k,
{
    if k < 0 || k >= ms.len() {
        true
    } else {
        let next = offset + byte_len(ms[k].1) + 1;
        next <= usize::MAX && md_offsets_fit(ms, k + 1, next)
    }
}

/// Each section starts, in bytes, right after the previous section's text
/// and a separator of `sep_bytes` bytes; the first starts at 0.
pub open spec fn offsets_chain(secs: Seq<SectionSpec>, sep_bytes: int) -> bool {
    &&& secs.len() > 0 ==> secs[0].2 == 0
    &&& forall|k: int|
        1 <= k < secs.len() ==> #[trigger] secs[k].2 == secs[k - 1].2 + byte_len(secs[k - 1].1) + sep_bytes
}

/// What precedes section `k`'s text in the sections' texts joined by
/// `sep`: nothing for the first, else the first `k` texts joined, and a
/// separator.
pub open spec fn text_before(secs: Seq<SectionSpec>, sep: Seq<char>, k: int) -> Seq<char> {
    if k <= 0 {
        seq![]
    } else {
        join(section_texts(secs).take(k), sep) + sep
    }
}

proof fn lemma_join_take_prefix(parts: Seq<Seq<char>>, sep: Seq<char>, m: int)
    requires
        1 <= m <= parts.len(),
    ensures
        join(parts.take(m), sep).is_prefix_of(join(parts, sep)),
    decreases parts.len() - m,
{
    if m == parts.len() {
        assert(parts.take(m) =~= parts);
    } else {
        lemma_join_take_prefix(parts, sep, m + 1);
        let a = parts.take(m);
        let b = parts.take(m + 1);
        assert(b.drop_last() =~= a);
        assert(join(b, sep) == join(a, sep) + sep + b.last());
        assert(join(a, sep).is_prefix_of(join(b, sep))) by {
            assert(join(b, sep).subrange(0, join(a, sep).len() as int) =~= join(a, sep));
        }
        let whole = join(parts, sep);
        assert(whole.subrange(0, join(a, sep).len() as int) =~= join(b, sep).subrange(
            0,
            join(a, sep).len() as int,
        ));
    }
}

/// A section's offset is where its text begins in the document's text:
/// when the offsets follow one another as [`offsets_chain`] says, the
/// sections' texts joined by `sep` begin with what precedes section `k`
/// followed by section `k`'s text, and the byte length of what precedes
/// it is its offset.
pub proof fn lemma_offsets_locate_texts(secs: Seq<SectionSpec>, sep: Seq<char>, k: int)
    requires
        offsets_chain(secs, byte_len(sep) as int),
        0 <= k < secs.len(),
    ensures
        secs[k].2 == byte_len(text_before(secs, sep, k)),
        (text_before(secs, sep, k) + secs[k].1).is_prefix_of(join(section_texts(secs), sep)),
    decreases k,
{
    let texts = section_texts(secs);
    assert(texts.len() == secs.len());
    if k == 0 {
        assert(texts.take(1).len() == 1);
        assert(join(texts.take(1), sep) == texts.take(1)[0]);
        assert(seq![] + secs[0].1 =~= join(texts.take(1), sep));
        lemma_join_take_prefix(texts, sep, 1);
    } else {
        lemma_offsets_locate_texts(secs, sep, k - 1);
        let a = texts.take(k);
        let b = texts.take(k + 1);
        assert(b.drop_last() =~= a);
        assert(b.last() == secs[k].1);
        assert(join(b, sep) == join(a, sep) + sep + secs[k].1);
        assert(text_before(secs, sep, k) + secs[k].1 =~= join(b, sep));
        if k == 1 {
            assert(texts.take(1).len() == 1);
            assert(join(a, sep) == secs[0].1);
            lemma_byte_len_concat(secs[0].1, sep);
            assert(secs[1].2 == secs[0].2 + byte_len(secs[0].1) + byte_len(sep));
        } else {
            let c = texts.take(k - 1);
            assert(a.drop_last() =~= c);
            assert(a.last() == secs[k - 1].1);
            assert(join(a, sep) == join(c, sep) + sep + secs[k - 1].1);
            lemma_byte_len_concat(join(c, sep), sep);
            lemma_byte_len_concat(join(c, sep) + sep, secs[k - 1].1);
            lemma_byte_len_concat(join(a, sep), sep);
            assert(text_before(secs, sep, k - 1) == join(c, sep) + sep);
        }
        lemma_join_take_prefix(texts, sep, k + 1);
    }
}

/// Markdown offsets follow one another with the one-byte `"\n"` joiner.
pub proof fn lemma_md_offsets_chain(ms: Seq<SectionView>)
    ensures
        offsets_chain(md_sections_from(ms, 0, 0), 1),
{
    lemma_md_sections_from(ms, 0, 0);
}

proof fn lemma_md_sections_from(ms: Seq<SectionView>, j: int, off: int)
    requires
        0 <= j <= ms.len(),
    ensures
        md_sections_from(ms, j, off).len() == ms.len() - j,
        md_sections_from(ms, j, off).len() > 0 ==> md_sections_from(ms, j, off)[0].2 == off,
        forall|i: int|
            0 <= i < ms.len() - j ==> (#[trigger] md_sections_from(ms, j, off)[i]).1 == ms[j + i].1,
        md_sections_from(ms, j, off).len() > 0 ==> (forall|k: int|
            1 <= k < md_sections_from(ms, j, off).len() ==> #[trigger] md_sections_from(ms, j, off)[k].2
                == md_sections_from(ms, j, off)[k - 1].2 + byte_len(md_sections_from(ms, j, off)[k - 1].1) + 1),
    decreases ms.len() - j,
{
    if j < ms.len() {
        let next = off + byte_len(ms[j].1) + 1;
        lemma_md_sections_from(ms, j + 1, next);
        let head = seq![(ms[j].0, ms[j].1, off, None::<u32>)];
        let rest = md_sections_from(ms, j + 1, next);
        let all = md_sections_from(ms, j, off);
        assert(all == head + rest);
        assert forall|i: int| 0 <= i < ms.len() - j implies (#[trigger] all[i]).1 == ms[j + i].1 by {
            if i > 0 {
                assert(all[i] == rest[i - 1]);
                assert(j + 1 + (i - 1) == j + i);
            }
        }
        assert forall|k: int| 1 <= k < all.len() implies #[trigger] all[k].2 == all[k - 1].2 + byte_len(
            all[k - 1].1,
        ) + 1 by {
            assert(all[k] == rest[k - 1]);
            if k == 1 {
                assert(all[0] == head[0]);
            } else {
                assert(all[k - 1] == rest[k - 2]);
                assert(rest[k - 1].2 == rest[k - 2].2 + byte_len(rest[k - 2].1) + 1);
            }
        }
    }
}

/// The separator between the section texts in a parsed file's text.
pub open spec fn section_separator(kind: FileKind) -> Seq<char> {
    if kind == FileKind::Pdf {
        seq!['\n', '\n']
    } else {
        seq!['\n']
    }
}

/// In every parsed file, each section's offset is where its text begins
/// in the file's text: the text begins with what precedes the section
/// (the earlier sections' texts, each followed by the separator) and then
/// the section's text, and the byte length of what precedes it is the
/// section's offset.
pub proof fn lemma_parsed_offsets_locate_texts(
    kind: FileKind,
    raw: Seq<u8>,
    pdf: Option<ExtractedSpec>,
    k: int,
)
    requires
        parse_spec(kind, raw, pdf) is Some,
        0 <= k < parse_spec(kind, raw, pdf).unwrap().sections.len(),
    ensures
        ({
            let p = parse_spec(kind, raw, pdf).unwrap();
            let before = text_before(p.sections, section_separator(kind), k);
            &&& p.sections[k].2 == byte_len(before)
            &&& (before + p.sections[k].1).is_prefix_of(p.text)
        }),
{
    let p = parse_spec(kind, raw, pdf).unwrap();
    let sep = section_separator(kind);
    assert(byte_len(seq!['\n']) == 1) by {
        assert(seq!['\n'].drop_last() =~= Seq::<char>::empty());
    }
    assert(byte_len(seq!['\n', '\n']) == 2) by {
        assert(seq!['\n', '\n'].drop_last() =~= seq!['\n']);
        assert(seq!['\n'].drop_last() =~= Seq::<char>::empty());
    }
    match kind {
        FileKind::Text | FileKind::Html => {
            assert(section_texts(p.sections) =~= seq![p.text]);
            assert(join(section_texts(p.sections), sep) == p.text);
        },
        FileKind::Markdown => {
            let ms = markdown::markdown_spec(decode_utf8(raw)).1;
            lemma_md_offsets_chain(ms);
        },
        FileKind::Pdf => {
            if let Some(Ok(pages)) = pdf {
                pdf::lemma_pdf_offsets_chain(pages);
            }
        },
        FileKind::Docx => {
            let xml = decode_utf8(docx::zip_entry(raw, "word/document.xml"@).unwrap());
            docx::lemma_docx_offsets_chain(docx::paragraphs_spec(xml), docx::core_title_spec(raw));
        },
    }
    lemma_offsets_locate_texts(p.sections, sep, k);
}

/// What the PDF text extractor gave, as the specification sees it.
pub type ExtractedSpec = Result<Seq<Seq<char>>, Seq<char>>;

pub open spec fn opt_extracted_view(e: Option<pdf::Extracted>) -> Option<ExtractedSpec> {
    match e {
        Some(x) => Some(pdf::extracted_view(x)),
        None => None,
    }
}

/// A file of kind `kind`, parsed from text `text` with the given title
/// and sections, its text the sections' texts joined by `sep`.
pub open spec fn joined(
    kind: FileKind,
    title: Option<Seq<char>>,
    secs: Seq<SectionSpec>,
    sep: Seq<char>,
) -> ParsedSpec {
    ParsedSpec { kind, title, text: join(section_texts(secs), sep), sections: secs }
}

/// What parsing bytes `raw` as `kind` yields, or `None` where it fails.
/// Text formats must be valid UTF-8; DOCX is read from bytes; a PDF is
/// read from what the text extractor gave for it (`pdf`).
pub open spec fn parse_spec(kind: FileKind, raw: Seq<u8>, pdf: Option<ExtractedSpec>) -> Option<ParsedSpec> {
    match kind {
        FileKind::Text => if valid_utf8(raw) {
            let t = decode_utf8(raw);
            Some(ParsedSpec { kind, title: None, text: t, sections: seq![single_section_spec(t)] })
        } else {
            None
        },
        FileKind::Markdown => if valid_utf8(raw) {
            let (title, ms) = markdown::markdown_spec(decode_utf8(raw));
            if md_offsets_fit(ms, 0, 0) {
                Some(joined(kind, title, md_sections_from(ms, 0, 0), seq!['\n']))
            } else {
                None
            }
        } else {
            None
        },
        FileKind::Html => if valid_utf8(raw) {
            let t = html::html_spec(decode_utf8(raw));
            Some(ParsedSpec { kind, title: None, text: t, sections: seq![single_section_spec(t)] })
        } else {
            None
        },
        FileKind::Pdf => match pdf {
            Some(Ok(pages)) => if pdf::pdf_offsets_fit(pages, 0, 0) {
                Some(joined(kind, None, pdf::pdf_sections(pages), seq!['\n', '\n']))
            } else {
                None
            },
            _ => None,
        },
        FileKind::Docx => if docx::docx_body_readable(raw) && docx::group_fits(
            docx::paragraphs_spec(decode_utf8(docx::zip_entry(raw, "word/document.xml"@).unwrap())),
        ) {
            let (title, secs) = docx::docx_spec(raw);
            Some(joined(kind, title, secs, seq!['\n']))
        } else {
            None
        },
    }
}

/// The single unnamed section covering `text`.
fn single_section(text: String) -> (s: ParsedSection)
    ensures
        parsed_section_view(s) == single_section_spec(text@),
{
    ParsedSection { heading: None, text, start_offset: 0, page: None }
}

/// The characters of UTF-8 bytes, or a parse error.
fn to_utf8(raw: &[u8]) -> (r: Result<Vec<char>, IngestError>)
    ensures
        valid_utf8(raw@) ==> (r matches Ok(v) && v@ == decode_utf8(raw@)),
        !valid_utf8(raw@) ==> (r matches Err(IngestError::Parse(m)) && "invalid UTF-8: "@.is_prefix_of(
            m@,
        )),
{
    proof {
        reveal_strlit("invalid UTF-8: ");
    }
    match utf8_chars(raw) {
        Ok(v) => Ok(v),
        Err(e) => {
            let mut msg = String::from_str("invalid UTF-8: ");
            let ghost prefix = msg@;
            let detail = e.to_string();
            msg.append(detail.as_str());
            assert(msg@.subrange(0, prefix.len() as int) =~= prefix);
            Err(IngestError::Parse(msg))
        },
    }
}

/// The sections' texts joined by `sep`.
fn join_sections(secs: &Vec<ParsedSection>, sep: &str) -> (t: String)
    ensures
        t@ == join(section_texts(parsed_sections_view(secs@)), sep@),
{
    let mut parts: Vec<Vec<char>> = Vec::new();
    let mut k: usize = 0;
    while k < secs.len()
        invariant
            k <= secs.len(),
            parts@.map_values(|w: Vec<char>| w@) == section_texts(parsed_sections_view(secs@)).take(
                k as int,
            ),
        decreases secs.len() - k,
    {
        let ghost before = parts@;
        let piece = chars_of(secs[k].text.as_str());
        let ghost pv = piece@;
        parts.push(piece);
        proof {
            assert(parts@ == before.push(piece));
            assert(section_texts(parsed_sections_view(secs@)).len() == secs@.len());
            assert(before.map_values(|w: Vec<char>| w@).len() == before.len());
            assert(before.len() == k);
            let a = parts@.map_values(|w: Vec<char>| w@);
            let b = section_texts(parsed_sections_view(secs@)).take(k + 1);
            let c = section_texts(parsed_sections_view(secs@)).take(k as int);
            assert forall|j: int| 0 <= j < a.len() implies a[j] == b[j] by {
                if j < k {
                    assert(parts@[j] == before[j]);
                    assert(a[j] == before.map_values(|w: Vec<char>| w@)[j]);
                    assert(b[j] == c[j]);
                } else {
                    assert(parts@[j] == piece);
                    assert(a[j] == pv);
                    assert(b[j] == secs@[k as int].text@);
                }
            }
            assert(a =~= b);
        }
        k += 1;
    }
    proof {
        assert(section_texts(parsed_sections_view(secs@)).take(secs@.len() as int) =~= section_texts(
            parsed_sections_view(secs@),
        ));
    }
    let sepv = chars_of(sep);
    string_of(&join_exec(&parts, &sepv))
}

/// Whether `kind` is read as UTF-8 text.
pub open spec fn is_text_kind(kind: FileKind) -> bool {
    kind == FileKind::Text || kind == FileKind::Markdown || kind == FileKind::Html
}

/// Parse raw file bytes of the given `kind`. Text formats (plain text,
/// Markdown, HTML) must be valid UTF-8, else the error's message starts
/// with `"invalid UTF-8"`; DOCX is parsed from bytes; a PDF is parsed from
/// what the text extractor gave for it (`pdf`, which a PDF needs).
pub fn parse(kind: FileKind, raw: &[u8], pdf: Option<pdf::Extracted>) -> (r: Result<ParsedFile, IngestError>)
    requires
        kind == FileKind::Pdf ==> pdf is Some,
    ensures
        parse_spec(kind, raw@, opt_extracted_view(pdf)) matches Some(p) ==> (r matches Ok(f)
            && parsed_file_view(f) == p),
        parse_spec(kind, raw@, opt_extracted_view(pdf)) is None ==> r matches Err(IngestError::Parse(_)),
        is_text_kind(kind) && !valid_utf8(raw@) ==> (r matches Err(IngestError::Parse(m))
            && "invalid UTF-8"@.is_prefix_of(m@)),
{
    proof {
        reveal_strlit("invalid UTF-8");
        reveal_strlit("invalid UTF-8: ");
    }
    let raw_len = raw.len();
    match kind {
        FileKind::Text => {
            let chars = match to_utf8(raw) {
                Ok(c) => c,
                Err(e) => return Err(e),
            };
            let s = string_of(&chars);
            let text = txt::parse(s.as_str())?;
            let section = single_section(String::from_str(text.as_str()));
            let sections = vec![section];
            proof {
                assert(parsed_sections_view(sections@) =~= seq![single_section_spec(text@)]);
            }
            Ok(ParsedFile { kind, title: None, text, sections })
        },
        FileKind::Markdown => {
            let chars = match to_utf8(raw) {
                Ok(c) => c,
                Err(e) => return Err(e),
            };
            proof {
                lemma_decoded_byte_len(raw@);
            }
            let (title, ms) = markdown::parse_chars(&chars);
            let mut sections: Vec<ParsedSection> = Vec::new();
            let mut offset: usize = 0;
            let mut k: usize = 0;
            let ghost msv = markdown::sections_view(ms@);
            while k < ms.len()
                invariant
                    k <= ms.len(),
                    kind == FileKind::Markdown,
                    valid_utf8(raw@),
                    msv == markdown::sections_view(ms@),
                    msv == markdown::markdown_spec(decode_utf8(raw@)).1,
                    parsed_sections_view(sections@) + md_sections_from(msv, k as int, offset as int)
                        == md_sections_from(msv, 0, 0),
                    md_offsets_fit(msv, 0, 0) == md_offsets_fit(msv, k as int, offset as int),
                decreases ms.len() - k,
            {
                let m = &ms[k];
                proof {
                    assert(msv[k as int] == markdown::section_view(ms@[k as int]));
                }
                // The UTF-8 bytes of the text form a slice, so their count is a `usize`.
                let n = m.text.as_str().as_bytes().len();
                proof {
                    crate::text::lemma_byte_len_is_utf8_len(m.text@);
                    assert(n == byte_len(msv[k as int].1));
                }
                if n > usize::MAX - offset || 1 > usize::MAX - offset - n {
                    assert(!md_offsets_fit(msv, k as int, offset as int));
                    return Err(IngestError::Parse(String::from_str("Markdown text too large")));
                }
                let heading = match &m.heading {
                    Some(h) => Some(String::from_str(h.as_str())),
                    None => None,
                };
                let ghost before = sections@;
                let ps = ParsedSection {
                    heading,
                    text: String::from_str(m.text.as_str()),
                    start_offset: offset,
                    page: None,
                };
                sections.push(ps);
                proof {
                    assert(parsed_sections_view(sections@) =~= parsed_sections_view(before).push(
                        (msv[k as int].0, msv[k as int].1, offset as int, None),
                    ));
                    assert(parsed_sections_view(sections@) + md_sections_from(
                        msv,
                        k + 1,
                        offset + n + 1,
                    ) =~= parsed_sections_view(before) + md_sections_from(msv, k as int, offset as int));
                }
                offset = offset + n + 1;
                k += 1;
            }
            proof {
                assert(parsed_sections_view(sections@) =~= parsed_sections_view(sections@) + Seq::<
                    SectionSpec,
                >::empty());
            }
            let text = join_sections(&sections, "\n");
            proof {
                reveal_strlit("\n");
                assert("\n"@ =~= seq!['\n']);
            }
            Ok(ParsedFile { kind, title, text, sections })
        },
        FileKind::Html => {
            let chars = match to_utf8(raw) {
                Ok(c) => c,
                Err(e) => return Err(e),
            };
            let t = html::parse_chars(&chars);
            let text = string_of(&t);
            let section = single_section(string_of(&t));
            let sections = vec![section];
            proof {
                assert(parsed_sections_view(sections@) =~= seq![single_section_spec(text@)]);
            }
            Ok(ParsedFile { kind, title: None, text, sections })
        },
        FileKind::Pdf => {
            let extracted = pdf.unwrap();
            let (title, sections) = pdf::parse(extracted)?;
            let text = join_sections(&sections, "\n\n");
            proof {
                reveal_strlit("\n\n");
                assert("\n\n"@ =~= seq!['\n', '\n']);
            }
            Ok(ParsedFile { kind, title, text, sections })
        },
        FileKind::Docx => {
            let (title, sections) = docx::parse(raw)?;
            let text = join_sections(&sections, "\n");
            proof {
                reveal_strlit("\n");
                assert("\n"@ =~= seq!['\n']);
            }
            Ok(ParsedFile { kind, title, text, sections })
        },
    }
}

} // verus!
