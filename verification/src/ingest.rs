//! File identification, parsing, chunking and content hashing: bytes in,
//! an [`IngestedFile`] out, with no database or network access.
use vstd::prelude::*;
use vstd::string::StringSliceAdditionalSpecFns;
use vstd::utf8::encode_utf8;

pub mod chunker;
pub mod error;
pub mod hash;
pub mod parsers;

use chunker::{chunk_sections_from, drafts_view, sections_fit, ChunkConfig, ChunkDraft, DraftSpec};
use error::IngestError;
use parsers::markdown::opt_string_view;
use parsers::{
    is_binary_kind, mime_spec, opt_extracted_view, parse_spec, ExtractedSpec, FileKind,
};

verus! {

/// Bumped when parsing or chunking changes in a way that should trigger
/// re-ingestion of previously indexed files.
pub const PARSER_VERSION: &'static str = "0.1.0";

/// A parsed, chunked and hashed file.
pub struct IngestedFile {
    pub kind: FileKind,
    pub mime_type: &'static str,
    pub title: Option<String>,
    pub content_hash: String,
    pub text: String,
    pub chunks: Vec<ChunkDraft>,
    pub parser_version: &'static str,
}

/// An ingested file as the specification sees it.
pub struct IngestSpec {
    pub kind: FileKind,
    pub mime_type: Seq<char>,
    pub title: Option<Seq<char>>,
    pub content_hash: Seq<char>,
    pub text: Seq<char>,
    pub chunks: Seq<DraftSpec>,
    pub parser_version: Seq<char>,
}

pub open spec fn ingested_view(f: IngestedFile) -> IngestSpec {
    IngestSpec {
        kind: f.kind,
        mime_type: f.mime_type@,
        title: opt_string_view(f.title),
        content_hash: f.content_hash@,
        text: f.text@,
        chunks: drafts_view(f.chunks@),
        parser_version: f.parser_version@,
    }
}

/// What ingesting bytes `raw` of kind `kind` yields, or `None` where it
/// fails: the parse (see [`parsers::parse_spec`]), the chunks of its
/// sections, the MIME type of the kind, and the hash of the raw bytes. A
/// PDF is parsed from what the text extractor gave for it (`pdf`).
pub open spec fn ingest_spec(
    kind: FileKind,
    raw: Seq<u8>,
    pdf: Option<ExtractedSpec>,
    target: int,
    min: int,
) -> Option<IngestSpec> {
    match parse_spec(kind, raw, pdf) {
        Some(p) => if sections_fit(p.sections) {
            Some(
                IngestSpec {
                    kind,
                    mime_type: mime_spec(kind),
                    title: p.title,
                    content_hash: hash::hex_lower(hash::sha256(raw)),
                    text: p.text,
                    chunks: chunk_sections_from(p.sections, 0, target, min),
                    parser_version: "0.1.0"@,
                },
            )
        } else {
            None
        },
        None => None,
    }
}

/// Whether every section's offsets fit, checked.
fn check_sections_fit(secs: &Vec<parsers::ParsedSection>) -> (b: bool)
    ensures
        b == sections_fit(parsers::parsed_sections_view(secs@)),
{
    let ghost sv = parsers::parsed_sections_view(secs@);
    let mut k: usize = 0;
    while k < secs.len()
        invariant
            k <= secs.len(),
            sv == parsers::parsed_sections_view(secs@),
            sv.len() == secs@.len(),
            forall|m: int| 0 <= m < k ==> #[trigger] sv[m].2 + crate::text::byte_len(sv[m].1) <= usize::MAX,
        decreases secs.len() - k,
    {
        let t = crate::text::chars_of(secs[k].text.as_str());
        let start = secs[k].start_offset;
        proof {
            assert(sv[k as int] == parsers::parsed_section_view(secs@[k as int]));
            assert(t@.subrange(0, t@.len() as int) == t@);
            assert(sv[k as int].1 == t@);
            assert(sv[k as int].2 == start as int);
        }
        match crate::text::checked_window_byte_len(&t, 0, t.len()) {
            Some(n) => {
                if n > usize::MAX - start {
                    proof {
                        assert(!(sv[k as int].2 + crate::text::byte_len(sv[k as int].1) <= usize::MAX));
                    }
                    return false;
                }
            },
            None => {
                proof {
                    assert(!(sv[k as int].2 + crate::text::byte_len(sv[k as int].1) <= usize::MAX));
                }
                return false;
            },
        }
        k += 1;
    }
    true
}

/// Parse, chunk and hash in-memory content of the given kind. Text-based
/// formats (plain text, Markdown, HTML) must be valid UTF-8; DOCX is parsed
/// from bytes; a PDF from what the text extractor gave for `raw` (`pdf`,
/// which a PDF needs).
pub fn ingest_bytes_with_config(
    kind: FileKind,
    raw: &[u8],
    pdf: Option<parsers::pdf::Extracted>,
    config: &ChunkConfig,
) -> (r: Result<IngestedFile, IngestError>)
    requires
        kind == FileKind::Pdf ==> pdf is Some,
    ensures
        ingest_spec(kind, raw@, opt_extracted_view(pdf), config.target_chars as int, config.min_chars as int)
            matches Some(v) ==> (r matches Ok(f) && ingested_view(f) == v),
        ingest_spec(kind, raw@, opt_extracted_view(pdf), config.target_chars as int, config.min_chars as int)
            is None ==> (r matches Err(IngestError::Parse(_))),
{
    let parsed = parsers::parse(kind, raw, pdf)?;
    if !check_sections_fit(&parsed.sections) {
        return Err(IngestError::Parse(String::from_str("document too large for its offsets")));
    }
    let chunks = chunker::chunk_parsed_file(&parsed, config);
    let content_hash = hash::content_hash(raw);
    proof {
        reveal_strlit("0.1.0");
    }
    let parsers::ParsedFile { title, text, .. } = parsed;
    Ok(
        IngestedFile {
            kind,
            mime_type: parsers::mime_type(kind),
            title,
            content_hash,
            text,
            chunks,
            parser_version: PARSER_VERSION,
        },
    )
}

/// The message refusing a binary kind given as a string.
pub open spec fn binary_kind_message(kind: FileKind) -> Seq<char> {
    (if kind == FileKind::Pdf {
        "Pdf"@
    } else {
        "Docx"@
    }) + " is a binary format; use ingest_bytes_with_config instead of ingest_str_with_config"@
}

/// Parse and chunk a UTF-8 string of a text-based kind (plain text,
/// Markdown, HTML). Binary kinds (PDF, DOCX) have no meaningful string
/// form and are refused with `UnsupportedType`.
pub fn ingest_str_with_config(kind: FileKind, raw: &str, config: &ChunkConfig) -> (r: Result<
    IngestedFile,
    IngestError,
>)
    ensures
        is_binary_kind(kind) ==> (r matches Err(IngestError::UnsupportedType(m)) && m@
            == binary_kind_message(kind)),
        !is_binary_kind(kind) ==> (ingest_spec(
            kind,
            encode_utf8(raw@),
            None,
            config.target_chars as int,
            config.min_chars as int,
        ) matches Some(v) ==> (r matches Ok(f) && ingested_view(f) == v)),
        !is_binary_kind(kind) ==> (ingest_spec(
            kind,
            encode_utf8(raw@),
            None,
            config.target_chars as int,
            config.min_chars as int,
        ) is None ==> (r matches Err(IngestError::Parse(_)))),
{
    if parsers::is_binary(kind) {
        let mut msg = if kind == FileKind::Pdf {
            String::from_str("Pdf")
        } else {
            String::from_str("Docx")
        };
        msg.append(" is a binary format; use ingest_bytes_with_config instead of ingest_str_with_config");
        return Err(IngestError::UnsupportedType(msg));
    }
    let bytes = raw.as_bytes();
    proof {
        assert(bytes@ == raw.spec_bytes());
    }
    ingest_bytes_with_config(kind, bytes, None, config)
}

/// Ingesting a string of a text-based kind is ingesting its UTF-8 bytes:
/// for plain text, Markdown and HTML the outcome does not depend on any
/// PDF extraction, so [`ingest_str_with_config`] on `s` and
/// [`ingest_bytes_with_config`] on `s`'s bytes (whatever `pdf` is given)
/// state the same outcome.
pub proof fn lemma_str_ingest_is_byte_ingest(
    kind: FileKind,
    s: Seq<char>,
    pdf: Option<ExtractedSpec>,
    target: int,
    min: int,
)
    requires
        !is_binary_kind(kind),
    ensures
        ingest_spec(kind, encode_utf8(s), pdf, target, min) == ingest_spec(kind, encode_utf8(s), None, target, min),
{
}

} // verus!
