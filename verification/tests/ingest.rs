use std::io::Write;

use mnemo::ingest::chunker::{chunk_parsed_file, ChunkConfig};
use mnemo::ingest::error::IngestError;
use mnemo::ingest::hash::content_hash;
use mnemo::ingest::parsers::{docx, identify, markdown, mime_type, pdf, FileKind};
use mnemo::ingest::{ingest_bytes_with_config, ingest_str_with_config};

const DOC_NS: &str = r#"xmlns:w="http://schemas.openxmlformats.org/wordprocessingml/2006/main""#;

/// A minimal in-memory `.docx`: a ZIP holding `word/document.xml` and,
/// optionally, `docProps/core.xml`.
fn build_test_docx(document_xml: &str, core_xml: Option<&str>) -> Vec<u8> {
    let mut zip_bytes = Vec::new();
    {
        let cursor = std::io::Cursor::new(&mut zip_bytes);
        let mut writer = zip::ZipWriter::new(cursor);
        let options =
            zip::write::SimpleFileOptions::default().compression_method(zip::CompressionMethod::Stored);
        writer.start_file("word/document.xml", options).unwrap();
        writer.write_all(document_xml.as_bytes()).unwrap();
        if let Some(core) = core_xml {
            writer.start_file("docProps/core.xml", options).unwrap();
            writer.write_all(core.as_bytes()).unwrap();
        }
        writer.finish().unwrap();
    }
    zip_bytes
}

fn escape_pdf_text(s: &str) -> String {
    s.replace('\\', "\\\\").replace('(', "\\(").replace(')', "\\)")
}

/// A minimal, valid single-page PDF (uncompressed, exact xref table)
/// showing `page_text` with one `Tj` operator.
fn build_minimal_pdf(page_text: &str) -> Vec<u8> {
    let mut buf: Vec<u8> = Vec::new();
    let mut offsets: Vec<usize> = vec![0];
    buf.extend_from_slice(b"%PDF-1.4\n");
    let push_obj = |buf: &mut Vec<u8>, offsets: &mut Vec<usize>, id: u32, body: &str| {
        offsets.push(buf.len());
        buf.extend_from_slice(format!("{id} 0 obj\n{body}\nendobj\n").as_bytes());
    };
    push_obj(&mut buf, &mut offsets, 1, "<< /Type /Catalog /Pages 2 0 R >>");
    push_obj(&mut buf, &mut offsets, 2, "<< /Type /Pages /Kids [3 0 R] /Count 1 >>");
    push_obj(
        &mut buf,
        &mut offsets,
        3,
        "<< /Type /Page /Parent 2 0 R /Resources << /Font << /F1 4 0 R >> >> \
         /MediaBox [0 0 612 792] /Contents 5 0 R >>",
    );
    push_obj(&mut buf, &mut offsets, 4, "<< /Type /Font /Subtype /Type1 /BaseFont /Helvetica >>");
    let escaped = escape_pdf_text(page_text);
    let stream_content = format!("BT /F1 24 Tf 72 700 Td ({escaped}) Tj ET");
    let stream_obj = format!("<< /Length {} >>\nstream\n{stream_content}\nendstream", stream_content.len() + 1);
    push_obj(&mut buf, &mut offsets, 5, &stream_obj);
    let xref_offset = buf.len();
    let object_count = offsets.len();
    buf.extend_from_slice(format!("xref\n0 {object_count}\n").as_bytes());
    buf.extend_from_slice(b"0000000000 65535 f \n");
    for &off in &offsets[1..] {
        buf.extend_from_slice(format!("{off:010} 00000 n \n").as_bytes());
    }
    buf.extend_from_slice(
        format!("trailer\n<< /Size {object_count} /Root 1 0 R >>\nstartxref\n{xref_offset}\n%%EOF").as_bytes(),
    );
    buf
}

/// What the PDF text extractor gives for `bytes`.
fn extract_pages(bytes: &[u8]) -> pdf::Extracted {
    pdf_extract::extract_text_from_mem_by_pages(bytes).map_err(|e| e.to_string())
}

#[test]
fn identify_recognizes_pdf_and_docx_extensions() {
    assert_eq!(identify("report.pdf").unwrap(), FileKind::Pdf);
    assert_eq!(identify("report.PDF").unwrap(), FileKind::Pdf);
    assert_eq!(identify("memo.docx").unwrap(), FileKind::Docx);
}

#[test]
fn ingest_bytes_end_to_end_for_pdf_produces_paged_chunks() {
    let bytes = build_minimal_pdf("The quarterly report shows steady growth across all regions.");
    let ingested =
        ingest_bytes_with_config(FileKind::Pdf, &bytes, Some(extract_pages(&bytes)), &ChunkConfig::default())
            .unwrap();
    assert_eq!(ingested.kind, FileKind::Pdf);
    assert_eq!(ingested.mime_type, "application/pdf");
    assert!(!ingested.chunks.is_empty());
    assert_eq!(ingested.chunks[0].page, Some(1));
    assert!(ingested.chunks[0].text.contains("quarterly report"));
    assert_eq!(ingested.content_hash, content_hash(&bytes));
}

#[test]
fn ingest_bytes_end_to_end_for_docx_produces_headed_chunks() {
    let xml = format!(
        r#"<w:document {DOC_NS}><w:body>
            <w:p><w:pPr><w:pStyle w:val="Title"/></w:pPr><w:r><w:t>Quarterly Report</w:t></w:r></w:p>
            <w:p><w:r><w:t>Revenue grew steadily this quarter across all regions.</w:t></w:r></w:p>
        </w:body></w:document>"#
    );
    let bytes = build_test_docx(&xml, None);
    let ingested = ingest_bytes_with_config(FileKind::Docx, &bytes, None, &ChunkConfig::default()).unwrap();
    assert_eq!(ingested.kind, FileKind::Docx);
    assert_eq!(ingested.title.as_deref(), Some("Quarterly Report"));
    assert!(!ingested.chunks.is_empty());
    assert_eq!(ingested.chunks[0].section.as_deref(), Some("Quarterly Report"));
    assert!(ingested.chunks[0].text.contains("Revenue grew steadily"));
}

#[test]
fn ingest_str_with_config_rejects_binary_kinds() {
    let result = ingest_str_with_config(FileKind::Pdf, "not real pdf bytes", &ChunkConfig::default());
    assert!(matches!(result, Err(IngestError::UnsupportedType(_))));
}

#[test]
fn ingest_str_with_config_still_works_for_plain_text() {
    let ingested = ingest_str_with_config(FileKind::Text, "Hello, world.", &ChunkConfig::default()).unwrap();
    assert_eq!(ingested.chunks.len(), 1);
    assert_eq!(ingested.chunks[0].text, "Hello, world.");
}

#[test]
fn extracts_plain_paragraphs_with_no_headings() {
    let xml = format!(
        r#"<w:document {DOC_NS}><w:body>
            <w:p><w:r><w:t>First paragraph.</w:t></w:r></w:p>
            <w:p><w:r><w:t>Second paragraph.</w:t></w:r></w:p>
        </w:body></w:document>"#
    );
    let bytes = build_test_docx(&xml, None);
    let (title, sections) = docx::parse(&bytes).unwrap();
    assert_eq!(title, None);
    assert_eq!(sections.len(), 1);
    assert!(sections[0].heading.is_none());
    assert!(sections[0].text.contains("First paragraph."));
    assert!(sections[0].text.contains("Second paragraph."));
}

#[test]
fn heading_styled_paragraph_starts_a_new_section() {
    let xml = format!(
        r#"<w:document {DOC_NS}><w:body>
            <w:p><w:pPr><w:pStyle w:val="Heading1"/></w:pPr><w:r><w:t>Intro</w:t></w:r></w:p>
            <w:p><w:r><w:t>Intro body text.</w:t></w:r></w:p>
            <w:p><w:pPr><w:pStyle w:val="Heading1"/></w:pPr><w:r><w:t>Details</w:t></w:r></w:p>
            <w:p><w:r><w:t>Details body text.</w:t></w:r></w:p>
        </w:body></w:document>"#
    );
    let bytes = build_test_docx(&xml, None);
    let (_, sections) = docx::parse(&bytes).unwrap();
    assert_eq!(sections.len(), 2);
    assert_eq!(sections[0].heading.as_deref(), Some("Intro"));
    assert!(sections[0].text.contains("Intro body text."));
    assert_eq!(sections[1].heading.as_deref(), Some("Details"));
    assert!(sections[1].text.contains("Details body text."));
}

#[test]
fn title_style_paragraph_sets_document_title() {
    let xml = format!(
        r#"<w:document {DOC_NS}><w:body>
            <w:p><w:pPr><w:pStyle w:val="Title"/></w:pPr><w:r><w:t>My Document</w:t></w:r></w:p>
            <w:p><w:r><w:t>Body text.</w:t></w:r></w:p>
        </w:body></w:document>"#
    );
    let bytes = build_test_docx(&xml, None);
    let (title, sections) = docx::parse(&bytes).unwrap();
    assert_eq!(title.as_deref(), Some("My Document"));
    assert_eq!(sections[0].heading.as_deref(), Some("My Document"));
}

#[test]
fn core_properties_title_takes_priority_over_title_style() {
    let xml = format!(
        r#"<w:document {DOC_NS}><w:body>
            <w:p><w:r><w:t>Body text.</w:t></w:r></w:p>
        </w:body></w:document>"#
    );
    let core = r#"<cp:coreProperties xmlns:dc="http://purl.org/dc/elements/1.1/"><dc:title>Core Title</dc:title></cp:coreProperties>"#;
    let bytes = build_test_docx(&xml, Some(core));
    let (title, _) = docx::parse(&bytes).unwrap();
    assert_eq!(title.as_deref(), Some("Core Title"));
}

#[test]
fn tab_and_line_break_runs_become_whitespace() {
    let xml = format!(
        r#"<w:document {DOC_NS}><w:body>
            <w:p><w:r><w:t>Col1</w:t></w:r><w:r><w:tab/></w:r><w:r><w:t>Col2</w:t></w:r>
            <w:r><w:br/></w:r><w:r><w:t>Next line</w:t></w:r></w:p>
        </w:body></w:document>"#
    );
    let bytes = build_test_docx(&xml, None);
    let (_, sections) = docx::parse(&bytes).unwrap();
    assert!(sections[0].text.contains("Col1\tCol2"));
    assert!(sections[0].text.contains("\nNext line"));
}

#[test]
fn empty_document_yields_one_empty_section() {
    let xml = format!(r#"<w:document {DOC_NS}><w:body></w:body></w:document>"#);
    let bytes = build_test_docx(&xml, None);
    let (title, sections) = docx::parse(&bytes).unwrap();
    assert_eq!(title, None);
    assert_eq!(sections.len(), 1);
    assert!(sections[0].text.is_empty());
}

#[test]
fn xml_entities_in_text_runs_are_decoded() {
    let xml = format!(
        r#"<w:document {DOC_NS}><w:body>
            <w:p><w:r><w:t>Fish &amp; chips &lt;tasty&gt;</w:t></w:r></w:p>
        </w:body></w:document>"#
    );
    let bytes = build_test_docx(&xml, None);
    let (_, sections) = docx::parse(&bytes).unwrap();
    assert!(sections[0].text.contains("Fish & chips <tasty>"));
}

#[test]
fn not_a_zip_archive_produces_a_parse_error() {
    let result = docx::parse(b"definitely not a docx");
    assert!(result.is_err());
}

#[test]
fn extracts_h1_as_title() {
    let (title, _) = markdown::parse("# My Doc\n\nBody text.\n").unwrap();
    assert_eq!(title.as_deref(), Some("My Doc"));
}

#[test]
fn no_heading_yields_single_untitled_section() {
    let (title, sections) = markdown::parse("just some plain body text\nwith two lines\n").unwrap();
    assert_eq!(title, None);
    assert_eq!(sections.len(), 1);
    assert!(sections[0].heading.is_none());
    assert!(sections[0].text.contains("plain body text"));
}

#[test]
fn splits_into_sections_at_each_heading() {
    let raw = "# Title\n\nIntro para.\n\n## Section A\n\nA body.\n\n## Section B\n\nB body.\n";
    let (title, sections) = markdown::parse(raw).unwrap();
    assert_eq!(title.as_deref(), Some("Title"));
    let headings: Vec<Option<String>> = sections.iter().map(|s| s.heading.clone()).collect();
    assert!(headings.iter().any(|h| h.as_deref() == Some("Section A")));
    assert!(headings.iter().any(|h| h.as_deref() == Some("Section B")));
    let a = sections.iter().find(|s| s.heading.as_deref() == Some("Section A")).unwrap();
    assert!(a.text.contains("A body."));
    let b = sections.iter().find(|s| s.heading.as_deref() == Some("Section B")).unwrap();
    assert!(b.text.contains("B body."));
}

#[test]
fn empty_input_yields_one_empty_section() {
    let (title, sections) = markdown::parse("").unwrap();
    assert_eq!(title, None);
    assert_eq!(sections.len(), 1);
    assert!(sections[0].text.is_empty());
}

#[test]
fn extracts_text_from_a_single_page_pdf() {
    let bytes = build_minimal_pdf("Hello from a test PDF");
    let (title, sections) = pdf::parse(extract_pages(&bytes)).unwrap();
    assert_eq!(title, None);
    assert_eq!(sections.len(), 1);
    assert_eq!(sections[0].page, Some(1));
    assert_eq!(sections[0].start_offset, 0);
    assert!(sections[0].text.contains("Hello from a test PDF"), "unexpected text: {:?}", sections[0].text);
}

#[test]
fn invalid_pdf_bytes_produce_a_parse_error() {
    let result = pdf::parse(extract_pages(b"this is not a pdf"));
    match result {
        Err(IngestError::Parse(m)) => assert!(m.starts_with("invalid PDF: ")),
        _ => panic!("expected a parse error"),
    }
}

#[test]
fn html_strips_tags_and_scripts_and_decodes_entities() {
    let text = mnemo::ingest::parsers::html::parse("<p>Hi &amp; bye</p><script>x()</script><b>Bold</b>").unwrap();
    assert_eq!(text, "Hi & bye Bold");
}

#[test]
fn html_collapses_whitespace_and_skips_style_bodies() {
    let text = mnemo::ingest::parsers::html::parse("<style>p { color: red }</style>  a\n\n  b &lt;c&gt; ").unwrap();
    assert_eq!(text, "a b <c>");
}

#[test]
fn plain_text_parses_to_itself() {
    assert_eq!(mnemo::ingest::parsers::txt::parse("line one\nline two").unwrap(), "line one\nline two");
}

#[test]
fn content_hash_is_lowercase_hex_sha256() {
    assert_eq!(content_hash(b""), "e3b0c44298fc1c149afbf4c8996fb92427ae41e4649b934ca495991b7852b855");
    assert_eq!(content_hash(b"abc"), "ba7816bf8f01cfea414140de5dae2223b00361a396177a9cb410ff61f20015ad");
}

#[test]
fn unknown_extension_is_unsupported_with_the_lowercased_extension() {
    match identify("notes.XYZ") {
        Err(IngestError::UnsupportedType(ext)) => assert_eq!(ext, "xyz"),
        other => panic!("unexpected: {other:?}"),
    }
    match identify("README") {
        Err(IngestError::UnsupportedType(ext)) => assert_eq!(ext, ""),
        other => panic!("unexpected: {other:?}"),
    }
    assert_eq!(identify("a/b/notes.Md").unwrap(), FileKind::Markdown);
    assert_eq!(identify("page.htm").unwrap(), FileKind::Html);
    assert_eq!(identify("server.log").unwrap(), FileKind::Text);
}

#[test]
fn mime_types_follow_the_kind() {
    assert_eq!(mime_type(FileKind::Text), "text/plain");
    assert_eq!(mime_type(FileKind::Markdown), "text/markdown");
    assert_eq!(mime_type(FileKind::Html), "text/html");
    assert_eq!(mime_type(FileKind::Pdf), "application/pdf");
    assert_eq!(
        mime_type(FileKind::Docx),
        "application/vnd.openxmlformats-officedocument.wordprocessingml.document"
    );
}

#[test]
fn binary_kind_refusal_names_the_kind() {
    match ingest_str_with_config(FileKind::Docx, "x", &ChunkConfig::default()) {
        Err(IngestError::UnsupportedType(m)) => assert_eq!(
            m,
            "Docx is a binary format; use ingest_bytes_with_config instead of ingest_str_with_config"
        ),
        _ => panic!("expected a refusal"),
    }
}

#[test]
fn invalid_utf8_text_is_a_parse_error() {
    let result = ingest_bytes_with_config(FileKind::Text, &[0xff, 0xfe, 0x41], None, &ChunkConfig::default());
    match result {
        Err(IngestError::Parse(m)) => assert!(m.starts_with("invalid UTF-8")),
        _ => panic!("expected a parse error"),
    }
}

#[test]
fn empty_text_ingests_without_chunks() {
    let ingested = ingest_str_with_config(FileKind::Text, "", &ChunkConfig::default()).unwrap();
    assert_eq!(ingested.text, "");
    assert!(ingested.chunks.is_empty());
    assert_eq!(ingested.parser_version, "0.1.0");
}

fn one_section_file(text: &str) -> mnemo::ingest::parsers::ParsedFile {
    mnemo::ingest::parsers::ParsedFile {
        kind: FileKind::Text,
        title: None,
        text: text.to_string(),
        sections: vec![mnemo::ingest::parsers::ParsedSection {
            heading: Some("H".to_string()),
            text: text.to_string(),
            start_offset: 5,
            page: None,
        }],
    }
}

#[test]
fn chunker_splits_paragraphs_over_the_target() {
    let parsed = one_section_file("Alpha para\n\nBeta para");
    let drafts = chunk_parsed_file(&parsed, &ChunkConfig { target_chars: 10, min_chars: 0 });
    assert_eq!(drafts.len(), 2);
    assert_eq!(drafts[0].text, "Alpha para");
    assert_eq!((drafts[0].start_offset, drafts[0].end_offset), (5, 15));
    assert_eq!(drafts[1].text, "Beta para");
    assert_eq!((drafts[1].start_offset, drafts[1].end_offset), (17, 26));
    assert_eq!(drafts[1].section.as_deref(), Some("H"));
}

#[test]
fn chunker_merges_a_small_trailing_chunk() {
    let parsed = one_section_file("Alpha para\n\nBeta para");
    let drafts = chunk_parsed_file(&parsed, &ChunkConfig { target_chars: 10, min_chars: 100 });
    assert_eq!(drafts.len(), 1);
    assert_eq!(drafts[0].text, "Alpha para\n\nBeta para");
    assert_eq!((drafts[0].start_offset, drafts[0].end_offset), (5, 26));
}

#[test]
fn chunker_packs_paragraphs_under_the_target_and_skips_blank_ones() {
    let parsed = one_section_file("  one\n\n   \n\ntwo  ");
    let drafts = chunk_parsed_file(&parsed, &ChunkConfig::default());
    assert_eq!(drafts.len(), 1);
    assert_eq!(drafts[0].text, "one\n\ntwo");
}

#[test]
fn chunk_sizes_count_characters_while_offsets_count_bytes() {
    let parsed = one_section_file("ééééé\n\nààààà");
    let drafts = chunk_parsed_file(&parsed, &ChunkConfig { target_chars: 12, min_chars: 0 });
    assert_eq!(drafts.len(), 1);
    assert_eq!(drafts[0].text, "ééééé\n\nààààà");
    assert_eq!((drafts[0].start_offset, drafts[0].end_offset), (5, 27));
    let split = chunk_parsed_file(&parsed, &ChunkConfig { target_chars: 11, min_chars: 0 });
    assert_eq!(split.len(), 2);
    assert_eq!((split[1].start_offset, split[1].end_offset), (17, 27));
}

#[test]
fn markdown_section_runs_to_next_heading_of_equal_or_higher_level() {
    let (_, sections) = markdown::parse("# A\nx\n## B\ny\n# C\nz\n").unwrap();
    assert_eq!(sections.len(), 3);
    assert_eq!(sections[0].heading.as_deref(), Some("A"));
    assert_eq!(sections[0].text, "x\n## B\ny\n");
    assert_eq!(sections[1].heading.as_deref(), Some("B"));
    assert_eq!(sections[1].text, "y\n");
    assert_eq!(sections[2].heading.as_deref(), Some("C"));
    assert_eq!(sections[2].text, "z\n");
}

#[test]
fn markdown_offsets_locate_sections_in_the_joined_text() {
    let parsed = mnemo::ingest::parsers::parse(FileKind::Markdown, b"p\n# A\nx\n", None).unwrap();
    assert_eq!(parsed.text, "p\n\nx\n");
    assert_eq!(parsed.sections.len(), 2);
    assert_eq!(parsed.sections[0].heading, None);
    assert_eq!(parsed.sections[0].start_offset, 0);
    assert_eq!(parsed.sections[1].heading.as_deref(), Some("A"));
    assert_eq!(parsed.sections[1].start_offset, 3);
    for s in &parsed.sections {
        let end = s.start_offset + s.text.len();
        assert_eq!(&parsed.text[s.start_offset..end], s.text);
    }
}

#[test]
fn invalid_utf8_markdown_names_the_encoding() {
    let result = mnemo::ingest::parsers::parse(FileKind::Markdown, &[b'#', 0xc3], None);
    match result {
        Err(IngestError::Parse(m)) => assert!(m.starts_with("invalid UTF-8")),
        _ => panic!("expected a parse error"),
    }
}

#[test]
fn ingest_str_and_ingest_bytes_agree_on_text_kinds() {
    let text = "# Notes\nSome body text that is long enough to chunk.\n## Sub\nMore words here.\n";
    for kind in [FileKind::Text, FileKind::Markdown, FileKind::Html] {
        let a = ingest_str_with_config(kind, text, &ChunkConfig::default()).unwrap();
        let b = ingest_bytes_with_config(kind, text.as_bytes(), None, &ChunkConfig::default()).unwrap();
        assert_eq!(a.text, b.text);
        assert_eq!(a.title, b.title);
        assert_eq!(a.content_hash, b.content_hash);
        assert_eq!(a.chunks.len(), b.chunks.len());
        for (x, y) in a.chunks.iter().zip(b.chunks.iter()) {
            assert_eq!(x.text, y.text);
            assert_eq!(x.start_offset, y.start_offset);
            assert_eq!(x.section, y.section);
        }
    }
}

#[test]
fn docx_offsets_locate_sections_in_the_joined_text() {
    let xml = format!(
        r#"<w:document {DOC_NS}><w:body>
            <w:p><w:r><w:t>Préface text.</w:t></w:r></w:p>
            <w:p><w:pPr><w:pStyle w:val="Heading1"/></w:pPr><w:r><w:t>Part One</w:t></w:r></w:p>
            <w:p><w:r><w:t>First body.</w:t></w:r></w:p>
            <w:p><w:pPr><w:pStyle w:val="Heading1"/></w:pPr><w:r><w:t>Part Two</w:t></w:r></w:p>
            <w:p><w:r><w:t>Second body.</w:t></w:r></w:p>
        </w:body></w:document>"#
    );
    let bytes = build_test_docx(&xml, None);
    let parsed = mnemo::ingest::parsers::parse(FileKind::Docx, &bytes, None).unwrap();
    assert_eq!(parsed.sections.len(), 3);
    assert_eq!(parsed.sections[0].start_offset, 0);
    for s in &parsed.sections {
        let end = s.start_offset + s.text.len();
        assert_eq!(&parsed.text[s.start_offset..end], s.text);
    }
}

/// An in-memory ZIP holding the given entries.
fn build_zip(entries: &[(&str, &[u8])]) -> Vec<u8> {
    let mut zip_bytes = Vec::new();
    {
        let cursor = std::io::Cursor::new(&mut zip_bytes);
        let mut writer = zip::ZipWriter::new(cursor);
        let options =
            zip::write::SimpleFileOptions::default().compression_method(zip::CompressionMethod::Stored);
        for (name, data) in entries {
            writer.start_file(*name, options).unwrap();
            writer.write_all(data).unwrap();
        }
        writer.finish().unwrap();
    }
    zip_bytes
}

fn docx_error_message(bytes: &[u8]) -> String {
    match docx::parse(bytes) {
        Err(IngestError::Parse(m)) => m,
        _ => panic!("expected a parse error"),
    }
}

#[test]
fn docx_errors_name_what_went_wrong() {
    assert!(docx_error_message(b"definitely not a docx").starts_with("invalid DOCX archive: "));
    let no_body = build_zip(&[("docProps/core.xml", b"<x/>")]);
    assert!(docx_error_message(&no_body).starts_with("DOCX missing word/document.xml: "));
    let bad_body = build_zip(&[("word/document.xml", &[0x3c, 0xff, 0xfe, 0x3e])]);
    assert!(docx_error_message(&bad_body).starts_with("word/document.xml is not valid UTF-8: "));
}
