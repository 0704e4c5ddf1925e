//! PDF sections: the page texts that a PDF text extractor read from a
//! file become sections with 1-based page numbers.
use vstd::prelude::*;

use crate::ingest::error::IngestError;
use crate::ingest::parsers::{offsets_chain, parsed_sections_view, ParsedSection, SectionSpec};
use crate::text::{byte_len, chars_of, checked_window_byte_len, string_of_window, trim, trim_window};

verus! {

/// What the PDF text extractor gave for a file: the text of each page, in
/// page order, or the message of its error.
pub type Extracted = Result<Vec<String>, String>;

/// The extractor's outcome as the specification sees it.
pub open spec fn extracted_view(e: Extracted) -> Result<Seq<Seq<char>>, Seq<char>> {
    match e {
        Ok(pages) => Ok(pages@.map_values(|p: String| p@)),
        Err(m) => Err(m@),
    }
}

/// Sections for pages `k..` when the page before `k` ended at `offset`:
/// each page's trimmed text, starting at `offset`, on page `k + 1`; the
/// next starts two bytes (the `"\n\n"` joiner) after it.
pub open spec fn pdf_sections_from(pages: Seq<Seq<char>>, k: int, offset: int) -> Seq<SectionSpec>
    decreases pages.len() - k,
{
    if k < 0 || k >= pages.len() {
        seq![]
    } else {
        let t = trim(pages[k]);
        seq![(None, t, offset, Some((k + 1) as u32))] + pdf_sections_from(
            pages,
            k + 1,
            offset + byte_len(t) + 2,
        )
    }
}

/// Whether every running offset (including the one after the last page)
/// fits in a `usize`.
pub open spec fn pdf_offsets_fit(pages: Seq<Seq<char>>, k: int, offset: int) -> bool
    decreases pages.len() - k,
{
    if k < 0 || k >= pages.len() {
        true
    } else {
        let next = offset + byte_len(trim(pages[k])) + 2;
        next <= usize::MAX && pdf_offsets_fit(pages, k + 1, next)
    }
}

/// The sections of a PDF whose pages read `pages`: one per page, or one
/// empty section on page 1 when there are no pages.
pub open spec fn pdf_sections(pages: Seq<Seq<char>>) -> Seq<SectionSpec> {
    if pages.len() == 0 {
        seq![(None, seq![], 0, Some(1u32))]
    } else {
        pdf_sections_from(pages, 0, 0)
    }
}

proof fn lemma_pdf_sections_from_pages(pages: Seq<Seq<char>>, k: int, offset: int)
    requires
        0 <= k <= pages.len(),
    ensures
        pdf_sections_from(pages, k, offset).len() == pages.len() - k,
        forall|j: int|
            0 <= j < pages.len() - k ==> {
                let sec = #[trigger] pdf_sections_from(pages, k, offset)[j];
                &&& sec.0 is None
                &&& sec.1 == trim(pages[k + j])
                &&& sec.3 == Some((k + j + 1) as u32)
            },
    decreases pages.len() - k,
{
    if k < pages.len() {
        let t = trim(pages[k]);
        let next = offset + byte_len(t) + 2;
        lemma_pdf_sections_from_pages(pages, k + 1, next);
        let head = seq![(None::<Seq<char>>, t, offset, Some((k + 1) as u32))];
        let rest = pdf_sections_from(pages, k + 1, next);
        assert forall|j: int| 0 <= j < pages.len() - k implies {
            let sec = #[trigger] pdf_sections_from(pages, k, offset)[j];
            &&& sec.0 is None
            &&& sec.1 == trim(pages[k + j])
            &&& sec.3 == Some((k + j + 1) as u32)
        } by {
            if j == 0 {
                assert((head + rest)[0] == head[0]);
            } else {
                assert((head + rest)[j] == rest[j - 1]);
            }
        }
    }
}

/// One section per page, in page order, holding the page's trimmed text
/// and its 1-based page number; a PDF without pages gives one empty
/// section on page 1.
pub proof fn lemma_pdf_one_section_per_page(pages: Seq<Seq<char>>)
    ensures
        pdf_sections(pages).len() == (if pages.len() == 0 {
            1
        } else {
            pages.len()
        }),
        forall|k: int|
            0 <= k < pages.len() ==> {
                let sec = #[trigger] pdf_sections(pages)[k];
                &&& sec.0 is None
                &&& sec.1 == trim(pages[k])
                &&& sec.3 == Some((k + 1) as u32)
            },
{
    if pages.len() > 0 {
        lemma_pdf_sections_from_pages(pages, 0, 0);
        assert forall|k: int| 0 <= k < pages.len() implies {
            let sec = #[trigger] pdf_sections(pages)[k];
            &&& sec.0 is None
            &&& sec.1 == trim(pages[k])
            &&& sec.3 == Some((k + 1) as u32)
        } by {
            assert(pdf_sections(pages)[k] == pdf_sections_from(pages, 0, 0)[k]);
            assert(0 + k == k);
        }
    }
}

proof fn lemma_pdf_sections_from_offsets(pages: Seq<Seq<char>>, k: int, off: int)
    requires
        0 <= k <= pages.len(),
    ensures
        pdf_sections_from(pages, k, off).len() == pages.len() - k,
        pdf_sections_from(pages, k, off).len() > 0 ==> pdf_sections_from(pages, k, off)[0].2 == off,
        forall|i: int|
            1 <= i < pdf_sections_from(pages, k, off).len() ==> #[trigger] pdf_sections_from(pages, k, off)[i].2
                == pdf_sections_from(pages, k, off)[i - 1].2 + byte_len(pdf_sections_from(pages, k, off)[i - 1].1) + 2,
    decreases pages.len() - k,
{
    if k < pages.len() {
        let t = trim(pages[k]);
        let next = off + byte_len(t) + 2;
        lemma_pdf_sections_from_offsets(pages, k + 1, next);
        let head = seq![(None::<Seq<char>>, t, off, Some((k + 1) as u32))];
        let rest = pdf_sections_from(pages, k + 1, next);
        let all = pdf_sections_from(pages, k, off);
        assert(all == head + rest);
        assert forall|i: int| 1 <= i < all.len() implies #[trigger] all[i].2 == all[i - 1].2 + byte_len(
            all[i - 1].1,
        ) + 2 by {
            assert(all[i] == rest[i - 1]);
            if i == 1 {
                assert(all[0] == head[0]);
            } else {
                assert(all[i - 1] == rest[i - 2]);
                assert(rest[i - 1].2 == rest[i - 2].2 + byte_len(rest[i - 2].1) + 2);
            }
        }
    }
}

/// PDF page offsets follow one another with the two-byte `"\n\n"` joiner.
pub proof fn lemma_pdf_offsets_chain(pages: Seq<Seq<char>>)
    ensures
        offsets_chain(pdf_sections(pages), 2),
{
    if pages.len() > 0 {
        lemma_pdf_sections_from_offsets(pages, 0, 0);
    }
}

/// The sections of a PDF from what the text extractor gave for it: one
/// section per page, holding the page's trimmed text. The title is always
/// `None`: PDFs have no title this parser reads.
///
/// Fails with `"invalid PDF: "` and the extractor's message when the
/// extractor failed, or (an input too large for memory) when the page
/// offsets would not fit in a `usize`.
pub fn parse(extracted: Extracted) -> (r: Result<(Option<String>, Vec<ParsedSection>), IngestError>)
    ensures
        extracted_view(extracted) matches Err(m) ==> (r matches Err(IngestError::Parse(msg)) && msg@
            == "invalid PDF: "@ + m),
        extracted_view(extracted) matches Ok(pages) ==> {
            &&& pdf_offsets_fit(pages, 0, 0) ==> (r matches Ok((title, secs)) && title is None
                && parsed_sections_view(secs@) == pdf_sections(pages))
            &&& !pdf_offsets_fit(pages, 0, 0) ==> r matches Err(IngestError::Parse(_))
        },
{
    let ghost ev = extracted_view(extracted);
    let texts = match extracted {
        Ok(t) => t,
        Err(e) => {
            let mut msg = String::from_str("invalid PDF: ");
            msg.append(e.as_str());
            return Err(IngestError::Parse(msg));
        },
    };
    let mut pages: Vec<Vec<char>> = Vec::new();
    let mut i: usize = 0;
    while i < texts.len()
        invariant
            i <= texts.len(),
            pages@.map_values(|v: Vec<char>| v@) == texts@.take(i as int).map_values(|p: String| p@),
        decreases texts.len() - i,
    {
        let ghost before = pages@;
        let c = chars_of(texts[i].as_str());
        pages.push(c);
        proof {
            assert(texts@.take(i + 1) == texts@.take(i as int).push(texts@[i as int]));
            assert(pages@.map_values(|v: Vec<char>| v@) =~= before.map_values(|v: Vec<char>| v@).push(c@));
            assert(texts@.take(i + 1).map_values(|p: String| p@) =~= texts@.take(i as int).map_values(
                |p: String| p@,
            ).push(texts@[i as int]@));
        }
        i += 1;
    }
    assert(texts@.take(texts.len() as int) == texts@);
    assert(ev == Ok::<Seq<Seq<char>>, Seq<char>>(pages@.map_values(|v: Vec<char>| v@)));
    let ghost pv = pages@.map_values(|v: Vec<char>| v@);
    let mut sections: Vec<ParsedSection> = Vec::new();
    let mut offset: usize = 0;
    let mut k: usize = 0;
    while k < pages.len()
        invariant
            k <= pages.len(),
            pv == pages@.map_values(|v: Vec<char>| v@),
            ev == Ok::<Seq<Seq<char>>, Seq<char>>(pv),
            ev == extracted_view(extracted),
            parsed_sections_view(sections@) + pdf_sections_from(pv, k as int, offset as int)
                == pdf_sections_from(pv, 0, 0),
            pdf_offsets_fit(pv, 0, 0) == pdf_offsets_fit(pv, k as int, offset as int),
        decreases pages.len() - k,
    {
        let page = &pages[k];
        let (a, b) = trim_window(page, 0, page.len());
        proof {
            assert(page@.subrange(0, page@.len() as int) == page@);
            assert(pv[k as int] == page@);
            assert(trim(pv[k as int]) == page@.subrange(a as int, b as int));
        }
        let len = match checked_window_byte_len(page, a, b) {
            Some(n) => n,
            None => {
                assert(!pdf_offsets_fit(pv, k as int, offset as int));
                return Err(IngestError::Parse(String::from_str("PDF text too large")));
            },
        };
        if offset > usize::MAX - 2 || len > usize::MAX - 2 - offset {
            assert(!pdf_offsets_fit(pv, k as int, offset as int));
            return Err(IngestError::Parse(String::from_str("PDF text too large")));
        }
        let text = string_of_window(page, a, b);
        let ghost before = sections@;
        sections.push(
            ParsedSection {
                heading: None,
                text,
                start_offset: offset,
                page: Some(#[verifier::truncate] ((k + 1) as u32)),
            },
        );
        proof {
            assert(parsed_sections_view(sections@) =~= parsed_sections_view(before).push(
                (None, trim(pv[k as int]), offset as int, Some((k + 1) as u32)),
            ));
            assert(parsed_sections_view(sections@) + pdf_sections_from(
                pv,
                k + 1,
                offset + len + 2,
            ) =~= parsed_sections_view(before) + pdf_sections_from(pv, k as int, offset as int));
        }
        offset = offset + len + 2;
        k += 1;
    }
    if sections.len() == 0 {
        sections.push(
            ParsedSection { heading: None, text: String::new(), start_offset: 0, page: Some(1) },
        );
        proof {
            assert(parsed_sections_view(sections@) =~= seq![
                (None::<Seq<char>>, Seq::<char>::empty(), 0int, Some(1u32)),
            ]);
        }
    } else {
        proof {
            assert(parsed_sections_view(sections@) =~= parsed_sections_view(sections@) + Seq::<
                SectionSpec,
            >::empty());
        }
    }
    Ok((None, sections))
}

} // verus!
