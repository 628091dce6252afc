//! PDF text extraction: the primary path hands in per-page text rendered by
//! a native library; the structural fallback walks page content streams and
//! decodes the text-showing operators itself.
//!
//! Both paths run the same sanitizer and the same paragraph-preserving
//! whitespace normalizer over each page.
use vstd::prelude::*;
use crate::cache::ExtractorKind;
use crate::extract::{bytes_to_text, lossy_of};
use crate::text::{
    chars_of, string_from_chars, trim_chars, trim_spec, sanitize_text, sanitize_spec,
    normalize_ws_preserve_newlines, normalize_pn_spec, str_eq,
};

verus! {

#[verifier::external_type_specification]
#[verifier::external_body]
pub struct ExDocument(lopdf::Document);

#[verifier::external_type_specification]
#[verifier::external_body]
pub struct ExOperation(lopdf::content::Operation);

/// Whether `lopdf` accepts these bytes as a PDF document. Parsing is a
/// function of the bytes alone.
pub uninterp spec fn pdf_parses(b: Seq<u8>) -> bool;

/// Relies on `lopdf::Document::load_mem`: parses a PDF from bytes, and
/// succeeds or fails as a function of the bytes alone.
#[verifier::external_body]
pub(crate) fn parse_pdf(bytes: &[u8]) -> (r: Result<lopdf::Document, String>)
    ensures
        r is Ok <==> pdf_parses(bytes@),
{
    lopdf::Document::load_mem(bytes).map_err(|e| e.to_string())
}

/// Relies on `lopdf::Document::get_pages`: the page tree enumerated in
/// order, numbered consecutively from one.
#[verifier::external_body]
pub(crate) fn doc_pages(doc: &lopdf::Document) -> (r: Vec<(u32, (u32, u16))>)
    ensures
        r@.len() < 0x1_0000_0000 ==> forall|i: int| 0 <= i < r@.len() ==> (#[trigger] r@[i]).0 == i
            + 1,
{
    doc.get_pages().into_iter().collect()
}

/// Relies on `lopdf::Document`'s trailer access: the `Title` string of the
/// document's `Info` dictionary, if it has one.
#[verifier::external_body]
pub(crate) fn doc_info_title(doc: &lopdf::Document) -> (r: Option<Vec<u8>>) {
    doc.trailer
        .get(b"Info")
        .ok()
        .and_then(|id| match id {
            lopdf::Object::Reference(oid) => doc.get_dictionary(*oid).ok(),
            _ => None,
        })
        .and_then(|dict| dict.get(b"Title").ok())
        .and_then(|obj| obj.as_str().ok())
        .map(|s| s.to_vec())
}

/// Relies on `lopdf::Document::get_page_content` and `Content::decode`: the
/// decoded operations of a page's content streams, or none when decoding
/// fails.
#[verifier::external_body]
pub(crate) fn page_operations(doc: &lopdf::Document, page: (u32, u16)) -> (r: Vec<
    lopdf::content::Operation,
>) {
    let data = doc.get_page_content(page);
    match lopdf::content::Content::decode(&data) {
        Ok(c) => c.operations,
        Err(_) => Vec::new(),
    }
}

/// One operand of a content-stream operation, reduced to what the text
/// decoder reads: a string's bytes, an array's string items, or anything
/// else.
pub enum PdfArg {
    Bytes(Vec<u8>),
    Items(Vec<PdfArgItem>),
    OtherArg,
}

/// One element of an array operand.
pub enum PdfArgItem {
    ItemBytes(Vec<u8>),
    ItemOther,
}

/// A content-stream operation: its operator name and its operands.
pub struct PdfOpParts {
    pub name: String,
    pub args: Vec<PdfArg>,
}

/// Relies on the public fields of `lopdf::content::Operation`: copies the
/// operator name and reduces each operand to its string content, keeping
/// string operands, the string items of array operands, and a placeholder
/// for everything else.
#[verifier::external_body]
pub(crate) fn op_parts(op: &lopdf::content::Operation) -> (r: PdfOpParts) {
    let mut args: Vec<PdfArg> = Vec::new();
    for o in op.operands.iter() {
        args.push(match o {
            lopdf::Object::String(b, _) => PdfArg::Bytes(b.clone()),
            lopdf::Object::Array(items) => PdfArg::Items(
                items.iter().map(|it| match it {
                    lopdf::Object::String(b, _) => PdfArgItem::ItemBytes(b.clone()),
                    _ => PdfArgItem::ItemOther,
                }).collect(),
            ),
            _ => PdfArg::OtherArg,
        });
    }
    PdfOpParts { name: op.operator.clone(), args }
}

/// The text contributed by the string items of an array operand.
pub open spec fn items_text(items: Seq<PdfArgItem>) -> Seq<char>
    decreases items.len(),
{
    if items.len() == 0 {
        Seq::empty()
    } else {
        (match items.first() {
            PdfArgItem::ItemBytes(b) => lossy_of(b@),
            PdfArgItem::ItemOther => Seq::<char>::empty(),
        }) + items_text(items.drop_first())
    }
}

/// The text contributed by one operation: `Tj` shows its string operand,
/// `TJ` shows the string items of its array operand, the quote operators
/// move to the next line and show their string operand, and `T*` moves to
/// the next line.
pub open spec fn op_text(op: PdfOpParts) -> Seq<char> {
    let name = op.name@;
    let args = op.args@;
    if name == "Tj"@ {
        if args.len() > 0 {
            match args[0] {
                PdfArg::Bytes(b) => lossy_of(b@) + seq![' '],
                _ => Seq::empty(),
            }
        } else {
            Seq::empty()
        }
    } else if name == "TJ"@ {
        if args.len() > 0 {
            match args[0] {
                PdfArg::Items(items) => items_text(items@) + seq![' '],
                _ => Seq::empty(),
            }
        } else {
            Seq::empty()
        }
    } else if name == "'"@ || name == "\""@ {
        if args.len() > 0 {
            match args[0] {
                PdfArg::Bytes(b) => seq!['\n'] + lossy_of(b@) + seq![' '],
                _ => Seq::empty(),
            }
        } else {
            Seq::empty()
        }
    } else if name == "T*"@ {
        seq!['\n']
    } else {
        Seq::empty()
    }
}

/// The raw text of a page: the concatenated contributions of its
/// operations.
pub open spec fn raw_page_text(ops: Seq<PdfOpParts>) -> Seq<char>
    decreases ops.len(),
{
    if ops.len() == 0 {
        Seq::empty()
    } else {
        op_text(ops.first()) + raw_page_text(ops.drop_first())
    }
}

/// The final text of a page: the raw decoded text, sanitized and normalized
/// with paragraph breaks preserved.
pub open spec fn page_text_spec(ops: Seq<PdfOpParts>) -> Seq<char> {
    normalize_pn_spec(sanitize_spec(raw_page_text(ops)))
}

/// Appends the decoded form of `b` and a trailing space to `out`.
fn push_shown_text(out: &mut Vec<char>, b: &Vec<u8>)
    ensures
        final(out)@ == old(out)@ + lossy_of(b@) + seq![' '],
{
    let s = bytes_to_text(b.as_slice());
    let mut cs = chars_of(s.as_str());
    out.append(&mut cs);
    out.push(' ');
    proof {
        assert(final(out)@ =~= old(out)@ + lossy_of(b@) + seq![' ']);
    }
}

/// Decodes the text-showing operators of a page's operations and runs the
/// sanitizer and the paragraph-preserving normalizer over the result.
pub fn extract_page_text(ops: &Vec<PdfOpParts>) -> (r: String)
    ensures
        r@ == page_text_spec(ops@),
{
    let n: usize = ops.len();
    let mut out: Vec<char> = Vec::new();
    let mut i: usize = 0;
    proof {
        assert(ops@.skip(0) =~= ops@);
    }
    while i < n
        invariant
            0 <= i <= n == ops@.len(),
            raw_page_text(ops@) == out@ + raw_page_text(ops@.skip(i as int)),
        decreases n - i,
    {
        proof {
            assert(ops@.skip(i as int).first() == ops@[i as int]);
            assert(ops@.skip(i as int).drop_first() =~= ops@.skip(i + 1));
        }
        let ghost out0 = out@;
        let op = &ops[i];
        if str_eq(op.name.as_str(), "Tj") {
            if op.args.len() > 0 {
                match &op.args[0] {
                    PdfArg::Bytes(b) => {
                        push_shown_text(&mut out, b);
                    },
                    _ => {},
                }
            }
        } else if str_eq(op.name.as_str(), "TJ") {
            if op.args.len() > 0 {
                match &op.args[0] {
                    PdfArg::Items(items) => {
                        let m: usize = items.len();
                        let mut k: usize = 0;
                        proof {
                            assert(items@.skip(0) =~= items@);
                        }
                        while k < m
                            invariant
                                0 <= k <= m == items@.len(),
                                out@ == out0 + items_text(items@.take(k as int)),
                            decreases m - k,
                        {
                            proof {
                                assert(items@.take(k + 1).drop_last() =~= items@.take(k as int));
                                lemma_items_text_push(items@.take(k as int), items@[k as int]);
                                assert(items@.take(k + 1) =~= items@.take(k as int).push(
                                    items@[k as int],
                                ));
                            }
                            match &items[k] {
                                PdfArgItem::ItemBytes(b) => {
                                    let s = bytes_to_text(b.as_slice());
                                    let mut cs = chars_of(s.as_str());
                                    out.append(&mut cs);
                                },
                                PdfArgItem::ItemOther => {},
                            }
                            proof {
                                assert(out@ =~= out0 + items_text(items@.take(k + 1)));
                            }
                            k = k + 1;
                        }
                        proof {
                            assert(items@.take(m as int) =~= items@);
                        }
                        out.push(' ');
                        proof {
                            assert(out@ =~= out0 + (items_text(items@) + seq![' ']));
                        }
                    },
                    _ => {},
                }
            }
        } else if str_eq(op.name.as_str(), "'") || str_eq(op.name.as_str(), "\"") {
            if op.args.len() > 0 {
                match &op.args[0] {
                    PdfArg::Bytes(b) => {
                        out.push('\n');
                        push_shown_text(&mut out, b);
                        proof {
                            assert(out@ =~= out0 + (seq!['\n'] + lossy_of(b@) + seq![' ']));
                        }
                    },
                    _ => {},
                }
            }
        } else if str_eq(op.name.as_str(), "T*") {
            out.push('\n');
        }
        proof {
            assert(out@ =~= out0 + op_text(ops@[i as int]));
        }
        i = i + 1;
    }
    proof {
        assert(ops@.skip(n as int) =~= Seq::<PdfOpParts>::empty());
        assert(raw_page_text(ops@) =~= out@);
    }
    let s1 = string_from_chars(out.as_slice());
    let s2 = sanitize_text(s1.as_str());
    normalize_ws_preserve_newlines(s2.as_str())
}

proof fn lemma_items_text_push(items: Seq<PdfArgItem>, e: PdfArgItem)
    ensures
        items_text(items.push(e)) == items_text(items) + (match e {
            PdfArgItem::ItemBytes(b) => lossy_of(b@),
            PdfArgItem::ItemOther => Seq::<char>::empty(),
        }),
    decreases items.len(),
{
    if items.len() == 0 {
        assert(items.push(e).drop_first() =~= Seq::<PdfArgItem>::empty());
        assert(items.push(e).first() == e);
        assert(items_text(Seq::<PdfArgItem>::empty()) =~= Seq::<char>::empty());
        assert(items_text(items.push(e)) =~= items_text(items) + (match e {
            PdfArgItem::ItemBytes(b) => lossy_of(b@),
            PdfArgItem::ItemOther => Seq::<char>::empty(),
        }));
    } else {
        assert(items.push(e).drop_first() =~= items.drop_first().push(e));
        assert(items.push(e).first() == items.first());
        lemma_items_text_push(items.drop_first(), e);
        assert(items_text(items.push(e)) =~= items_text(items) + (match e {
            PdfArgItem::ItemBytes(b) => lossy_of(b@),
            PdfArgItem::ItemOther => Seq::<char>::empty(),
        }));
    }
}

/// The structural fallback extractor: walks every page of the parsed
/// document, decodes its text-showing operators, and keeps the pages whose
/// normalized text is non-blank, in ascending page order. The title comes
/// from the document's `Info` dictionary, decoded leniently, or falls back
/// to the file name.
pub fn extract_with_lopdf(bytes: &[u8], file_name: &str) -> (r: Result<
    (String, Vec<(u32, String)>),
    String,
>)
    ensures
        r is Ok <==> pdf_parses(bytes@),
        r matches Ok((title, pages)) ==> {
            &&& forall|a: int, b: int|
                0 <= a < b < pages@.len() ==> (#[trigger] pages@[a]).0 < (#[trigger] pages@[b]).0
            &&& forall|a: int| 0 <= a < pages@.len() ==> (#[trigger] pages@[a]).0 >= 1
            &&& forall|a: int|
                0 <= a < pages@.len() ==> trim_spec((#[trigger] pages@[a]).1@).len() > 0
        },
{
    let doc = parse_pdf(bytes)?;
    let title: String = match doc_info_title(&doc) {
        Some(b) => bytes_to_text(b.as_slice()),
        None => String::from_str(file_name),
    };
    let page_ids = doc_pages(&doc);
    let n: usize = page_ids.len();
    let mut pages: Vec<(u32, String)> = Vec::new();
    // Page numbering from the outside library is only trusted for documents
    // whose page count fits in 32 bits.
    if (n as u64) >= 0x1_0000_0000u64 {
        return Ok((title, pages));
    }
    let mut i: usize = 0;
    while i < n
        invariant
            0 <= i <= n == page_ids@.len(),
            n < 0x1_0000_0000,
            forall|a: int| 0 <= a < n ==> (#[trigger] page_ids@[a]).0 == a + 1,
            forall|a: int, b: int|
                0 <= a < b < pages@.len() ==> (#[trigger] pages@[a]).0 < (#[trigger] pages@[b]).0,
            forall|a: int|
                0 <= a < pages@.len() ==> trim_spec((#[trigger] pages@[a]).1@).len() > 0,
            forall|a: int| 0 <= a < pages@.len() ==> 1 <= (#[trigger] pages@[a]).0 <= i,
        decreases n - i,
    {
        let (num, id) = page_ids[i];
        let raw_ops = page_operations(&doc, id);
        let m: usize = raw_ops.len();
        let mut parts: Vec<PdfOpParts> = Vec::new();
        let mut k: usize = 0;
        while k < m
            invariant
                0 <= k <= m == raw_ops@.len(),
            decreases m - k,
        {
            parts.push(op_parts(&raw_ops[k]));
            k = k + 1;
        }
        let text = extract_page_text(&parts);
        let tv = chars_of(text.as_str());
        let tt = trim_chars(tv.as_slice());
        if tt.len() > 0 {
            proof {
                assert(page_ids@[i as int].0 == i + 1);
            }
            pages.push((num, text));
        }
        i = i + 1;
    }
    Ok((title, pages))
}

/// The per-index normalization of primary-extracted page texts: page `k`
/// (zero-based) becomes page number `k + 1`, pages whose sanitized and
/// normalized text is empty are dropped.
pub open spec fn pdf_pages_norm(texts: Seq<String>, idx: int) -> Seq<(u32, Seq<char>)>
    decreases texts.len(),
{
    if texts.len() == 0 {
        Seq::empty()
    } else {
        let nrm = normalize_pn_spec(sanitize_spec(texts.first()@));
        (if nrm.len() > 0 {
            seq![(((idx + 1) as u32), nrm)]
        } else {
            Seq::<(u32, Seq<char>)>::empty()
        }) + pdf_pages_norm(texts.drop_first(), idx + 1)
    }
}

/// Sanitizes and normalizes the page texts of a primary extraction,
/// numbering pages from one and dropping pages that normalize to nothing.
pub fn assemble_pdf_pages(raw_pages: &Vec<String>) -> (r: Vec<(u32, String)>)
    requires
        raw_pages@.len() < 0x1_0000_0000,
    ensures
        r@.len() == pdf_pages_norm(raw_pages@, 0).len(),
        forall|k: int|
            0 <= k < r@.len() ==> (#[trigger] r@[k]).0 == pdf_pages_norm(raw_pages@, 0)[k].0 && r@[
                k
            ].1@ == pdf_pages_norm(raw_pages@, 0)[k].1,
{
    let n: usize = raw_pages.len();
    let mut r: Vec<(u32, String)> = Vec::new();
    let mut i: usize = 0;
    let ghost target = pdf_pages_norm(raw_pages@, 0);
    proof {
        assert(raw_pages@.skip(0) =~= raw_pages@);
    }
    while i < n
        invariant
            0 <= i <= n == raw_pages@.len(),
            n < 0x1_0000_0000,
            target == pdf_pages_norm(raw_pages@, 0),
            r@.len() + pdf_pages_norm(raw_pages@.skip(i as int), i as int).len() == target.len(),
            forall|k: int|
                0 <= k < r@.len() ==> (#[trigger] r@[k]).0 == target[k].0 && r@[k].1@
                    == target[k].1,
            pdf_pages_norm(raw_pages@.skip(i as int), i as int) == target.skip(r@.len() as int),
        decreases n - i,
    {
        proof {
            assert(raw_pages@.skip(i as int).first() == raw_pages@[i as int]);
            assert(raw_pages@.skip(i as int).drop_first() =~= raw_pages@.skip(i + 1));
        }
        let ghost r0 = r@;
        let s1 = sanitize_text(raw_pages[i].as_str());
        let norm = normalize_ws_preserve_newlines(s1.as_str());
        if !norm.as_str().is_empty() {
            let num: u32 = (i as u32) + 1;
            r.push((num, norm));
            proof {
                assert(target.skip(r0.len() as int).first() == target[r0.len() as int]);
                assert(target.skip(r0.len() as int).drop_first() =~= target.skip(r0.len() as int + 1));
            }
        }
        i = i + 1;
    }
    proof {
        assert(raw_pages@.skip(n as int) =~= Seq::<String>::empty());
    }
    r
}

/// Extracts a PDF's title and per-page text with the fallback chain: a
/// primary result (title and raw page texts from the native renderer, when
/// the caller could obtain one) is normalized and wins; otherwise the
/// structural parser runs over the raw bytes. The returned kind names the
/// extractor that produced the result.
pub fn extract_pdf_pages(
    primary: Option<(String, Vec<String>)>,
    bytes: &[u8],
    file_name: &str,
) -> (r: Result<(String, Vec<(u32, String)>, ExtractorKind), String>)
    ensures
        primary matches Some((t, texts)) ==> (texts@.len() < 0x1_0000_0000 ==> (r matches Ok((
            title,
            pages,
            kind,
        )) && (title == t && kind is Primary && pages@.len() == pdf_pages_norm(texts@, 0).len() && (
        forall|k: int|
            0 <= k < pages@.len() ==> (#[trigger] pages@[k]).0 == pdf_pages_norm(texts@, 0)[k].0
                && pages@[k].1@ == pdf_pages_norm(texts@, 0)[k].1)))),
        primary is None ==> (r is Ok <==> pdf_parses(bytes@)),
        primary is None ==> (r matches Ok((title, pages, kind)) ==> {
            &&& kind is Fallback
            &&& forall|a: int, b: int|
                0 <= a < b < pages@.len() ==> (#[trigger] pages@[a]).0 < (#[trigger] pages@[b]).0
            &&& forall|a: int| 0 <= a < pages@.len() ==> (#[trigger] pages@[a]).0 >= 1
            &&& forall|a: int|
                0 <= a < pages@.len() ==> trim_spec((#[trigger] pages@[a]).1@).len() > 0
        }),
        primary matches Some((t, texts)) && texts@.len() >= 0x1_0000_0000 ==> r is Err,
{
    match primary {
        Some((title, texts)) => {
            if (texts.len() as u64) >= 0x1_0000_0000u64 {
                return Err(String::from_str("too many pages"));
            }
            let pages = assemble_pdf_pages(&texts);
            Ok((title, pages, ExtractorKind::Primary))
        },
        None => {
            let (title, pages) = extract_with_lopdf(bytes, file_name)?;
            Ok((title, pages, ExtractorKind::Fallback))
        },
    }
}

/// Every page number in the normalized list lies between `idx + 1` and
/// `idx` plus the number of pages, and the numbers ascend strictly: the
/// page list of an extracted document is ordered by page number.
pub proof fn lemma_pdf_pages_norm_ascending(texts: Seq<String>, idx: int)
    requires
        0 <= idx,
        idx + texts.len() < 0x1_0000_0000,
    ensures
        forall|a: int|
            0 <= a < pdf_pages_norm(texts, idx).len() ==> idx + 1 <= (#[trigger] pdf_pages_norm(
                texts,
                idx,
            )[a]).0 <= idx + texts.len(),
        forall|a: int, b: int|
            0 <= a < b < pdf_pages_norm(texts, idx).len() ==> (#[trigger] pdf_pages_norm(
                texts,
                idx,
            )[a]).0 < (#[trigger] pdf_pages_norm(texts, idx)[b]).0,
    decreases texts.len(),
{
    if texts.len() > 0 {
        lemma_pdf_pages_norm_ascending(texts.drop_first(), idx + 1);
        let here = pdf_pages_norm(texts, idx);
        let rest = pdf_pages_norm(texts.drop_first(), idx + 1);
        let nrm = normalize_pn_spec(sanitize_spec(texts.first()@));
        if nrm.len() > 0 {
            assert(here[0].0 == idx + 1);
            assert(forall|a: int| 1 <= a < here.len() ==> here[a] == #[trigger] rest[a - 1]);
        } else {
            assert(forall|a: int| 0 <= a < here.len() ==> here[a] == #[trigger] rest[a]);
        }
    }
}

} // verus!
