use lopdf::content::{Content, Operation};
use lopdf::{Dictionary, Object, Stream};
use quietlibrary::cache::ExtractorKind;
use quietlibrary::pdf::{extract_page_text, extract_pdf_pages, PdfArg, PdfArgItem, PdfOpParts};

fn op(name: &str, args: Vec<PdfArg>) -> PdfOpParts {
    PdfOpParts { name: name.to_string(), args }
}

#[test]
fn test_extract_page_text_decodes_show_operators() {
    let ops = vec![
        op("BT", vec![]),
        op("Tj", vec![PdfArg::Bytes(b"Hello".to_vec())]),
        op(
            "TJ",
            vec![PdfArg::Items(vec![
                PdfArgItem::ItemBytes(b"wor".to_vec()),
                PdfArgItem::ItemOther,
                PdfArgItem::ItemBytes(b"ld".to_vec()),
            ])],
        ),
        op("T*", vec![]),
        op("T*", vec![]),
        op("'", vec![PdfArg::Bytes(b"next line".to_vec())]),
        op("ET", vec![]),
    ];
    let text = extract_page_text(&ops);
    let parts: Vec<&str> = text.split("\n\n").collect();
    assert_eq!(parts.len(), 2);
    assert_eq!(parts[0], "Hello world");
    assert_eq!(parts[1], "next line");
}

#[test]
fn test_extract_pdf_pages_primary_path() {
    let primary = Some((
        "T".to_string(),
        vec!["  pg one  ".to_string(), "   ".to_string(), "pg three".to_string()],
    ));
    let (title, pages, kind) = extract_pdf_pages(primary, b"", "x.pdf").unwrap();
    assert_eq!(title, "T");
    assert_eq!(kind, ExtractorKind::Primary);
    assert_eq!(pages.len(), 2);
    assert_eq!(pages[0], (1, "pg one".to_string()));
    assert_eq!(pages[1], (3, "pg three".to_string()));
}

fn name_obj(n: &[u8]) -> Object {
    Object::Name(n.to_vec())
}

fn minimal_pdf() -> Vec<u8> {
    let mut doc = lopdf::Document::with_version("1.5");
    let pages_id = doc.new_object_id();
    let mut font = Dictionary::new();
    font.set("Type", name_obj(b"Font"));
    font.set("Subtype", name_obj(b"Type1"));
    font.set("BaseFont", name_obj(b"Courier"));
    let font_id = doc.add_object(font);
    let mut fonts = Dictionary::new();
    fonts.set("F1", Object::Reference(font_id));
    let mut resources = Dictionary::new();
    resources.set("Font", Object::Dictionary(fonts));
    let resources_id = doc.add_object(resources);
    let content = Content {
        operations: vec![
            Operation::new("BT", vec![]),
            Operation::new("Tf", vec![name_obj(b"F1"), Object::Integer(24)]),
            Operation::new("Td", vec![Object::Integer(100), Object::Integer(600)]),
            Operation::new("Tj", vec![Object::string_literal("Hello PDF")]),
            Operation::new("ET", vec![]),
        ],
    };
    let content_id = doc.add_object(Stream::new(Dictionary::new(), content.encode().unwrap()));
    let mut page = Dictionary::new();
    page.set("Type", name_obj(b"Page"));
    page.set("Parent", Object::Reference(pages_id));
    page.set("Contents", Object::Reference(content_id));
    let page_id = doc.add_object(page);
    let mut pages = Dictionary::new();
    pages.set("Type", name_obj(b"Pages"));
    pages.set("Kids", Object::Array(vec![Object::Reference(page_id)]));
    pages.set("Count", Object::Integer(1));
    pages.set("Resources", Object::Reference(resources_id));
    pages.set(
        "MediaBox",
        Object::Array(vec![
            Object::Integer(0),
            Object::Integer(0),
            Object::Integer(595),
            Object::Integer(842),
        ]),
    );
    doc.objects.insert(pages_id, Object::Dictionary(pages));
    let mut catalog = Dictionary::new();
    catalog.set("Type", name_obj(b"Catalog"));
    catalog.set("Pages", Object::Reference(pages_id));
    let catalog_id = doc.add_object(catalog);
    doc.trailer.set("Root", Object::Reference(catalog_id));
    let mut info = Dictionary::new();
    info.set("Title", Object::string_literal("Doc Title"));
    let info_id = doc.add_object(info);
    doc.trailer.set("Info", Object::Reference(info_id));
    let mut bytes: Vec<u8> = Vec::new();
    doc.save_to(&mut bytes).unwrap();
    bytes
}

#[test]
fn test_extract_pdf_pages_structural_fallback() {
    let bytes = minimal_pdf();
    let (title, pages, kind) = extract_pdf_pages(None, &bytes, "doc.pdf").unwrap();
    assert_eq!(kind, ExtractorKind::Fallback);
    assert_eq!(title, "Doc Title");
    assert_eq!(pages.len(), 1);
    assert_eq!(pages[0].0, 1);
    assert_eq!(pages[0].1, "Hello PDF");
}

#[test]
fn test_extract_pdf_pages_rejects_garbage() {
    assert!(extract_pdf_pages(None, b"not a pdf", "x.pdf").is_err());
}
