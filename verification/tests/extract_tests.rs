use quietlibrary::extract::{extract_title_and_text, is_supported_text};
use quietlibrary::pdfium::pdfium_candidate_dirs;
use quietlibrary::worker_count;

#[test]
fn test_is_supported_text() {
    let cases = [
        ("a.txt", true),
        ("b.md", true),
        ("c.markdown", true),
        ("d.html", true),
        ("e.htm", true),
        ("f.pdf", false),
    ];
    for (name, want) in cases {
        assert_eq!(is_supported_text(name), want, "{}", name);
    }
}

#[test]
fn test_is_supported_text_edge_names() {
    assert!(is_supported_text("/docs/UPPER.TXT"));
    assert!(!is_supported_text("/docs/noext"));
    assert!(!is_supported_text("/docs/.txt"));
    assert!(!is_supported_text("/docs/archive.tar"));
}

#[test]
fn test_extract_plain_title_and_text() {
    let content = "My Title\nThis is the body.";
    let (title, text) = extract_title_and_text("note.txt", content.as_bytes()).unwrap();
    assert_eq!(title, "My Title");
    assert!(text.contains("This is the body."));
}

#[test]
fn test_extract_markdown_title() {
    let content = "# Heading\n\nParagraph text";
    let (title, text) = extract_title_and_text("doc.md", content.as_bytes()).unwrap();
    assert_eq!(title, "Heading");
    assert!(text.contains("Heading"));
    assert!(text.contains("Paragraph text"));
}

#[test]
fn test_extract_html_title() {
    let content = r#"<html><head><title>Test Title</title></head><body><p>Hello</p></body></html>"#;
    let (title, text) = extract_title_and_text("page.html", content.as_bytes()).unwrap();
    assert_eq!(title, "Test Title");
    assert!(text.contains("Hello"));
    assert!(!text.contains("<p>"));
}

#[test]
fn test_extract_plain_skips_blank_leading_lines() {
    // The title is the first non-empty line, not merely line one.
    let (title, _text) = extract_title_and_text("/docs/note.txt", b"   \nSecond line").unwrap();
    assert_eq!(title, "Second line");
}

#[test]
fn test_extract_plain_falls_back_to_file_name() {
    let (title, _text) = extract_title_and_text("/docs/empty.txt", b" \n\t\n ").unwrap();
    assert_eq!(title, "empty.txt");
}

#[test]
fn test_pdfium_candidate_plan_order() {
    let (preferred, candidates) =
        pdfium_candidate_dirs(Some("/proj"), Some("/usr/local/bin"), Some("/home/u"), false);
    assert_eq!(preferred[0], "/proj/src-tauri/resources/pdfium");
    assert_eq!(preferred[3], "/proj/resources");
    assert_eq!(candidates[0], "/usr/local/bin");
    assert_eq!(candidates[1], "/usr/local");
    assert_eq!(candidates[2], "/usr");
    assert_eq!(candidates[3], "/usr/local/bin/resources");
    assert_eq!(candidates[4], "/usr/local/bin/resources/pdfium");
    assert_eq!(candidates[candidates.len() - 1], "/home/u/.pdfium");
}

#[test]
fn test_pdfium_candidate_plan_windows_dirs() {
    let (_, candidates) = pdfium_candidate_dirs(None, None, None, true);
    assert_eq!(
        candidates,
        vec![
            "C:\\Program Files\\PDFium".to_string(),
            "C:\\Program Files (x86)\\PDFium".to_string()
        ]
    );
}

#[test]
fn test_worker_count_clamps() {
    assert_eq!(worker_count(1), 2);
    assert_eq!(worker_count(5), 5);
    assert_eq!(worker_count(64), 8);
}
