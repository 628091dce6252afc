use quietlibrary::extract::{bytes_to_text, markdown_to_text};
use quietlibrary::text::{normalize_ws, normalize_ws_preserve_newlines, sanitize_text};

#[test]
fn test_sanitize_text_drops_zero_width_and_controls() {
    let s = "a\u{200B}b\u{FFFD}c\x07d"; // zero-width space, replacement char, bell
    let out = sanitize_text(s);
    assert_eq!(out, "abcd");
}

#[test]
fn test_normalize_preserves_paragraphs() {
    let s = "Line 1  with   spaces\nLine 2\n\nNew para\nline";
    let out = normalize_ws_preserve_newlines(s);
    // paragraphs separated by blank line should remain separated
    let parts: Vec<&str> = out.split("\n\n").collect();
    assert_eq!(parts.len(), 2);
    assert!(parts[0].contains("Line 1 with spaces Line 2"));
    assert!(parts[1].contains("New para line"));
}

#[test]
fn test_bytes_to_text_latin_fallback() {
    // invalid UTF-8, should not panic
    let bytes = vec![0xFF, 0xFE, b'A'];
    let s = bytes_to_text(&bytes);
    assert!(s.len() >= 1);
}

#[test]
fn test_normalize_ws() {
    let s = "  hello\t\tworld\nnew\r\nline  ";
    assert_eq!(normalize_ws(s), "hello world new line");
}

#[test]
fn test_markdown_to_text_basic() {
    let md = "# Title\n\nHello **world**";
    let txt = markdown_to_text(md);
    // pulldown_cmark Text events concatenate without markup
    assert!(txt.contains("Title"));
    assert!(txt.contains("Hello"));
    assert!(txt.contains("world"));
}

#[test]
fn test_markdown_to_text_strips_markup() {
    let txt = markdown_to_text("**bold** and _soft_");
    assert!(!txt.contains('*'));
    assert!(!txt.contains('_'));
    assert!(txt.contains("bold"));
    assert!(txt.contains("soft"));
}

#[test]
fn test_bytes_to_text_replacement_chars() {
    let s = bytes_to_text(b"Title\n\xFF\xFE\xFA");
    assert!(s.contains("Title"));
    assert!(s.chars().any(|c| c == '\u{FFFD}'));
}

#[test]
fn test_normalize_preserve_newlines_collapses_blank_runs() {
    let out = normalize_ws_preserve_newlines("a\r\n\r\n\r\nb");
    assert_eq!(out, "a\n\nb");
}

#[test]
fn test_sanitize_keeps_tabs_and_newlines() {
    assert_eq!(sanitize_text("a\tb\nc\rd"), "a\tb\nc\rd");
}
