use quietlibrary::snippet::{make_snippet, make_snippets, next_char_boundary, prev_char_boundary};

#[test]
fn test_make_snippet_contains_query() {
    let text = "The quick brown fox jumps over the lazy dog";
    let snip = make_snippet(text, "brown", 20);
    assert!(snip.to_lowercase().contains("brown"));
}

#[test]
fn test_make_snippet_unicode_boundaries() {
    let text = "Hello 👩‍💻 world — emojis!";
    let snip = make_snippet(text, "world", 10);
    assert!(snip.contains("world"));
    // Ensure no panic and valid UTF-8 slices
    assert!(snip.is_char_boundary(snip.len()));
}

#[test]
fn test_make_snippets_per_paragraph() {
    let text = "para one has apple\n\npara two has Apple too";
    let all = make_snippets(text, "apple", 50);
    assert_eq!(all.len(), 2);
    assert!(all[0].to_lowercase().contains("apple"));
    assert!(all[1].to_lowercase().contains("apple"));
}

#[test]
fn test_char_boundary_helpers() {
    let s = "A😊B"; // multi-byte in middle
    let idx = 2; // inside the emoji
    let prev = prev_char_boundary(s, idx);
    let next = next_char_boundary(s, idx);
    assert!(s.is_char_boundary(prev));
    assert!(s.is_char_boundary(next));
    assert!(prev < next);
}

#[test]
fn test_make_snippet_case_insensitive_find() {
    // A window far smaller than the text: only a real case-fold finds the
    // match; the no-match fallback would return the head of the text.
    let snip = make_snippet("0123456789APPLE tail", "apple", 4);
    assert!(snip.contains("APPLE"));
    assert!(!snip.contains("0123"));
}

#[test]
fn test_make_snippet_no_match_returns_head() {
    let snip = make_snippet("alpha beta gamma", "zzz", 10);
    assert_eq!(snip, "alpha beta".trim());
}

#[test]
fn test_make_snippet_empty_inputs() {
    assert_eq!(make_snippet("", "x", 10), "");
    assert_eq!(make_snippet("text", "   ", 10), "");
    assert_eq!(make_snippets("", "x", 10).len(), 0);
    assert_eq!(make_snippets("text", " ", 10).len(), 0);
}

#[test]
fn test_make_snippets_skips_unmatched_paragraphs() {
    let text = "first block\n\nsecond with term\n\nthird block";
    let all = make_snippets(text, "term", 50);
    assert_eq!(all.len(), 1);
    assert!(all[0].contains("term"));
}

#[test]
fn test_boundary_helpers_clamp_out_of_range() {
    let s = "ab";
    assert_eq!(prev_char_boundary(s, 100), 2);
    assert_eq!(next_char_boundary(s, 100), 2);
}
