use quietlibrary::extract::extract_title_and_text;
use quietlibrary::index::{
    collect_result_rows, create_session_in_ram, incremental_update, rebuild_index, search_index,
    search_pages_for_document, sorted_distinct, IndexRow, SearchHit,
};

fn row(title: &str, path: &str, page: Option<u64>, body: &str) -> IndexRow {
    IndexRow {
        title: title.to_string(),
        path: path.to_string(),
        page,
        section: None,
        body: body.to_string(),
    }
}

#[test]
fn test_index_end_to_end_hello_world() {
    // Index a folder holding notes.txt = "Hello world", query "world".
    let (title, body) = extract_title_and_text("/lib/notes.txt", b"Hello world").unwrap();
    let mut s = create_session_in_ram().unwrap();
    let rows = vec![row(&title, "/lib/notes.txt", None, &body)];
    rebuild_index(&mut s, &rows).unwrap();
    let results = search_index(&s, "world", 10).unwrap();
    assert_eq!(results.len(), 1);
    assert!(results[0].path.ends_with("notes.txt"));
    assert_eq!(results[0].page, None);
    assert!(results[0].snippet.contains("world"));
}

#[test]
fn test_incremental_update_consistency() {
    // After deleting one file and modifying another, the update drops the
    // deleted file's rows, replaces the modified file's rows, and leaves
    // untouched rows alone.
    let mut s = create_session_in_ram().unwrap();
    let rows = vec![
        row("A", "/lib/a.txt", None, "alpha content"),
        row("B", "/lib/b.txt", None, "bravo content"),
        row("C", "/lib/c.txt", None, "charlie content"),
    ];
    rebuild_index(&mut s, &rows).unwrap();
    assert_eq!(search_index(&s, "charlie", 10).unwrap().len(), 1);

    let changed = vec!["/lib/b.txt".to_string()];
    let deleted = vec!["/lib/c.txt".to_string()];
    let fresh = vec![row("B", "/lib/b.txt", None, "bravo fresh words")];
    incremental_update(&mut s, &changed, &deleted, &fresh).unwrap();

    assert_eq!(search_index(&s, "charlie", 10).unwrap().len(), 0);
    let bravo = search_index(&s, "fresh", 10).unwrap();
    assert_eq!(bravo.len(), 1);
    assert!(bravo[0].path.ends_with("b.txt"));
    let old_bravo = search_index(&s, "content", 10).unwrap();
    assert_eq!(old_bravo.len(), 1);
    assert!(old_bravo[0].path.ends_with("a.txt"));
    let alpha = search_index(&s, "alpha", 10).unwrap();
    assert_eq!(alpha.len(), 1);
    assert!(alpha[0].snippet.contains("alpha content"));
}

#[test]
fn test_search_pages_for_document_sorted_distinct() {
    let mut s = create_session_in_ram().unwrap();
    let rows = vec![
        row("D", "/lib/d.pdf", Some(3), "apple again"),
        row("D", "/lib/d.pdf", Some(1), "apple here"),
        row("D", "/lib/d.pdf", Some(2), "nothing else"),
        row("E", "/lib/e.pdf", Some(1), "apple elsewhere"),
    ];
    rebuild_index(&mut s, &rows).unwrap();
    let pages = search_pages_for_document(&s, "/lib/d.pdf", "apple", 10).unwrap();
    assert_eq!(pages, vec![1, 3]);
}

#[test]
fn test_search_index_surfaces_parser_errors() {
    let mut s = create_session_in_ram().unwrap();
    rebuild_index(&mut s, &vec![row("A", "/a", None, "text")]).unwrap();
    assert!(search_index(&s, "AND", 10).is_err());
}

#[test]
fn test_collect_result_rows_limit_and_paragraphs() {
    let hits = vec![
        SearchHit {
            title: "T".to_string(),
            path: "/p".to_string(),
            page: Some(1),
            section: None,
            body: "apple one\n\napple two\n\napple three".to_string(),
        },
    ];
    let rows = collect_result_rows(&hits, "apple", 2);
    assert_eq!(rows.len(), 2);
    assert!(rows[0].snippet.contains("one"));
    assert!(rows[1].snippet.contains("two"));
    let all = collect_result_rows(&hits, "apple", 10);
    assert_eq!(all.len(), 3);
}

#[test]
fn test_search_with_zero_limit_is_empty() {
    // A zero limit never reaches the engine (whose collector rejects it)
    // and simply returns nothing.
    let mut s = create_session_in_ram().unwrap();
    rebuild_index(&mut s, &vec![row("A", "/a", None, "text")]).unwrap();
    assert_eq!(search_index(&s, "text", 0).unwrap().len(), 0);
    assert_eq!(search_pages_for_document(&s, "/a", "text", 0).unwrap().len(), 0);
}

#[test]
fn test_sorted_distinct_orders_and_dedups() {
    let v = vec![5u64, 1, 5, 3, 1];
    assert_eq!(sorted_distinct(&v), vec![1, 3, 5]);
    let empty: Vec<u64> = Vec::new();
    assert_eq!(sorted_distinct(&empty), Vec::<u64>::new());
}
