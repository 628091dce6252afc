use quietlibrary::fingerprint::{lookup_fp, plan_incremental, snapshot_upsert, FileFingerprint};
use quietlibrary::library::{
    add_bookmark, add_watched_folder, list_bookmarks, remove_bookmark, remove_watched_folder,
    Bookmark,
};

fn fp(path: &str, mtime_secs: u64, size: u64) -> FileFingerprint {
    FileFingerprint { path: path.to_string(), mtime_secs, size }
}

#[test]
fn test_lookup_fp_finds_entry() {
    let snap = vec![fp("/a", 1, 10), fp("/b", 2, 20)];
    assert_eq!(lookup_fp(&snap, "/b"), Some((2, 20)));
    assert_eq!(lookup_fp(&snap, "/c"), None);
}

#[test]
fn test_snapshot_upsert_replaces_and_appends() {
    let mut snap = vec![fp("/a", 1, 10)];
    snapshot_upsert(&mut snap, fp("/a", 5, 50));
    assert_eq!(snap.len(), 1);
    assert_eq!(lookup_fp(&snap, "/a"), Some((5, 50)));
    snapshot_upsert(&mut snap, fp("/b", 2, 20));
    assert_eq!(snap.len(), 2);
    assert_eq!(lookup_fp(&snap, "/b"), Some((2, 20)));
}

#[test]
fn test_plan_incremental_diff() {
    // One file modified, one deleted, one added, one untouched.
    let prev = vec![fp("/a", 1, 10), fp("/b", 2, 20), fp("/c", 3, 30)];
    let cur = vec![fp("/a", 1, 10), fp("/b", 9, 20), fp("/d", 4, 40)];
    let plan = plan_incremental(&prev, &cur);
    assert_eq!(plan.changed, vec!["/b".to_string(), "/d".to_string()]);
    assert_eq!(plan.deleted, vec!["/c".to_string()]);
}

#[test]
fn test_plan_incremental_size_only_change_is_detected() {
    let prev = vec![fp("/a", 1, 10)];
    let cur = vec![fp("/a", 1, 11)];
    let plan = plan_incremental(&prev, &cur);
    assert_eq!(plan.changed, vec!["/a".to_string()]);
    assert!(plan.deleted.is_empty());
}

#[test]
fn test_watched_folder_add_is_idempotent() {
    let mut folders = vec!["/one".to_string()];
    add_watched_folder(&mut folders, "/one".to_string());
    assert_eq!(folders, vec!["/one".to_string()]);
    add_watched_folder(&mut folders, "/two".to_string());
    assert_eq!(folders, vec!["/one".to_string(), "/two".to_string()]);
}

#[test]
fn test_watched_folder_remove() {
    let folders = vec!["/one".to_string(), "/two".to_string(), "/one".to_string()];
    let left = remove_watched_folder(folders, "/one");
    assert_eq!(left, vec!["/two".to_string()]);
}

fn bm(id: &str, path: &str) -> Bookmark {
    Bookmark {
        id: id.to_string(),
        path: path.to_string(),
        page: None,
        section: None,
        note: None,
        created_at: "2024-01-01T00:00:00Z".to_string(),
    }
}

#[test]
fn test_bookmarks_add_list_remove() {
    let mut all: Vec<Bookmark> = Vec::new();
    add_bookmark(&mut all, bm("1", "/a"));
    add_bookmark(&mut all, bm("2", "/b"));
    add_bookmark(&mut all, bm("3", "/a"));
    let at_a = list_bookmarks(all.clone(), Some("/a"));
    assert_eq!(at_a.len(), 2);
    assert!(at_a.iter().all(|b| b.path == "/a"));
    let remaining = remove_bookmark(all, "2");
    assert_eq!(remaining.len(), 2);
    assert!(remaining.iter().all(|b| b.id != "2"));
}
