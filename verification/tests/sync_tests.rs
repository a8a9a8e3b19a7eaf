use xuts_file_backup::sync::diff::{compute_diff, DbEntry, DbMap, SyncAction};
use xuts_file_backup::sync::engine::{errors_json, file_name, finish, stale_dirs, sync_status};
use xuts_file_backup::sync::executor::{hash_bytes, needs_copy, to_native_path, ActionOutcome, SyncStats};
use xuts_file_backup::sync::filter::{exclude_patterns, parse_filter_rules};
use xuts_file_backup::sync::scanner::{dirs_to_mirror, is_excluded, over_size_limit, WalkedDir, scan_directory, to_slash_path, FileEntry, ScanMap, WalkedFile};

fn db_entry(id: i64, size: u64, mtime_secs: i64) -> DbEntry {
    DbEntry { id, size, mtime_secs, content_hash: String::from("h") }
}

fn walked(path: &str, size: u64, mtime_secs: i64) -> WalkedFile {
    WalkedFile { relative: path.to_string(), size, mtime_secs }
}

#[test]
fn diff_adds_updates_and_deletes() {
    let mut scan = ScanMap::new();
    scan.insert("a.txt".to_string(), FileEntry { size: 1, mtime_secs: 10 });
    scan.insert("b.txt".to_string(), FileEntry { size: 2, mtime_secs: 20 });
    scan.insert("c.txt".to_string(), FileEntry { size: 3, mtime_secs: 30 });
    let mut db = DbMap::new();
    db.insert("b.txt".to_string(), db_entry(7, 2, 21));
    db.insert("c.txt".to_string(), db_entry(8, 3, 30));
    db.insert("gone.txt".to_string(), db_entry(9, 4, 40));
    let actions = compute_diff(&scan, &db);
    assert_eq!(
        actions,
        vec![
            SyncAction::Add { relative_path: "a.txt".to_string(), size: 1, mtime_secs: 10 },
            SyncAction::Update { file_id: 7, relative_path: "b.txt".to_string(), size: 2, mtime_secs: 20 },
            SyncAction::Delete { file_id: 9, relative_path: "gone.txt".to_string() },
        ]
    );
}

#[test]
fn diff_update_on_size_change_only() {
    let mut scan = ScanMap::new();
    scan.insert("x".to_string(), FileEntry { size: 5, mtime_secs: 1 });
    let mut db = DbMap::new();
    db.insert("x".to_string(), db_entry(1, 4, 1));
    let actions = compute_diff(&scan, &db);
    assert_eq!(actions, vec![SyncAction::Update { file_id: 1, relative_path: "x".to_string(), size: 5, mtime_secs: 1 }]);
}

#[test]
fn diff_empty_when_in_sync() {
    let mut scan = ScanMap::new();
    scan.insert("d/e.txt".to_string(), FileEntry { size: 9, mtime_secs: 99 });
    let mut db = DbMap::new();
    db.insert("d/e.txt".to_string(), db_entry(3, 9, 99));
    assert!(compute_diff(&scan, &db).is_empty());
}

#[test]
fn diff_of_empty_source_deletes_everything() {
    let scan = ScanMap::new();
    let mut db = DbMap::new();
    db.insert("p".to_string(), db_entry(1, 1, 1));
    db.insert("q".to_string(), db_entry(2, 1, 1));
    assert_eq!(
        compute_diff(&scan, &db),
        vec![
            SyncAction::Delete { file_id: 1, relative_path: "p".to_string() },
            SyncAction::Delete { file_id: 2, relative_path: "q".to_string() },
        ]
    );
}

#[test]
fn diff_then_apply_mirrors_scan() {
    // Carrying out the diff on a copy of the index yields the scanned metadata.
    let mut scan = ScanMap::new();
    scan.insert("keep".to_string(), FileEntry { size: 1, mtime_secs: 1 });
    scan.insert("new".to_string(), FileEntry { size: 2, mtime_secs: 2 });
    scan.insert("changed".to_string(), FileEntry { size: 3, mtime_secs: 4 });
    let mut db = DbMap::new();
    db.insert("keep".to_string(), db_entry(1, 1, 1));
    db.insert("changed".to_string(), db_entry(2, 3, 3));
    db.insert("old".to_string(), db_entry(3, 9, 9));
    let mut index: Vec<(String, u64, i64)> = vec![
        ("keep".to_string(), 1, 1),
        ("changed".to_string(), 3, 3),
        ("old".to_string(), 9, 9),
    ];
    for a in compute_diff(&scan, &db) {
        match a {
            SyncAction::Add { relative_path, size, mtime_secs } => index.push((relative_path, size, mtime_secs)),
            SyncAction::Update { relative_path, size, mtime_secs, .. } => {
                for e in index.iter_mut() {
                    if e.0 == relative_path {
                        e.1 = size;
                        e.2 = mtime_secs;
                    }
                }
            }
            SyncAction::Delete { relative_path, .. } => index.retain(|e| e.0 != relative_path),
        }
    }
    index.sort();
    assert_eq!(
        index,
        vec![("changed".to_string(), 3, 4), ("keep".to_string(), 1, 1), ("new".to_string(), 2, 2)]
    );
}

#[test]
fn path_map_insert_replaces_in_place() {
    let mut m = ScanMap::new();
    m.insert("a".to_string(), FileEntry { size: 1, mtime_secs: 1 });
    m.insert("b".to_string(), FileEntry { size: 2, mtime_secs: 2 });
    m.insert("a".to_string(), FileEntry { size: 3, mtime_secs: 3 });
    assert_eq!(m.len(), 2);
    let (k, v) = m.entry(0);
    assert_eq!(k, "a");
    assert_eq!(*v, FileEntry { size: 3, mtime_secs: 3 });
    assert_eq!(m.get(&"b".to_string()), Some(&FileEntry { size: 2, mtime_secs: 2 }));
    assert_eq!(m.get(&"c".to_string()), None);
    assert!(m.contains_key(&"a".to_string()));
}

#[test]
fn exclusion_patterns() {
    let ex = vec!["node_modules/".to_string(), "*.tmp".to_string(), ".git".to_string()];
    assert!(is_excluded("node_modules", &ex));
    assert!(is_excluded("node_modules/x/y.js", &ex));
    assert!(is_excluded("src/node_modules/y.js", &ex));
    assert!(is_excluded("src/node_modules", &ex));
    assert!(is_excluded("a/.git/config", &ex));
    assert!(!is_excluded("my_node_modules/y.js", &ex));
    assert!(is_excluded("file.tmp", &ex));
    assert!(is_excluded("docs/deep/b.tmp", &ex));
    assert!(!is_excluded("file.tmp.txt", &ex));
    assert!(!is_excluded("anything", &[]));
}

#[test]
fn star_matches_within_one_component() {
    let ex = vec!["*.tmp".to_string()];
    assert!(is_excluded("a.tmp", &ex));
    assert!(is_excluded("docs/b.tmp", &ex));
    assert!(is_excluded(".tmp", &ex));
    assert!(!is_excluded("a.txt", &ex));
    assert!(!is_excluded("a.tmp/", &["*.tmpx".to_string()]));
    let ex = vec!["docs/*.md".to_string()];
    assert!(is_excluded("docs/a.md", &ex));
    assert!(is_excluded("x/docs/a.md", &ex));
    assert!(!is_excluded("docs/sub/a.md", &ex));
    assert!(!is_excluded("docs/a.txt", &ex));
}

#[test]
fn double_star_matches_any_depth() {
    let ex = vec!["node_modules/**".to_string()];
    assert!(is_excluded("node_modules/x.js", &ex));
    assert!(is_excluded("node_modules/lib/y.js", &ex));
    assert!(!is_excluded("src/x.js", &ex));
    let ex = vec!["src/**/test.rs".to_string()];
    assert!(is_excluded("src/test.rs", &ex));
    assert!(is_excluded("src/a/b/test.rs", &ex));
    assert!(!is_excluded("lib/a/test.rs", &ex));
}

#[test]
fn question_mark_matches_one_character() {
    let ex = vec!["?.log".to_string()];
    assert!(is_excluded("a.log", &ex));
    assert!(is_excluded("logs/b.log", &ex));
    assert!(!is_excluded("ab.log", &ex));
    assert!(!is_excluded(".log", &ex));
}

#[test]
fn joined_pattern_lists_exclude_either() {
    let a = vec!["*.tmp".to_string()];
    let b = vec!["build".to_string()];
    let ab = vec!["*.tmp".to_string(), "build".to_string()];
    for p in ["x.tmp", "build/o", "src/m.rs", "build"] {
        assert_eq!(is_excluded(p, &ab), is_excluded(p, &a) || is_excluded(p, &b));
    }
    assert!(is_excluded("x.tmp", &ab) && is_excluded("build/o", &ab) && !is_excluded("src/m.rs", &ab));
}

#[test]
fn trailing_slashes_of_pattern_are_ignored() {
    let ex = vec!["build///".to_string()];
    assert!(is_excluded("build", &ex));
    assert!(is_excluded("build/out.o", &ex));
}

#[test]
fn scan_skips_files_over_the_size_limit() {
    let mib: u64 = 1024 * 1024;
    let files = vec![walked("small", 2 * mib, 1), walked("big", 2 * mib + 1, 2), walked("tiny", 0, 3)];
    let map = scan_directory(files, &[], Some(2));
    assert_eq!(map.len(), 2);
    assert_eq!(map.entry(0).0, "small");
    assert_eq!(map.entry(1).0, "tiny");
    assert!(over_size_limit(1, Some(0)));
    assert!(!over_size_limit(0, Some(0)));
    assert!(!over_size_limit(u64::MAX, Some(u64::MAX)));
    assert!(!over_size_limit(u64::MAX, None));
}

#[test]
fn filter_rules_from_json() {
    let r = parse_filter_rules(r#"{"exclude_globs": ["*.tmp", 3, "node_modules/**", null], "max_size_mb": 50}"#);
    assert_eq!(r.exclude_globs, vec!["*.tmp".to_string(), "node_modules/**".to_string()]);
    assert_eq!(r.max_size_mb, Some(50));
    let r = parse_filter_rules("{}");
    assert!(r.exclude_globs.is_empty());
    assert_eq!(r.max_size_mb, None);
    let r = parse_filter_rules("not json");
    assert!(r.exclude_globs.is_empty());
    assert_eq!(r.max_size_mb, None);
    let r = parse_filter_rules(r#"{"exclude_globs": "x", "max_size_mb": -1}"#);
    assert!(r.exclude_globs.is_empty());
    assert_eq!(r.max_size_mb, None);
}

#[test]
fn exclude_patterns_keeps_strings_in_order() {
    let items = Some(vec![Some("b".to_string()), None, Some("a".to_string())]);
    assert_eq!(exclude_patterns(items), vec!["b".to_string(), "a".to_string()]);
    assert!(exclude_patterns(None).is_empty());
    assert!(exclude_patterns(Some(vec![None])).is_empty());
}

#[test]
fn slash_paths() {
    assert_eq!(to_slash_path("a\\b\\c.txt"), "a/b/c.txt");
    assert_eq!(to_slash_path("plain"), "plain");
    assert_eq!(to_native_path("a/b/c", '\\'), "a\\b\\c");
    assert_eq!(to_native_path("a/b", '/'), "a/b");
}

#[test]
fn scan_skips_excluded_and_normalizes() {
    let files = vec![walked("src\\main.rs", 10, 1), walked("target\\debug\\x", 20, 2), walked("README", 3, 3)];
    let map = scan_directory(files, &["target".to_string()], None);
    assert_eq!(map.len(), 2);
    assert_eq!(map.entry(0).0, "src/main.rs");
    assert_eq!(*map.entry(0).1, FileEntry { size: 10, mtime_secs: 1 });
    assert_eq!(map.entry(1).0, "README");
}

#[test]
fn content_hash_is_sixteen_lowercase_hex_digits() {
    assert_eq!(hash_bytes(b""), "2d06800538d394c2");
    let h = hash_bytes(b"hello world");
    assert_eq!(h.len(), 16);
    assert!(h.chars().all(|c| c.is_ascii_hexdigit() && !c.is_ascii_uppercase()));
    assert_ne!(h, hash_bytes(b"hello world!"));
    assert_eq!(h, hash_bytes(b"hello world"));
}

#[test]
fn copy_needed_only_when_hash_changes() {
    assert!(!needs_copy(&"abc".to_string(), &"abc".to_string()));
    assert!(needs_copy(&"abc".to_string(), &"abd".to_string()));
    assert!(needs_copy(&"abc".to_string(), &String::new()));
}

#[test]
fn stats_count_outcomes() {
    let mut s = SyncStats::default();
    assert_eq!((s.files_copied, s.files_deleted, s.bytes_transferred, s.errors.len()), (0, 0, 0, 0));
    s.record(ActionOutcome::Copied { bytes: 100 });
    s.record(ActionOutcome::MetadataOnly);
    s.record(ActionOutcome::CopyFailed { error: "copy 'x': denied".to_string() });
    s.record(ActionOutcome::Deleted { failure: None });
    s.record(ActionOutcome::Deleted { failure: Some("delete 'y': busy".to_string()) });
    s.record(ActionOutcome::Copied { bytes: 5 });
    assert_eq!(s.files_copied, 2);
    assert_eq!(s.files_deleted, 2);
    assert_eq!(s.bytes_transferred, 105);
    assert_eq!(s.errors, vec!["copy 'x': denied".to_string(), "delete 'y': busy".to_string()]);
    assert_eq!(sync_status(&s.errors), "partial_error");
    let r = finish(4, 12, s);
    assert_eq!((r.task_id, r.files_scanned, r.files_copied, r.files_deleted, r.bytes_transferred), (4, 12, 2, 2, 105));
    assert_eq!(r.errors.len(), 2);
}

#[test]
fn status_and_error_log() {
    assert_eq!(sync_status(&vec![]), "success");
    assert_eq!(errors_json(&vec![]), "[]");
    assert_eq!(errors_json(&vec!["a\"b".to_string(), "c".to_string()]), "[\"a\\\"b\",\"c\"]");
}

#[test]
fn stale_directories_deepest_first() {
    let target = vec![
        "a".to_string(),
        "a/b".to_string(),
        "a/b/c".to_string(),
        "keep".to_string(),
        "x".to_string(),
        "x/y".to_string(),
    ];
    let source = vec!["keep".to_string()];
    assert_eq!(
        stale_dirs(target, &source),
        vec!["a/b/c".to_string(), "a/b".to_string(), "x/y".to_string(), "a".to_string(), "x".to_string()]
    );
    assert!(stale_dirs(vec!["keep".to_string()], &vec!["keep".to_string()]).is_empty());
}

#[test]
fn file_names() {
    assert_eq!(file_name("docs/report.docx"), "report.docx");
    assert_eq!(file_name("report.docx"), "report.docx");
    assert_eq!(file_name("a/b/"), "");
    assert_eq!(file_name(""), "");
}

#[test]
fn diff_ignores_stored_hashes() {
    let mut scan = ScanMap::new();
    scan.insert("a".to_string(), FileEntry { size: 1, mtime_secs: 1 });
    scan.insert("b".to_string(), FileEntry { size: 5, mtime_secs: 2 });
    let mut db = DbMap::new();
    db.insert("a".to_string(), DbEntry { id: 1, size: 1, mtime_secs: 1, content_hash: "x".to_string() });
    db.insert("c".to_string(), DbEntry { id: 2, size: 3, mtime_secs: 3, content_hash: "y".to_string() });
    db.insert("d".to_string(), DbEntry { id: 4, size: 3, mtime_secs: 3, content_hash: "w".to_string() });
    let mut other = DbMap::new();
    other.insert("d".to_string(), DbEntry { id: 4, size: 3, mtime_secs: 3, content_hash: "v".to_string() });
    other.insert("c".to_string(), DbEntry { id: 2, size: 3, mtime_secs: 3, content_hash: String::new() });
    other.insert("a".to_string(), DbEntry { id: 1, size: 1, mtime_secs: 1, content_hash: "zz".to_string() });
    let sorted = |v: Vec<SyncAction>| {
        let mut t: Vec<String> = v.iter().map(|a| format!("{:?}", a)).collect();
        t.sort();
        t
    };
    let d1 = compute_diff(&scan, &db);
    let d2 = compute_diff(&scan, &other);
    assert_eq!(d1.len(), 3);
    assert_eq!(d1[0], d2[0]);
    assert_eq!(sorted(d1), sorted(d2));
}

#[test]
fn more_patterns_only_remove_files() {
    let files = || vec![walked("a.txt", 1, 1), walked("b.tmp", 2, 2), walked("lib\\c.txt", 3, 3)];
    let few = scan_directory(files(), &["*.tmp".to_string()], None);
    let more = scan_directory(files(), &["*.tmp".to_string(), "lib".to_string()], None);
    assert_eq!(few.len(), 2);
    assert_eq!(more.len(), 1);
    assert_eq!(more.entry(0).0, "a.txt");
    assert_eq!(*more.get(&"a.txt".to_string()).unwrap(), *few.get(&"a.txt".to_string()).unwrap());
    assert!(few.contains_key(&"lib/c.txt".to_string()) && !more.contains_key(&"lib/c.txt".to_string()));
}

#[test]
fn excluded_directories_are_not_mirrored() {
    let d = |p: &str, t: i64| WalkedDir { relative: p.to_string(), mtime_secs: t };
    let dirs = vec![d("src", 1), d("node_modules", 2), d("node_modules\\lib", 3), d("src\\cache.tmp", 4), d("docs", 5)];
    let ex = vec!["node_modules/**".to_string(), "*.tmp".to_string()];
    let kept = dirs_to_mirror(dirs, &ex);
    assert_eq!(kept, vec![("src".to_string(), 1), ("docs".to_string(), 5)]);
    let all = dirs_to_mirror(vec![d("a\\b", 7)], &[]);
    assert_eq!(all, vec![("a/b".to_string(), 7)]);
}

#[test]
fn counters_follow_the_diff() {
    let mut scan = ScanMap::new();
    scan.insert("new".to_string(), FileEntry { size: 1, mtime_secs: 1 });
    scan.insert("changed".to_string(), FileEntry { size: 9, mtime_secs: 2 });
    let mut db = DbMap::new();
    db.insert("changed".to_string(), db_entry(1, 8, 2));
    db.insert("gone".to_string(), db_entry(2, 3, 3));
    db.insert("gone2".to_string(), db_entry(3, 3, 3));
    let mut s = SyncStats::default();
    for a in compute_diff(&scan, &db) {
        let o = match a {
            SyncAction::Add { .. } => ActionOutcome::Copied { bytes: 1 },
            SyncAction::Update { .. } => ActionOutcome::MetadataOnly,
            SyncAction::Delete { .. } => ActionOutcome::Deleted { failure: None },
        };
        s.record(o);
    }
    assert_eq!(s.files_deleted, 2);
    assert_eq!(s.files_copied, 1);
}

#[test]
fn error_log_escapes_like_json() {
    let v = vec!["\u{1}\n\t\\é/\u{7f}".to_string(), String::new()];
    assert_eq!(errors_json(&v), "[\"\\u0001\\n\\t\\\\é/\u{7f}\",\"\"]");
    assert_eq!(errors_json(&vec!["\u{1f}\u{8}\u{c}\r".to_string()]), "[\"\\u001f\\b\\f\\r\"]");
}
