use xuts_file_backup::search::{char_is_whitespace, distinct_tag_ids, index_repairs, IndexedRow, page_limit, search_statement, tags_subq, task_files_statement, to_fts5, SearchQuery, SqlParam};

fn query() -> SearchQuery {
    SearchQuery { text: None, tag_ids: None, tag_logic: None, task_id: None, limit: None, offset: None }
}

const SUBQ: &str = "COALESCE((SELECT json_group_array(json_object('id',t.id,'name',t.name,'color',t.color)) FROM file_tags ft JOIN tags t ON ft.tag_id=t.id WHERE ft.file_id=";

#[test]
fn fts_terms() {
    assert_eq!(to_fts5("hello world"), "hello* world*");
    assert_eq!(to_fts5("  report_2026.docx  "), "report_2026docx*");
    assert_eq!(to_fts5("a-b !!! c"), "a-b* c*");
    assert_eq!(to_fts5("ñandú 合同"), "ñandú* 合同*");
    assert_eq!(to_fts5("\"OR\" *"), "OR*");
    assert_eq!(to_fts5(""), "");
    assert_eq!(to_fts5("   \t\n"), "");
}

#[test]
fn tag_subquery() {
    assert_eq!(tags_subq("fr.id"), format!("{}fr.id),'[]')", SUBQ));
}

#[test]
fn plain_search() {
    let st = search_statement(&query());
    assert_eq!(
        st.sql,
        format!("SELECT id, task_id, relative_path, size, mtime, content_hash, status, last_synced_at, kind, {}file_records.id),'[]') FROM file_records WHERE status = 'active' ORDER BY relative_path LIMIT ? OFFSET ?", SUBQ)
    );
    assert_eq!(st.params, vec![SqlParam::Integer(100), SqlParam::Integer(0)]);
}

#[test]
fn text_and_task_search() {
    let mut q = query();
    q.text = Some("  budget  q3 ".to_string());
    q.task_id = Some(7);
    q.limit = Some(1000);
    q.offset = Some(20);
    let st = search_statement(&q);
    assert!(st.sql.ends_with(" FROM file_records WHERE status = 'active' AND id IN (SELECT rowid FROM file_search_index WHERE file_search_index MATCH ?) AND task_id = ? ORDER BY relative_path LIMIT ? OFFSET ?"));
    assert_eq!(
        st.params,
        vec![SqlParam::Text("budget* q3*".to_string()), SqlParam::Integer(7), SqlParam::Integer(500), SqlParam::Integer(20)]
    );
}

#[test]
fn text_without_terms_is_no_filter() {
    let mut q = query();
    q.text = Some("!!!".to_string());
    let st = search_statement(&q);
    assert!(!st.sql.contains("MATCH"));
    assert_eq!(st.params, vec![SqlParam::Integer(100), SqlParam::Integer(0)]);
}

#[test]
fn tag_search_or_mode() {
    let mut q = query();
    q.tag_ids = Some(vec![3, 8]);
    let st = search_statement(&q);
    assert_eq!(
        st.sql,
        format!("WITH RECURSIVE tag_tree(id, root_id) AS (SELECT id, id FROM tags WHERE id IN (?, ?) UNION ALL SELECT t.id, tt.root_id FROM tags t JOIN tag_tree tt ON t.parent_id = tt.id ), tag_match(file_id) AS (SELECT ft.file_id FROM file_tags ft JOIN tag_tree tt ON ft.tag_id = tt.id GROUP BY ft.file_id ) SELECT fr.id, fr.task_id, fr.relative_path, fr.size, fr.mtime, fr.content_hash, fr.status, fr.last_synced_at, fr.kind, {}fr.id),'[]') FROM file_records fr JOIN tag_match tm ON fr.id = tm.file_id WHERE fr.status = 'active' ORDER BY fr.relative_path LIMIT ? OFFSET ?", SUBQ)
    );
    assert_eq!(st.params, vec![SqlParam::Integer(3), SqlParam::Integer(8), SqlParam::Integer(100), SqlParam::Integer(0)]);
}

#[test]
fn tag_search_and_mode() {
    let mut q = query();
    q.tag_ids = Some(vec![3, 8, 11]);
    q.tag_logic = Some("and".to_string());
    q.text = Some("memo".to_string());
    let st = search_statement(&q);
    assert!(st.sql.contains("GROUP BY ft.file_id HAVING COUNT(DISTINCT tt.root_id) = 3 ) SELECT"));
    assert!(st.sql.contains("WHERE fr.status = 'active' AND fr.id IN (SELECT rowid"));
    assert!(st.sql.ends_with("ORDER BY fr.relative_path LIMIT ? OFFSET ?"));
    assert_eq!(
        st.params,
        vec![
            SqlParam::Integer(3),
            SqlParam::Integer(8),
            SqlParam::Integer(11),
            SqlParam::Text("memo*".to_string()),
            SqlParam::Integer(100),
            SqlParam::Integer(0),
        ]
    );
}

#[test]
fn repeated_tag_in_and_mode_counts_once() {
    let mut q = query();
    q.tag_ids = Some(vec![5, 5]);
    q.tag_logic = Some("and".to_string());
    let st = search_statement(&q);
    let mut once = query();
    once.tag_ids = Some(vec![5]);
    once.tag_logic = Some("and".to_string());
    let st_once = search_statement(&once);
    assert!(st.sql.contains("WHERE id IN (?) UNION ALL"));
    assert!(st.sql.contains("HAVING COUNT(DISTINCT tt.root_id) = 1 )"));
    assert_eq!(st.sql, st_once.sql);
    assert_eq!(st.params, st_once.params);
    assert_eq!(st.params[0], SqlParam::Integer(5));
}

#[test]
fn distinct_ids_keep_first_appearance() {
    assert_eq!(distinct_tag_ids(&vec![3, 1, 3, 2, 1]), vec![3, 1, 2]);
    assert_eq!(distinct_tag_ids(&vec![]), Vec::<i64>::new());
}

#[test]
fn other_logic_means_or() {
    let mut q = query();
    q.tag_ids = Some(vec![1]);
    q.tag_logic = Some("AND".to_string());
    assert!(!search_statement(&q).sql.contains("HAVING"));
}

#[test]
fn empty_tag_list_is_no_tag_filter() {
    let mut q = query();
    q.tag_ids = Some(vec![]);
    assert!(search_statement(&q).sql.starts_with("SELECT id, task_id"));
}

#[test]
fn page_limits() {
    assert_eq!(page_limit(None, 100, 500), 100);
    assert_eq!(page_limit(Some(50), 100, 500), 50);
    assert_eq!(page_limit(Some(501), 100, 500), 500);
    assert_eq!(page_limit(None, 50, 200), 50);
}

#[test]
fn task_files() {
    let st = task_files_statement(4, Some(5000), None);
    assert_eq!(
        st.sql,
        format!("SELECT id, task_id, relative_path, size, mtime, content_hash, status, last_synced_at, kind, {}file_records.id),'[]') FROM file_records WHERE task_id = ?1 AND status = 'active' ORDER BY relative_path LIMIT ?2 OFFSET ?3", SUBQ)
    );
    assert_eq!(st.params, vec![SqlParam::Integer(4), SqlParam::Integer(1000), SqlParam::Integer(0)]);
    assert_eq!(task_files_statement(4, None, Some(3)).params, vec![SqlParam::Integer(4), SqlParam::Integer(200), SqlParam::Integer(3)]);
}

#[test]
fn white_space_matches_std() {
    for n in 0u32..=0x10FFFF {
        if let Some(c) = char::from_u32(n) {
            assert_eq!(char_is_whitespace(c), c.is_whitespace(), "{:#x}", n);
        }
    }
}

#[test]
fn fts_splits_on_unicode_white_space() {
    assert_eq!(to_fts5("a\u{3000}b\u{a0}c\td"), "a* b* c* d*");
    assert_eq!(to_fts5("\u{2028}"), "");
}

#[test]
fn fts_query_of_a_query_is_itself() {
    for text in ["hello world", "  a-b_c  d!e ", "*", "日本語 テスト", "x* y*", ""] {
        let once = to_fts5(text);
        assert_eq!(to_fts5(&once), once);
    }
    assert!(!'*'.is_alphanumeric());
    for n in 0u32..=0x10FFFF {
        if let Some(c) = char::from_u32(n) {
            assert!(!(c.is_alphanumeric() && c.is_whitespace()));
        }
    }
}

#[test]
fn index_check_finds_stale_and_missing_entries() {
    let row = |id: i64, p: &str| IndexedRow { id, relative_path: p.to_string() };
    let files = vec![row(1, "a.txt"), row(2, "b/c.txt"), row(3, "d.txt")];
    let entries = vec![row(1, "a.txt"), row(2, "b/old.txt"), row(9, "gone.txt")];
    let (stale, missing) = index_repairs(&files, &entries);
    assert_eq!(stale, vec![2, 9]);
    assert_eq!(missing, vec![2, 3]);
    let (stale, missing) = index_repairs(&files, &files);
    assert!(stale.is_empty() && missing.is_empty());
}

#[test]
fn ascii_letters_and_digits_are_the_ascii_alphanumerics() {
    for n in 0u8..128 {
        let c = n as char;
        assert_eq!(c.is_alphanumeric(), c.is_ascii_alphanumeric());
    }
    assert_eq!(to_fts5("Ab*c d_e-f! *"), "Abc* d_e-f*");
}
