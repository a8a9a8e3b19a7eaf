use xuts_file_backup::error::AppError;
use xuts_file_backup::search::SqlParam;
use xuts_file_backup::tags::{
    build_tree, check_tag_parent, check_tag_updated, delete_tag_statements, get_tag_tree, indexed_tag_names, list_tags, search_entry, Tag,
    TagNode,
};

fn tag(id: i64, name: &str, parent_id: Option<i64>) -> Tag {
    Tag {
        id,
        name: name.to_string(),
        color: "#6366f1".to_string(),
        parent_id,
        description: None,
        created_at: "2026-01-01T00:00:00+00:00".to_string(),
    }
}

fn shape(nodes: &[TagNode]) -> String {
    let parts: Vec<String> = nodes
        .iter()
        .map(|n| if n.children.is_empty() { n.name.clone() } else { format!("{}({})", n.name, shape(&n.children)) })
        .collect();
    parts.join(" ")
}

#[test]
fn forest_of_nested_tags() {
    let flat = vec![
        tag(1, "work", None),
        tag(2, "finance", Some(1)),
        tag(3, "contract", Some(2)),
        tag(4, "expense", Some(2)),
        tag(5, "meeting", Some(1)),
        tag(6, "personal", None),
        tag(7, "travel", Some(6)),
    ];
    let forest = build_tree(flat);
    assert_eq!(shape(&forest), "work(finance(contract expense) meeting) personal(travel)");
    assert_eq!(forest[0].children[0].parent_id, Some(1));
    assert_eq!(forest[0].children[0].children[1].id, 4);
}

#[test]
fn orphans_and_cycles_are_left_out() {
    let flat = vec![tag(1, "root", None), tag(2, "orphan", Some(42)), tag(3, "a", Some(4)), tag(4, "b", Some(3))];
    assert_eq!(shape(&build_tree(flat)), "root");
}

#[test]
fn children_are_handed_out_once() {
    // Two tags share an id: only the first one met gets the children.
    let flat = vec![tag(1, "first", None), tag(1, "second", None), tag(2, "child", Some(1))];
    assert_eq!(shape(&build_tree(flat)), "first(child) second");
}

#[test]
fn empty_forest() {
    assert!(build_tree(vec![]).is_empty());
}

#[test]
fn tags_listed_by_name() {
    let rows = vec![tag(1, "b", None), tag(2, "a", None), tag(3, "C", None), tag(4, "ab", None)];
    let names: Vec<String> = list_tags(rows).into_iter().map(|t| t.name).collect();
    assert_eq!(names, vec!["C", "a", "ab", "b"]);
}

#[test]
fn listing_sorted_tags_keeps_them() {
    let rows = vec![tag(1, "a", None), tag(2, "b", None), tag(3, "c", None)];
    assert_eq!(list_tags(rows.clone()), rows);
}

#[test]
fn tag_tree_orders_siblings_by_name() {
    let rows = vec![tag(1, "z", None), tag(2, "m", Some(1)), tag(3, "b", Some(1)), tag(4, "a", None)];
    assert_eq!(shape(&get_tag_tree(rows)), "a z(b m)");
}

#[test]
fn tag_update_of_missing_tag_fails() {
    assert_eq!(check_tag_updated(12, 0), Err(AppError::Other("Tag 12 not found".to_string())));
    assert_eq!(check_tag_updated(-3, 0), Err(AppError::Other("Tag -3 not found".to_string())));
    assert_eq!(check_tag_updated(12, 1), Ok(()));
}

#[test]
fn search_entry_of_file() {
    let (name, tags) = search_entry("docs/finance/report.docx", &vec!["contract".to_string(), "work".to_string()]);
    assert_eq!(name, "report.docx");
    assert_eq!(tags, "contract work");
    let (_, none) = search_entry("x", &vec![]);
    assert_eq!(none, "");
}

#[test]
fn delete_statements_bind_every_id() {
    let (affected, delete) = delete_tag_statements(&vec![5, 6, 9]);
    assert_eq!(affected.sql, "SELECT DISTINCT file_id FROM file_tags WHERE tag_id IN (?,?,?)");
    assert_eq!(delete.sql, "DELETE FROM tags WHERE id IN (?,?,?)");
    let ids = vec![SqlParam::Integer(5), SqlParam::Integer(6), SqlParam::Integer(9)];
    assert_eq!(affected.params, ids);
    assert_eq!(delete.params, ids);
}

#[test]
fn index_lists_tags_with_their_ancestors() {
    let flat = vec![
        tag(1, "work", None),
        tag(2, "project", Some(1)),
        tag(3, "draft", Some(2)),
        tag(4, "home", None),
        tag(5, "photos", Some(4)),
    ];
    let names = indexed_tag_names(&flat, &vec![3]);
    assert_eq!(names, vec!["work".to_string(), "project".to_string(), "draft".to_string()]);
    let names = indexed_tag_names(&flat, &vec![5, 2]);
    assert_eq!(names, vec!["work".to_string(), "project".to_string(), "home".to_string(), "photos".to_string()]);
    assert!(indexed_tag_names(&flat, &vec![]).is_empty());
    assert!(indexed_tag_names(&flat, &vec![99]).is_empty());
    let (_, entry) = search_entry("a/b.txt", &indexed_tag_names(&flat, &vec![3, 3]));
    assert_eq!(entry, "work project draft");
}

#[test]
fn ancestor_walk_stops_on_a_cycle() {
    let flat = vec![tag(1, "a", Some(2)), tag(2, "b", Some(1)), tag(3, "c", None)];
    assert_eq!(indexed_tag_names(&flat, &vec![1]), vec!["a".to_string(), "b".to_string()]);
}

#[test]
fn tag_cannot_move_under_itself_or_a_descendant() {
    let flat = vec![tag(1, "work", None), tag(2, "project", Some(1)), tag(3, "draft", Some(2)), tag(4, "home", None)];
    let refused = |id: i64| AppError::Other(format!("Tag {} cannot be placed under itself or its descendants", id));
    assert_eq!(check_tag_parent(&flat, 1, Some(3)), Err(refused(1)));
    assert_eq!(check_tag_parent(&flat, 2, Some(2)), Err(refused(2)));
    assert_eq!(check_tag_parent(&flat, 3, Some(4)), Ok(()));
    assert_eq!(check_tag_parent(&flat, 3, Some(1)), Ok(()));
    assert_eq!(check_tag_parent(&flat, 1, None), Ok(()));
}
