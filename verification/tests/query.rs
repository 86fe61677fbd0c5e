use rusqlite::types::Value;
use rusqlite::{params_from_iter, Connection};
use zotero_exporter_tui::query::{
    attachment_filename, attachment_filenames, either_items_query, item_ids_query, pdf_attachment_queries,
    tagged_items_query, SqlValue, ITEMS_PER_QUERY,
};

fn strings(items: &[&str]) -> Vec<String> {
    items.iter().map(|item| (*item).to_owned()).collect()
}

fn text(value: &str) -> SqlValue {
    SqlValue::Text(value.to_owned())
}

const TAGGED: &str = "SELECT ci.itemID
         FROM collectionItems ci
         JOIN itemTags it ON it.itemID = ci.itemID
         JOIN tags t ON t.tagID = it.tagID
         WHERE ci.collectionID = ? AND lower(t.name) IN (?,?)
         GROUP BY ci.itemID
         HAVING COUNT(DISTINCT lower(t.name)) = ?";

#[test]
fn without_tags_all_items_are_asked_for() {
    let query = item_ids_query(7, &Vec::new());
    assert_eq!(query.sql, "SELECT itemID FROM collectionItems WHERE collectionID = ?1");
    assert_eq!(query.params, vec![SqlValue::Integer(7)]);
}

#[test]
fn tags_are_asked_for_in_lowercase() {
    let query = item_ids_query(7, &strings(&["Reviewed", "übung"]));
    assert_eq!(query.sql, TAGGED);
    assert_eq!(
        query.params,
        vec![SqlValue::Integer(7), text("reviewed"), text("übung"), SqlValue::Integer(2)]
    );
}

#[test]
fn other_capitals_are_asked_for_as_they_are_too() {
    let query = item_ids_query(7, &strings(&["Reviewed", "ÜBUNG"]));
    assert_eq!(query.sql, format!("{}\n         UNION\n         {}", TAGGED, TAGGED));
    assert_eq!(
        query.params,
        vec![
            SqlValue::Integer(7),
            text("reviewed"),
            text("übung"),
            SqlValue::Integer(2),
            SqlValue::Integer(7),
            text("reviewed"),
            text("Übung"),
            SqlValue::Integer(2),
        ]
    );
    assert_eq!(query.sql.matches('?').count(), query.params.len());
}

#[test]
fn two_lists_of_names_are_asked_for_together() {
    let query = either_items_query(3, &strings(&["a"]), &strings(&["b"]));
    assert_eq!(query.sql.matches("UNION").count(), 1);
    assert_eq!(
        query.params,
        vec![
            SqlValue::Integer(3),
            text("a"),
            SqlValue::Integer(1),
            SqlValue::Integer(3),
            text("b"),
            SqlValue::Integer(1),
        ]
    );
    let query = either_items_query(3, &strings(&["a"]), &strings(&["a"]));
    assert_eq!(query.sql.matches("UNION").count(), 0);
    assert_eq!(query.params, vec![SqlValue::Integer(3), text("a"), SqlValue::Integer(1)]);
}

#[test]
fn lowered_tags_go_into_the_query_as_they_are() {
    let query = tagged_items_query(-1, &strings(&["a", "B"]));
    assert_eq!(query.sql, TAGGED);
    assert_eq!(
        query.params,
        vec![SqlValue::Integer(-1), text("a"), text("B"), SqlValue::Integer(2)]
    );
}

#[test]
fn a_query_has_a_question_mark_for_each_parameter() {
    let query = tagged_items_query(1, &strings(&["a", "b", "c"]));
    assert_eq!(query.sql.matches('?').count(), query.params.len());
    let queries = pdf_attachment_queries(&[1, 2, 3, 4]);
    assert_eq!(queries[0].sql.matches('?').count(), queries[0].params.len());
}

#[test]
fn attachments_are_asked_for_by_item() {
    let queries = pdf_attachment_queries(&[4, 2, 9]);
    assert_eq!(queries.len(), 1);
    assert_eq!(
        queries[0].sql,
        "SELECT path FROM itemAttachments WHERE parentItemID IN (?,?,?) AND contentType LIKE '%pdf'"
    );
    assert_eq!(
        queries[0].params,
        vec![SqlValue::Integer(4), SqlValue::Integer(2), SqlValue::Integer(9)]
    );
    assert!(pdf_attachment_queries(&[]).is_empty());
}

#[test]
fn many_items_take_several_questions() {
    let items: Vec<i64> = (0..1001).collect();
    let queries = pdf_attachment_queries(&items);
    let sizes: Vec<usize> = queries.iter().map(|query| query.params.len()).collect();
    assert_eq!(sizes, vec![500, 500, 1]);
    assert_eq!(ITEMS_PER_QUERY, 500);
    let asked: Vec<SqlValue> = queries.into_iter().flat_map(|query| query.params).collect();
    let expected: Vec<SqlValue> = items.into_iter().map(SqlValue::Integer).collect();
    assert_eq!(asked, expected);
    assert_eq!(pdf_attachment_queries(&vec![1; 1000]).len(), 2);
}

#[test]
fn file_names_come_from_the_end_of_the_path() {
    let name = |path: &str| attachment_filename(path);
    assert_eq!(name("storage:Paper 1.pdf").as_deref(), Some("Paper 1.pdf"));
    assert_eq!(name("/home/me/a.pdf").as_deref(), Some("a.pdf"));
    assert_eq!(name("storage:dir/a.pdf/").as_deref(), Some("a.pdf"));
    assert_eq!(name("a/.").as_deref(), Some("a"));
    assert_eq!(name("attachments:x.pdf").as_deref(), Some("attachments:x.pdf"));
    assert_eq!(name("storage:storage:x.pdf").as_deref(), Some("storage:x.pdf"));
}

#[test]
fn file_names_agree_with_those_of_the_standard_paths() {
    for path in [
        "", "/", ".", "./", "..", "a/..", "../a", "a/./.", "./a", "a//b//", "...", "a b",
        "C:\\a\\b.pdf", "A: b.pdf", "//server/share/c.pdf",
    ] {
        let expected = std::path::Path::new(path)
            .file_name()
            .map(|name| name.to_string_lossy().to_string());
        assert_eq!(attachment_filename(path), expected);
    }
}

#[test]
fn paths_without_a_file_name_are_left_out() {
    let paths = vec![
        Some("storage:b.pdf".to_owned()),
        None,
        Some("storage:".to_owned()),
        Some("dir/..".to_owned()),
        Some("a.pdf".to_owned()),
        Some("storage:b.pdf".to_owned()),
    ];
    assert_eq!(attachment_filenames(&paths), strings(&["b.pdf", "a.pdf", "b.pdf"]));
}

fn tagged_library() -> Connection {
    let conn = Connection::open_in_memory().unwrap();
    conn.execute_batch(
        "CREATE TABLE collectionItems (collectionID INTEGER, itemID INTEGER);
         CREATE TABLE tags (tagID INTEGER, name TEXT);
         CREATE TABLE itemTags (itemID INTEGER, tagID INTEGER);
         INSERT INTO tags VALUES (1, 'Über'), (2, 'über'), (3, 'Reviewed'), (4, 'reviewed');
         INSERT INTO collectionItems VALUES (1, 7), (1, 8), (1, 9), (2, 10), (2, 11);
         INSERT INTO itemTags VALUES
             (7, 1), (8, 1), (8, 2), (8, 4), (9, 3), (9, 4), (10, 1), (11, 2), (11, 3);",
    )
    .unwrap();
    conn
}

fn answered(conn: &Connection, col_id: i64, tags: &[&str]) -> Vec<i64> {
    let query = item_ids_query(col_id, &strings(tags));
    let params = query.params.into_iter().map(|value| match value {
        SqlValue::Integer(n) => Value::Integer(n),
        SqlValue::Text(text) => Value::Text(text),
    });
    let mut stmt = conn.prepare(&query.sql).unwrap();
    let rows = stmt.query_map(params_from_iter(params), |row| row.get::<_, i64>(0)).unwrap();
    let mut ids: Vec<i64> = rows.map(|id| id.unwrap()).collect();
    ids.sort();
    ids
}

#[test]
fn the_database_answers_with_the_items_that_have_every_tag() {
    let conn = tagged_library();
    assert_eq!(answered(&conn, 1, &[]), vec![7, 8, 9]);
    assert_eq!(answered(&conn, 1, &["REVIEWED"]), vec![8, 9]);
    assert_eq!(answered(&conn, 1, &["Über"]), vec![7, 8]);
    assert_eq!(answered(&conn, 2, &["ÜBER"]), vec![10, 11]);
    assert_eq!(answered(&conn, 1, &["über"]), vec![8]);
    assert_eq!(answered(&conn, 1, &["Über", "über"]), vec![8]);
    assert_eq!(answered(&conn, 1, &["Über", "reviewed"]), vec![8]);
    assert!(answered(&conn, 1, &["missing"]).is_empty());
    assert_eq!(answered(&conn, 2, &["Über", "Reviewed"]), vec![11]);
    assert_eq!(answered(&conn, 2, &["über"]), vec![11]);
    assert!(answered(&conn, 2, &["Über", "über"]).is_empty());
}

#[test]
fn tags_that_differ_in_ascii_case_alone_have_no_answer() {
    assert!(answered(&tagged_library(), 1, &["Reviewed", "reviewed"]).is_empty());
}
