use mq_ingest::db::{Cell, DataRow};

#[test]
fn test_new_row_is_empty() {
    let row = DataRow::new();
    assert_eq!(row.len(), 0);
    assert!(row.keys().is_empty());
    assert_eq!(row.get("a"), None);
    assert!(!row.contains_key("a"));
}

#[test]
fn test_insert_and_get() {
    let mut row = DataRow::new();
    row.insert("b".to_string(), Cell::Number(2));
    row.insert("a".to_string(), Cell::Number(1));
    assert_eq!(row.len(), 2);
    assert_eq!(row.get("a"), Some(&Cell::Number(1)));
    assert_eq!(row.get("b"), Some(&Cell::Number(2)));
    assert_eq!(row.get("c"), None);
    assert!(row.contains_key("a"));
    assert!(!row.contains_key("ab"));
}

#[test]
fn test_insert_replaces_the_cell_of_a_column() {
    let mut row = DataRow::new();
    row.insert("a".to_string(), Cell::Number(1));
    row.insert("a".to_string(), Cell::Bool(true));
    assert_eq!(row.len(), 1);
    assert_eq!(row.get("a"), Some(&Cell::Bool(true)));
}

#[test]
fn test_columns_are_kept_in_order_of_name() {
    let mut row = DataRow::new();
    for name in ["value", "b", "raw", "ab", "", "a", "received_ts", "B", "é"] {
        row.insert(name.to_string(), Cell::Null);
    }
    assert_eq!(
        row.keys(),
        vec!["", "B", "a", "ab", "b", "raw", "received_ts", "value", "é"]
    );
    assert_eq!(row.key_at(0), "");
    assert_eq!(row.key_at(8), "é");
}

#[test]
fn test_rows_with_the_same_columns_list_them_alike() {
    let mut first = DataRow::new();
    first.insert("x".to_string(), Cell::Number(1));
    first.insert("y".to_string(), Cell::Number(2));
    let mut second = DataRow::new();
    second.insert("y".to_string(), Cell::Number(2));
    second.insert("x".to_string(), Cell::Number(1));
    assert_eq!(first, second);
    assert_eq!(first.keys(), second.keys());
    assert_eq!(first.cell_at(0), &Cell::Number(1));
    assert_eq!(second.cell_at(1), &Cell::Number(2));
    assert_eq!(first.clone(), second);
}
