use mq_ingest::db::{
    add_column_query, create_table_query, insert_many_query, table_info_query, Cell, DataRow,
    DefaultValue, MQTable, MQTableColumnInfo, MQTableInfo, Modifier,
};
use mq_ingest::manager::Manager;

fn row(cells: Vec<(&str, Cell)>) -> DataRow {
    let mut r = DataRow::new();
    for (name, cell) in cells {
        r.insert(name.to_string(), cell);
    }
    r
}

#[test]
fn test_insert_of_no_rows_is_no_statement() {
    let table = MQTable::from_topic("t");
    assert_eq!(insert_many_query(&Vec::new(), &table), None);
}

#[test]
fn test_insert_of_one_row() {
    let table = MQTable::from_topic("sensors/temp-1");
    let rows = vec![row(vec![
        ("value", Cell::Number(23)),
        ("unit", Cell::String("C".to_string())),
    ])];
    let statement = insert_many_query(&rows, &table).unwrap();
    assert_eq!(
        statement.sql,
        "INSERT INTO sensors_temp_1 (unit, value) VALUES ($1, $2) ON CONFLICT DO NOTHING"
    );
    assert_eq!(
        statement.params,
        vec![Cell::String("C".to_string()), Cell::Number(23)]
    );
}

#[test]
fn test_insert_of_many_rows_binds_row_by_row() {
    let table = MQTable::from_topic("t");
    let rows = vec![
        row(vec![("a", Cell::Number(1)), ("b", Cell::Bool(true))]),
        row(vec![("b", Cell::Bool(false)), ("a", Cell::Number(2))]),
        row(vec![("a", Cell::Number(3)), ("b", Cell::Null)]),
    ];
    let statement = insert_many_query(&rows, &table).unwrap();
    assert_eq!(
        statement.sql,
        "INSERT INTO t (a, b) VALUES ($1, $2), ($3, $4), ($5, $6) ON CONFLICT DO NOTHING"
    );
    assert_eq!(
        statement.params,
        vec![
            Cell::Number(1),
            Cell::Bool(true),
            Cell::Number(2),
            Cell::Bool(false),
            Cell::Number(3),
            Cell::Null,
        ]
    );
}

#[test]
fn test_insert_takes_its_columns_from_the_first_row() {
    let table = MQTable::from_topic("t");
    let rows = vec![
        row(vec![("a", Cell::Number(1))]),
        row(vec![("a", Cell::Number(2)), ("b", Cell::Number(3))]),
    ];
    let statement = insert_many_query(&rows, &table).unwrap();
    assert_eq!(
        statement.sql,
        "INSERT INTO t (a) VALUES ($1), ($2) ON CONFLICT DO NOTHING"
    );
    assert_eq!(
        statement.params,
        vec![Cell::Number(1), Cell::Number(2), Cell::Number(3)]
    );
}

#[test]
fn test_insert_of_rows_without_cells() {
    let table = MQTable::from_topic("t");
    let rows = vec![DataRow::new(), DataRow::new()];
    let statement = insert_many_query(&rows, &table).unwrap();
    assert_eq!(
        statement.sql,
        "INSERT INTO t () VALUES (), () ON CONFLICT DO NOTHING"
    );
    assert!(statement.params.is_empty());
}

#[test]
fn test_add_column_statement() {
    let table = MQTable::from_topic("a/b");
    let column = MQTableColumnInfo::new("value".to_string(), "BIGINT".to_string());
    assert_eq!(
        add_column_query(&table, &column),
        "ALTER TABLE a_b ADD COLUMN IF NOT EXISTS value BIGINT"
    );
}

#[test]
fn test_add_column_statement_leaves_modifier_and_default_out() {
    let table = MQTable::from_topic("t");
    let column = MQTableColumnInfo {
        column_name: "c".to_string(),
        data_type: "TEXT".to_string(),
        modifier: Modifier::Unique,
        default_value: Some(DefaultValue::from("'x'")),
    };
    assert_eq!(
        add_column_query(&table, &column),
        "ALTER TABLE t ADD COLUMN IF NOT EXISTS c TEXT"
    );
}

#[test]
fn test_create_table_statement_for_the_baseline() {
    let table = MQTable::from_topic("sensors/temp-1");
    assert_eq!(
        create_table_query(&table, &Manager::baseline_schema()),
        "CREATE TABLE IF NOT EXISTS sensors_temp_1 (pkey SERIAL PRIMARY KEY , raw TEXT  , \
         insert_ts TIMESTAMP  DEFAULT (CURRENT_TIMESTAMP AT TIME ZONE 'UTC'), \
         received_ts TIMESTAMP  )"
    );
}

#[test]
fn test_create_table_statement_without_columns() {
    let table = MQTable::from_topic("t");
    assert_eq!(
        create_table_query(&table, &MQTableInfo::new()),
        "CREATE TABLE IF NOT EXISTS t ()"
    );
}

#[test]
fn test_table_info_query() {
    assert_eq!(
        table_info_query(),
        "SELECT column_name, data_type FROM information_schema.columns WHERE table_name = $1"
    );
}
