use mq_ingest::db::{Cell, DataRow, MQTable, MQTableColumnInfo, MQTableInfo, Timestamp};
use mq_ingest::manager::Manager;
use mq_ingest::mapper::json_to_data_row;

fn row(cells: Vec<(&str, Cell)>) -> DataRow {
    let mut r = DataRow::new();
    for (name, cell) in cells {
        r.insert(name.to_string(), cell);
    }
    r
}

fn column(name: &str, data_type: &str) -> MQTableColumnInfo {
    MQTableColumnInfo::new(name.to_string(), data_type.to_string())
}

fn names(info: &MQTableInfo) -> Vec<String> {
    info.columns().iter().map(|c| c.column_name.clone()).collect()
}

#[test]
fn test_new_manager_knows_no_table() {
    let manager = Manager::new();
    let table = MQTable::from_topic("t");
    assert!(!manager.is_cached(&table));
    assert_eq!(manager.schema(&table), None);
}

#[test]
fn test_baseline_schema() {
    let baseline = Manager::baseline_schema();
    assert_eq!(names(&baseline), vec!["pkey", "raw", "insert_ts", "received_ts"]);
    let columns = baseline.columns();
    assert_eq!(columns[0].definition(), "pkey SERIAL PRIMARY KEY ");
    assert_eq!(columns[1].definition(), "raw TEXT  ");
    assert_eq!(
        columns[2].definition(),
        "insert_ts TIMESTAMP  DEFAULT (CURRENT_TIMESTAMP AT TIME ZONE 'UTC')"
    );
    assert_eq!(columns[3].definition(), "received_ts TIMESTAMP  ");
}

#[test]
fn test_initialize_creates_an_absent_table() {
    let mut manager = Manager::new();
    let table = MQTable::from_topic("a/b");
    let create = manager.initialize(&table, MQTableInfo::new());
    assert_eq!(create, Some(Manager::baseline_schema()));
    assert!(manager.is_cached(&table));
    assert_eq!(manager.schema(&table), Some(&Manager::baseline_schema()));
    assert!(!manager.is_cached(&MQTable::from_topic("a/c")));
}

#[test]
fn test_initialize_keeps_what_the_store_reports() {
    let mut manager = Manager::new();
    let table = MQTable::from_topic("t");
    let found = MQTableInfo::from(vec![column("x", "bigint"), column("y", "text")]);
    assert_eq!(manager.initialize(&table, found.clone()), None);
    assert_eq!(manager.schema(&table), Some(&found));
}

#[test]
fn test_initialize_twice_creates_once() {
    let mut manager = Manager::new();
    let table = MQTable::from_topic("t");
    let mut store = MQTableInfo::new();
    let mut created = 0;
    for _ in 0..2 {
        if let Some(schema) = manager.initialize(&table, store.clone()) {
            created += 1;
            if !store.table_exists() {
                store = schema;
            }
        }
    }
    assert_eq!(created, 1);
    assert_eq!(manager.schema(&table), Some(&Manager::baseline_schema()));
}

#[test]
fn test_insert_before_initialize_asks_for_nothing() {
    let mut manager = Manager::new();
    let table = MQTable::from_topic("t");
    let r = row(vec![("a", Cell::Number(1))]);
    assert_eq!(manager.pre_process(&table, &r), None);
    assert_eq!(manager.insert_many(&table, &vec![r.clone()]), None);
    assert_eq!(manager.insert(&table, r), None);
    assert!(!manager.is_cached(&table));
}

#[test]
fn test_known_columns_add_nothing() {
    let mut manager = Manager::new();
    let table = MQTable::from_topic("t");
    manager.initialize(&table, MQTableInfo::new());
    let r = row(vec![
        ("raw", Cell::JsonObject("{}".to_string())),
        ("received_ts", Cell::DateTime(Timestamp { secs: 0, nanos: 0 })),
    ]);
    assert_eq!(manager.pre_process(&table, &r), Some(Vec::new()));
    let plan = manager.insert(&table, r).unwrap();
    assert!(plan.add_columns.is_empty());
    assert_eq!(
        plan.statement.unwrap().sql,
        "INSERT INTO t (raw, received_ts) VALUES ($1, $2) ON CONFLICT DO NOTHING"
    );
    assert_eq!(manager.schema(&table), Some(&Manager::baseline_schema()));
}

#[test]
fn test_one_unseen_column_is_added_once() {
    let mut manager = Manager::new();
    let table = MQTable::from_topic("t");
    manager.initialize(&table, MQTableInfo::new());
    let r = row(vec![
        ("raw", Cell::JsonObject("{}".to_string())),
        ("value", Cell::Number(23)),
    ]);
    let plan = manager.insert(&table, r.clone()).unwrap();
    assert_eq!(plan.add_columns, vec![column("value", "BIGINT")]);
    assert!(plan.statement.is_some());
    assert_eq!(
        names(manager.schema(&table).unwrap()),
        vec!["pkey", "raw", "insert_ts", "received_ts", "value"]
    );
    assert_eq!(manager.schema(&table).unwrap().get("value"), Some(&column("value", "BIGINT")));
    let again = manager.insert(&table, r).unwrap();
    assert!(again.add_columns.is_empty());
}

#[test]
fn test_columns_are_added_in_the_order_of_the_row() {
    let mut manager = Manager::new();
    let table = MQTable::from_topic("t");
    manager.initialize(&table, MQTableInfo::from(vec![column("m", "text")]));
    let r = row(vec![
        ("z", Cell::Bool(true)),
        ("a", Cell::Null),
        ("m", Cell::Number(1)),
        ("j", Cell::JsonObject("[]".to_string())),
        ("s", Cell::String("x".to_string())),
    ]);
    assert_eq!(
        manager.pre_process(&table, &r),
        Some(vec![
            column("a", "TEXT"),
            column("j", "JSONB"),
            column("s", "TEXT"),
            column("z", "BOOLEAN"),
        ])
    );
    assert_eq!(manager.schema(&table).unwrap().get("m"), Some(&column("m", "text")));
}

#[test]
fn test_insert_many_adds_each_column_once() {
    let mut manager = Manager::new();
    let table = MQTable::from_topic("t");
    manager.initialize(&table, MQTableInfo::new());
    let rows = vec![
        row(vec![("a", Cell::Number(1))]),
        row(vec![("a", Cell::Number(2)), ("b", Cell::Bool(true))]),
        row(vec![("b", Cell::Bool(false)), ("c", Cell::Null)]),
    ];
    let plan = manager.insert_many(&table, &rows).unwrap();
    assert_eq!(
        plan.add_columns,
        vec![column("a", "BIGINT"), column("b", "BOOLEAN"), column("c", "TEXT")]
    );
    let statement = plan.statement.unwrap();
    assert_eq!(
        statement.sql,
        "INSERT INTO t (a) VALUES ($1), ($2), ($3) ON CONFLICT DO NOTHING"
    );
    assert_eq!(statement.params.len(), 5);
    let again = manager.insert_many(&table, &rows).unwrap();
    assert!(again.add_columns.is_empty());
}

#[test]
fn test_insert_many_of_no_rows() {
    let mut manager = Manager::new();
    let table = MQTable::from_topic("t");
    manager.initialize(&table, MQTableInfo::new());
    let plan = manager.insert_many(&table, &Vec::new()).unwrap();
    assert!(plan.add_columns.is_empty());
    assert_eq!(plan.statement, None);
}

#[test]
fn test_tables_are_kept_apart() {
    let mut manager = Manager::new();
    let first = MQTable::from_topic("one");
    let second = MQTable::from_topic("two");
    manager.initialize(&first, MQTableInfo::new());
    manager.initialize(&second, MQTableInfo::from(vec![column("x", "text")]));
    manager.insert(&first, row(vec![("x", Cell::Number(1))])).unwrap();
    assert!(manager.schema(&first).unwrap().has_column("x"));
    assert_eq!(manager.schema(&second).unwrap().len(), 1);
    assert_eq!(manager.schema(&second).unwrap().get("x"), Some(&column("x", "text")));
}

#[test]
fn test_end_to_end_message() {
    let arrived = Timestamp { secs: 1_700_000_000, nanos: 5 };
    let payload = "{\"value\": 23.5, \"unit\": \"C\"}";
    let table = MQTable::from_topic("sensors/temp-1");
    assert_eq!(table.name, "sensors_temp_1");
    let r = json_to_data_row(payload, arrived).unwrap();
    let mut manager = Manager::new();
    assert!(manager.initialize(&table, MQTableInfo::new()).is_some());
    let plan = manager.insert_many(&table, &vec![r]).unwrap();
    assert_eq!(
        plan.add_columns,
        vec![column("unit", "TEXT"), column("value", "BIGINT")]
    );
    assert_eq!(
        names(manager.schema(&table).unwrap()),
        vec!["pkey", "raw", "insert_ts", "received_ts", "unit", "value"]
    );
    let statement = plan.statement.unwrap();
    assert_eq!(
        statement.sql,
        "INSERT INTO sensors_temp_1 (raw, received_ts, unit, value) VALUES ($1, $2, $3, $4) \
         ON CONFLICT DO NOTHING"
    );
    assert_eq!(
        statement.params,
        vec![
            Cell::JsonObject(payload.to_string()),
            Cell::DateTime(arrived),
            Cell::String("C".to_string()),
            Cell::Number(23),
        ]
    );
}

#[test]
fn test_forget_makes_a_table_unknown_again() {
    let mut manager = Manager::new();
    let first = MQTable::from_topic("one");
    let second = MQTable::from_topic("two");
    manager.initialize(&first, MQTableInfo::new());
    manager.initialize(&second, MQTableInfo::new());
    manager.forget(&first);
    assert!(!manager.is_cached(&first));
    assert!(manager.is_cached(&second));
    assert_eq!(manager.insert(&first, row(vec![("a", Cell::Null)])), None);
    manager.forget(&first);
    assert!(manager.is_cached(&second));
    assert!(manager.initialize(&first, MQTableInfo::new()).is_some());
    assert!(manager.is_cached(&first));
}
