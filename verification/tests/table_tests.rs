use mq_ingest::db::{
    convert_to_db_type_string, Cell, DefaultValue, MQTable, MQTableColumnInfo, MQTableInfo,
    Modifier, Timestamp, ZonedTimestamp,
};

fn column(name: &str, data_type: &str) -> MQTableColumnInfo {
    MQTableColumnInfo::new(name.to_string(), data_type.to_string())
}

#[test]
fn test_from_topic_replaces_separators() {
    assert_eq!(MQTable::from_topic("sensors/temp-1").name, "sensors_temp_1");
    assert_eq!(MQTable::from_topic("a.b/c-d").name, "a_b_c_d");
    assert_eq!(MQTable::from_topic("plain").name, "plain");
    assert_eq!(MQTable::from_topic("").name, "");
    assert_eq!(MQTable::from_topic("/-.").name, "___");
}

#[test]
fn test_from_topic_keeps_other_characters() {
    assert_eq!(MQTable::from_topic("Größe/°C #1").name, "Größe_°C #1");
    assert_eq!(MQTable::from_topic("a_b+c").name, "a_b+c");
}

#[test]
fn test_from_topic_is_idempotent() {
    for topic in ["sensors/temp-1", "a.b.c", "x", "", "a//b--c..d", "é/ü"] {
        let once = MQTable::from_topic(topic);
        let twice = MQTable::from_topic(&once.name);
        assert_eq!(once, twice);
    }
}

#[test]
fn test_topics_that_share_a_table() {
    assert_eq!(MQTable::from_topic("a/b"), MQTable::from_topic("a-b"));
    assert_eq!(MQTable::from_topic("a/b"), MQTable::from_topic("a.b"));
    assert_ne!(MQTable::from_topic("a/b"), MQTable::from_topic("a/c"));
}

#[test]
fn test_modifier_keywords() {
    assert_eq!(Modifier::NotNull.to_db_string(), "NOT NULL");
    assert_eq!(Modifier::PrimaryKey.to_db_string(), "PRIMARY KEY");
    assert_eq!(Modifier::Unique.to_db_string(), "UNIQUE");
    assert_eq!(Modifier::Plain.to_db_string(), "");
    assert_eq!(Modifier::default(), Modifier::Plain);
}

#[test]
fn test_default_value_clause() {
    let from_string = DefaultValue::from("now()".to_string());
    let from_str = DefaultValue::from("now()");
    assert_eq!(from_string, from_str);
    assert_eq!(from_str.value(), "now()");
    assert_eq!(from_str.to_db_string(), "DEFAULT (now())");
    assert_eq!(DefaultValue::new(String::new()).to_db_string(), "DEFAULT ()");
}

#[test]
fn test_column_definition() {
    assert_eq!(column("value", "BIGINT").definition(), "value BIGINT  ");
    let key = MQTableColumnInfo {
        column_name: "pkey".to_string(),
        data_type: "SERIAL".to_string(),
        modifier: Modifier::PrimaryKey,
        default_value: None,
    };
    assert_eq!(key.definition(), "pkey SERIAL PRIMARY KEY ");
    let stamped = MQTableColumnInfo {
        column_name: "insert_ts".to_string(),
        data_type: "TIMESTAMP".to_string(),
        modifier: Modifier::NotNull,
        default_value: Some(DefaultValue::from("CURRENT_TIMESTAMP")),
    };
    assert_eq!(
        stamped.definition(),
        "insert_ts TIMESTAMP NOT NULL DEFAULT (CURRENT_TIMESTAMP)"
    );
}

#[test]
fn test_column_default() {
    let c = MQTableColumnInfo::default();
    assert_eq!(c.column_name, "");
    assert_eq!(c.data_type, "");
    assert_eq!(c.modifier, Modifier::Plain);
    assert_eq!(c.default_value, None);
    assert_eq!(c.clone(), c);
}

#[test]
fn test_table_info_empty() {
    let info = MQTableInfo::default();
    assert!(!info.table_exists());
    assert_eq!(info.len(), 0);
    assert!(!info.has_column("raw"));
    assert!(info.columns().is_empty());
    assert_eq!(info, MQTableInfo::new());
    assert_eq!(info, MQTableInfo::from(Vec::new()));
}

#[test]
fn test_table_info_from_columns() {
    let info = MQTableInfo::from(vec![column("a", "TEXT"), column("b", "BIGINT")]);
    assert!(info.table_exists());
    assert_eq!(info.len(), 2);
    assert!(info.has_column("a"));
    assert!(info.has_column("b"));
    assert!(!info.has_column("c"));
    assert!(!info.has_column("A"));
    assert!(!info.has_column(""));
    let columns = info.columns();
    assert_eq!(columns.len(), 2);
    assert_eq!(columns[0], &column("a", "TEXT"));
    assert_eq!(columns[1], &column("b", "BIGINT"));
    assert_eq!(info.get("b"), Some(&column("b", "BIGINT")));
    assert_eq!(info.get("z"), None);
    assert_eq!(info.position("b"), Some(1));
    assert_eq!(info.position("z"), None);
}

#[test]
fn test_table_info_later_description_replaces_earlier() {
    let info = MQTableInfo::from(vec![
        column("a", "TEXT"),
        column("b", "BIGINT"),
        column("a", "JSONB"),
    ]);
    assert_eq!(info.len(), 2);
    assert_eq!(info.get("a"), Some(&column("a", "JSONB")));
    let columns = info.columns();
    assert_eq!(columns[0].column_name, "a");
    assert_eq!(columns[1].column_name, "b");
}

#[test]
fn test_table_info_insert() {
    let mut info = MQTableInfo::new();
    info.insert(column("a", "TEXT"));
    info.insert(column("b", "TEXT"));
    info.insert(column("a", "BOOLEAN"));
    assert_eq!(info.len(), 2);
    assert_eq!(info.get("a").unwrap().data_type, "BOOLEAN");
    assert_eq!(info.clone(), info);
}

#[test]
fn test_column_type_of_each_cell() {
    let instant = Timestamp { secs: 1, nanos: 2 };
    assert_eq!(convert_to_db_type_string(&Cell::Number(7)), "BIGINT");
    assert_eq!(convert_to_db_type_string(&Cell::String("x".to_string())), "TEXT");
    assert_eq!(convert_to_db_type_string(&Cell::Bool(true)), "BOOLEAN");
    assert_eq!(convert_to_db_type_string(&Cell::Null), "TEXT");
    assert_eq!(convert_to_db_type_string(&Cell::JsonObject("[]".to_string())), "JSONB");
    assert_eq!(convert_to_db_type_string(&Cell::DateTime(instant)), "TIMESTAMP");
    assert_eq!(
        convert_to_db_type_string(&Cell::DateTimeTz(ZonedTimestamp { instant, offset_secs: 3600 })),
        "TIMESTAMPTZ"
    );
}

#[test]
fn test_cell_clone_keeps_the_value() {
    let cells = vec![
        Cell::JsonObject("{\"a\":1}".to_string()),
        Cell::Number(-3),
        Cell::String("text".to_string()),
        Cell::Bool(false),
        Cell::DateTime(Timestamp { secs: 5, nanos: 6 }),
        Cell::Null,
    ];
    for cell in cells {
        assert_eq!(cell.clone(), cell);
    }
}
