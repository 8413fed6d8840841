use mq_ingest::utils::{get_wildcard_string, PreDefinedColumn};
use std::collections::HashSet;
use std::str::FromStr;

#[test]
fn test_single_column_single_item() {
    let result = get_wildcard_string(1, 1);
    assert_eq!(result, "($1)");
}

#[test]
fn test_single_column_multiple_items() {
    let result = get_wildcard_string(1, 3);
    assert_eq!(result, "($1), ($2), ($3)");
}

#[test]
fn test_multiple_columns_single_item() {
    let result = get_wildcard_string(3, 1);
    assert_eq!(result, "($1, $2, $3)");
}

#[test]
fn test_multiple_columns_multiple_items() {
    let result = get_wildcard_string(2, 3);
    assert_eq!(result, "($1, $2), ($3, $4), ($5, $6)");
}

#[test]
fn test_large_case() {
    let result = get_wildcard_string(4, 2);
    assert_eq!(result, "($1, $2, $3, $4), ($5, $6, $7, $8)");
}

#[test]
fn test_zero_items() {
    let result = get_wildcard_string(2, 0);
    assert_eq!(result, "()");
}

#[test]
fn test_to_string_and_from_str_roundtrip() {
    let variants = vec![
        PreDefinedColumn::PKey,
        PreDefinedColumn::Raw,
        PreDefinedColumn::InsertTs,
        PreDefinedColumn::ReceivedTs,
    ];

    for v in variants {
        let s = v.to_string();
        let parsed = PreDefinedColumn::from_str(&s).unwrap();
        assert_eq!(v, parsed, "Roundtrip failed for {:?}", v);
    }
}

#[test]
fn test_invalid_from_str() {
    let result = PreDefinedColumn::from_str("not_a_column");
    assert!(result.is_err());
}

#[test]
fn test_to_string_pkey() {
    let col = PreDefinedColumn::PKey;
    assert_eq!(col.to_string(), "pkey");
}

#[test]
fn test_to_string_raw() {
    let col = PreDefinedColumn::Raw;
    assert_eq!(col.to_string(), "raw");
}

#[test]
fn test_to_string_insert_ts() {
    let col = PreDefinedColumn::InsertTs;
    assert_eq!(col.to_string(), "insert_ts");
}

#[test]
fn test_to_string_received_ts() {
    let col = PreDefinedColumn::ReceivedTs;
    assert_eq!(col.to_string(), "received_ts");
}

#[test]
fn test_equality() {
    assert_eq!(PreDefinedColumn::PKey, PreDefinedColumn::PKey);
    assert_ne!(PreDefinedColumn::PKey, PreDefinedColumn::Raw);
}

#[test]
fn test_cloning() {
    let col = PreDefinedColumn::InsertTs;
    let cloned = col.clone();
    assert_eq!(col, cloned);
}

#[test]
fn test_hashing_unique() {
    let mut set = HashSet::new();
    set.insert(PreDefinedColumn::PKey);
    set.insert(PreDefinedColumn::Raw);
    set.insert(PreDefinedColumn::InsertTs);
    set.insert(PreDefinedColumn::ReceivedTs);

    assert_eq!(set.len(), 4);
}

#[test]
fn test_from_str_through_parse() {
    let parsed: Result<PreDefinedColumn, _> = "insert_ts".parse();
    assert_eq!(parsed, Ok(PreDefinedColumn::InsertTs));
}

#[test]
fn test_unknown_column_message() {
    let err = PreDefinedColumn::from_str("colour").unwrap_err();
    assert_eq!(err.name, "colour");
    assert_eq!(err.message(), "Unknown PreDefinedColumn: colour");
}

#[test]
fn test_zero_columns() {
    assert_eq!(get_wildcard_string(0, 0), "()");
    assert_eq!(get_wildcard_string(0, 2), "(), ()");
}

#[test]
fn test_numbers_past_nine() {
    assert_eq!(
        get_wildcard_string(4, 3),
        "($1, $2, $3, $4), ($5, $6, $7, $8), ($9, $10, $11, $12)"
    );
}
