//! The data that moves between the broker and the store, and the statements
//! that carry it there.

pub mod assoc;
pub mod cell;
pub mod row;
pub mod sql;
pub mod table;

pub use self::cell::{convert_to_db_type_string, Cell, CellView, Timestamp, ZonedTimestamp};
pub use self::row::DataRow;
pub use self::sql::{
    add_column_query, create_table_query, insert_many_query, table_info_query, InsertStatement,
};
pub use self::table::{
    ColumnView, DefaultValue, MQTable, MQTableColumnInfo, MQTableInfo, Modifier,
};
