//! The typed values of a row.

use vstd::prelude::*;
use vstd::string::StringExecFns;

verus! {

/// An instant on the UTC time line with no zone attached: whole seconds
/// since 1970-01-01T00:00:00, and the nanoseconds into that second.
#[derive(Debug, Clone, Copy, PartialEq, Eq, Hash)]
pub struct Timestamp {
    pub secs: i64,
    pub nanos: u32,
}

/// An instant together with the offset from UTC, in seconds east, of the
/// zone it is told in.
#[derive(Debug, Clone, Copy, PartialEq, Eq, Hash)]
pub struct ZonedTimestamp {
    pub instant: Timestamp,
    pub offset_secs: i32,
}

/// One column's content for one row.
#[derive(Debug, PartialEq, Eq, Hash)]
pub enum Cell {
    /// The text of a JSON array or object, kept as it was received.
    JsonObject(String),
    Number(i64),
    String(String),
    Bool(bool),
    DateTime(Timestamp),
    DateTimeTz(ZonedTimestamp),
    Null,
}

/// What a cell holds, as a mathematical value.
pub enum CellView {
    JsonObject(Seq<char>),
    Number(i64),
    String(Seq<char>),
    Bool(bool),
    DateTime(Timestamp),
    DateTimeTz(ZonedTimestamp),
    Null,
}

impl View for Cell {
    type V = CellView;

    open spec fn view(&self) -> CellView {
        match self {
            Cell::JsonObject(text) => CellView::JsonObject(text@),
            Cell::Number(n) => CellView::Number(*n),
            Cell::String(text) => CellView::String(text@),
            Cell::Bool(b) => CellView::Bool(*b),
            Cell::DateTime(t) => CellView::DateTime(*t),
            Cell::DateTimeTz(t) => CellView::DateTimeTz(*t),
            Cell::Null => CellView::Null,
        }
    }
}

impl Clone for Cell {
    fn clone(&self) -> (r: Self)
        ensures
            r == *self,
    {
        match self {
            Cell::JsonObject(text) => Cell::JsonObject(text.clone()),
            Cell::Number(n) => Cell::Number(*n),
            Cell::String(text) => Cell::String(text.clone()),
            Cell::Bool(b) => Cell::Bool(*b),
            Cell::DateTime(t) => Cell::DateTime(*t),
            Cell::DateTimeTz(t) => Cell::DateTimeTz(*t),
            Cell::Null => Cell::Null,
        }
    }
}

/// The name of the column type that holds a cell of this kind. A null has
/// no kind of its own and goes into a text column.
pub open spec fn column_type(cell: CellView) -> Seq<char> {
    match cell {
        CellView::Number(_) => "BIGINT"@,
        CellView::String(_) => "TEXT"@,
        CellView::Bool(_) => "BOOLEAN"@,
        CellView::Null => "TEXT"@,
        CellView::JsonObject(_) => "JSONB"@,
        CellView::DateTime(_) => "TIMESTAMP"@,
        CellView::DateTimeTz(_) => "TIMESTAMPTZ"@,
    }
}

/// The name of the column type that a new column for this cell is given.
pub fn convert_to_db_type_string(cell: &Cell) -> (s: String)
    ensures
        s@ == column_type(cell@),
{
    match cell {
        Cell::Number(_) => String::from_str("BIGINT"),
        Cell::String(_) => String::from_str("TEXT"),
        Cell::Bool(_) => String::from_str("BOOLEAN"),
        Cell::Null => String::from_str("TEXT"),
        Cell::JsonObject(_) => String::from_str("JSONB"),
        Cell::DateTime(_) => String::from_str("TIMESTAMP"),
        Cell::DateTimeTz(_) => String::from_str("TIMESTAMPTZ"),
    }
}

} // verus!
