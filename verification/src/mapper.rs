//! From a message's payload to a row.

pub mod json;
pub mod number;

use crate::db::assoc::{has_key, lemma_pairs_map_dom, pairs_map};
use crate::db::cell::{Cell, CellView, Timestamp};
use crate::db::row::DataRow;
use crate::mapper::json::{
    json_object_members, json_string_value, member_views, object_members, string_value, utf8_text,
};
use crate::mapper::number::{number_value, truncate_number};
use crate::text::{chars_of, str_eq};
use crate::utils::{lemma_names_distinct, PreDefinedColumn};
use vstd::prelude::*;
use vstd::string::{StringExecFns, StringSliceAdditionalSpecFns};

verus! {

/// Why a payload gives no row.
#[derive(Debug, Clone, Copy, PartialEq, Eq)]
pub enum ParseError {
    /// The payload is not UTF-8 text.
    InvalidUtf8,
    /// The payload is not JSON, or is a JSON value other than an object.
    InvalidJson,
}

impl ParseError {
    /// The text of the error.
    pub fn message(&self) -> (s: String)
        ensures
            s@ == match self {
                ParseError::InvalidUtf8 => "Payload is not UTF-8"@,
                ParseError::InvalidJson => "Not a JSON object"@,
            },
    {
        match self {
            ParseError::InvalidUtf8 => String::from_str("Payload is not UTF-8"),
            ParseError::InvalidJson => String::from_str("Not a JSON object"),
        }
    }
}

/// Whether the text starts with `c`.
pub open spec fn starts_with(raw: Seq<char>, c: char) -> bool {
    raw.len() > 0 && raw[0] == c
}

/// The cell for a member whose value is written `raw`, where `text` is the
/// string that `raw` denotes if it denotes one.
///
/// A null is a null, a boolean a boolean and a string its text. An array or
/// an object is kept as its text. Anything else is a number and becomes a
/// 64-bit integer.
pub open spec fn classified(raw: Seq<char>, text: Option<Seq<char>>) -> CellView {
    if raw == "null"@ {
        CellView::Null
    } else if raw == "true"@ {
        CellView::Bool(true)
    } else if raw == "false"@ {
        CellView::Bool(false)
    } else if starts_with(raw, '"') {
        match text {
            Some(t) => CellView::String(t),
            None => CellView::JsonObject(raw),
        }
    } else if starts_with(raw, '[') || starts_with(raw, '{') {
        CellView::JsonObject(raw)
    } else {
        CellView::Number(number_value(raw))
    }
}

/// The cell for a member whose value is written `raw`.
pub open spec fn member_cell(raw: Seq<char>) -> CellView {
    classified(raw, json_string_value(raw))
}

/// The cell for a member whose value is written `raw`, given the string
/// that `raw` denotes if it denotes one.
pub fn classify_member(raw: &str, text: Option<String>) -> (cell: Cell)
    ensures
        cell@ == classified(
            raw@,
            match text {
                Some(t) => Some(t@),
                None => None,
            },
        ),
{
    if str_eq(raw, "null") {
        return Cell::Null;
    }
    if str_eq(raw, "true") {
        return Cell::Bool(true);
    }
    if str_eq(raw, "false") {
        return Cell::Bool(false);
    }
    let chars = chars_of(raw);
    if chars.len() > 0 && chars[0] == '"' {
        match text {
            Some(t) => Cell::String(t),
            None => Cell::JsonObject(String::from_str(raw)),
        }
    } else if chars.len() > 0 && (chars[0] == '[' || chars[0] == '{') {
        Cell::JsonObject(String::from_str(raw))
    } else {
        Cell::Number(truncate_number(raw))
    }
}

/// The cell for a member whose value is written `raw`.
pub fn json_value_to_cell(raw: &str) -> (cell: Cell)
    ensures
        cell@ == member_cell(raw@),
{
    let text = match string_value(raw) {
        Ok(t) => Some(t),
        Err(_) => None,
    };
    classify_member(raw, text)
}

/// The cells of a list of named cells, as mathematical values.
pub open spec fn cell_views(cells: Seq<(String, Cell)>) -> Seq<(Seq<char>, CellView)> {
    cells.map_values(|c: (String, Cell)| (c.0@, c.1@))
}

/// The cells together with the two reserved ones: `raw` holds the whole
/// payload and `received_ts` the time of arrival, whatever the cells held
/// under those names.
pub open spec fn with_reserved(
    cells: Map<Seq<char>, CellView>,
    json: Seq<char>,
    timestamp: Timestamp,
) -> Map<Seq<char>, CellView> {
    cells.insert(PreDefinedColumn::Raw.name(), CellView::JsonObject(json)).insert(
        PreDefinedColumn::ReceivedTs.name(),
        CellView::DateTime(timestamp),
    )
}

/// The row for a payload `json` that arrived at `timestamp`, from the cells
/// of its members.
pub fn row_from_cells(json: &str, cells: Vec<(String, Cell)>, timestamp: Timestamp) -> (row:
    DataRow)
    ensures
        row@ == with_reserved(pairs_map(cell_views(cells@)), json@, timestamp),
{
    let mut row = DataRow::new();
    let mut i: usize = 0;
    assert(cell_views(cells@).take(0) =~= Seq::<(Seq<char>, CellView)>::empty());
    while i < cells.len()
        invariant
            i <= cells.len(),
            row@ == pairs_map(cell_views(cells@).take(i as int)),
        decreases cells.len() - i,
    {
        row.insert(cells[i].0.clone(), cells[i].1.clone());
        i += 1;
        assert(cell_views(cells@).take(i as int).drop_last() =~= cell_views(cells@).take(i - 1));
    }
    assert(cell_views(cells@).take(i as int) =~= cell_views(cells@));
    row.insert(PreDefinedColumn::Raw.to_string(), Cell::JsonObject(String::from_str(json)));
    row.insert(PreDefinedColumn::ReceivedTs.to_string(), Cell::DateTime(timestamp));
    row
}

/// The members with the cells for their values.
pub open spec fn member_cells(members: Seq<(Seq<char>, Seq<char>)>) -> Seq<
    (Seq<char>, CellView),
> {
    members.map_values(|m: (Seq<char>, Seq<char>)| (m.0, member_cell(m.1)))
}

/// The row for a payload `json` with the given members that arrived at
/// `timestamp`.
pub open spec fn mapped_row(
    json: Seq<char>,
    members: Seq<(Seq<char>, Seq<char>)>,
    timestamp: Timestamp,
) -> Map<Seq<char>, CellView> {
    with_reserved(pairs_map(member_cells(members)), json, timestamp)
}

/// The row has the names of the members and the two reserved names, and no
/// others. Under the reserved names it holds the payload and the time of
/// arrival, whatever the payload's own members of those names say. Under
/// every other name it holds the cell for the last value that the payload
/// gives the name.
pub proof fn lemma_mapped_row(
    json: Seq<char>,
    members: Seq<(Seq<char>, Seq<char>)>,
    timestamp: Timestamp,
)
    ensures
        forall|name: Seq<char>| #[trigger]
            mapped_row(json, members, timestamp).dom().contains(name) <==> (has_key(members, name)
                || name == PreDefinedColumn::Raw.name() || name
                == PreDefinedColumn::ReceivedTs.name()),
        mapped_row(json, members, timestamp)[PreDefinedColumn::Raw.name()]
            == CellView::JsonObject(json),
        mapped_row(json, members, timestamp)[PreDefinedColumn::ReceivedTs.name()]
            == CellView::DateTime(timestamp),
        forall|i: int|
            0 <= i < members.len() && (#[trigger] members[i]).0 != PreDefinedColumn::Raw.name()
                && members[i].0 != PreDefinedColumn::ReceivedTs.name() && (forall|j: int|
                i < j < members.len() ==> (#[trigger] members[j]).0 != members[i].0)
                ==> mapped_row(json, members, timestamp)[members[i].0] == member_cell(
                members[i].1,
            ),
{
    lemma_names_distinct(PreDefinedColumn::Raw, PreDefinedColumn::ReceivedTs);
    let cells = member_cells(members);
    lemma_pairs_map_dom(cells);
    assert forall|name: Seq<char>| has_key(cells, name) <==> has_key(members, name) by {
        if has_key(cells, name) {
            let i = choose|i: int| 0 <= i < cells.len() && #[trigger] cells[i].0 == name;
            assert(members[i].0 == name);
        }
        if has_key(members, name) {
            let i = choose|i: int| 0 <= i < members.len() && #[trigger] members[i].0 == name;
            assert(cells[i].0 == name);
        }
    }
    assert forall|i: int|
        0 <= i < members.len() && (#[trigger] members[i]).0 != PreDefinedColumn::Raw.name()
            && members[i].0 != PreDefinedColumn::ReceivedTs.name() && (forall|j: int|
            i < j < members.len() ==> (#[trigger] members[j]).0
                != members[i].0) implies mapped_row(json, members, timestamp)[members[i].0]
        == member_cell(members[i].1) by {
        assert forall|j: int| i < j < cells.len() implies (#[trigger] cells[j]).0
            != cells[i].0 by {
            assert(members[j].0 != members[i].0);
        }
        lemma_last_binding(cells, i);
    }
}

/// A key is bound to the value beside its last occurrence in the list.
pub proof fn lemma_last_binding<V>(pairs: Seq<(Seq<char>, V)>, i: int)
    requires
        0 <= i < pairs.len(),
        forall|j: int| i < j < pairs.len() ==> (#[trigger] pairs[j]).0 != pairs[i].0,
    ensures
        pairs_map(pairs).dom().contains(pairs[i].0),
        pairs_map(pairs)[pairs[i].0] == pairs[i].1,
    decreases pairs.len(),
{
    if i < pairs.len() - 1 {
        let front = pairs.drop_last();
        assert(pairs[pairs.len() - 1].0 != pairs[i].0);
        assert forall|j: int| i < j < front.len() implies (#[trigger] front[j]).0
            != front[i].0 by {
            assert(pairs[j].0 != pairs[i].0);
        }
        lemma_last_binding(front, i);
    }
}

/// Maps the text of a payload that arrived at `timestamp` to a row.
///
/// The payload must be one JSON object. Each member becomes a cell under the
/// member's name; `raw` and `received_ts` are then set to the payload and to
/// the time of arrival.
pub fn json_to_data_row(json: &str, timestamp: Timestamp) -> (r: Result<DataRow, ParseError>)
    ensures
        match r {
            Ok(row) => json_object_members(json@) matches Some(members) && row@ == mapped_row(
                json@,
                members,
                timestamp,
            ),
            Err(e) => json_object_members(json@) is None && e == ParseError::InvalidJson,
        },
{
    match object_members(json) {
        Err(_) => Err(ParseError::InvalidJson),
        Ok(members) => {
            let mut cells: Vec<(String, Cell)> = Vec::new();
            let mut i: usize = 0;
            while i < members.len()
                invariant
                    i <= members.len(),
                    cell_views(cells@) == member_cells(member_views(members@)).take(i as int),
                decreases members.len() - i,
            {
                let cell = json_value_to_cell(members[i].1.as_str());
                let ghost done = cell_views(cells@);
                let name = members[i].0.clone();
                cells.push((name, cell));
                assert(cell_views(cells@) =~= done.push((name@, cell@)));
                assert(member_cells(member_views(members@)).take(i + 1) =~= done.push(
                    (name@, cell@),
                ));
                i += 1;
            }
            assert(member_cells(member_views(members@)).take(i as int) =~= member_cells(
                member_views(members@),
            ));
            Ok(row_from_cells(json, cells, timestamp))
        },
    }
}

/// Maps a payload that arrived at `timestamp` to a row.
///
/// The payload must be UTF-8 text, and the text one JSON object.
pub fn map_payload(payload: &[u8], timestamp: Timestamp) -> (r: Result<DataRow, ParseError>)
    ensures
        !vstd::utf8::valid_utf8(payload@) ==> r == Err::<DataRow, ParseError>(
            ParseError::InvalidUtf8,
        ),
        vstd::utf8::valid_utf8(payload@) ==> match r {
            Ok(row) => json_object_members(vstd::utf8::decode_utf8(payload@)) matches Some(
                members,
            ) && row@ == mapped_row(vstd::utf8::decode_utf8(payload@), members, timestamp),
            Err(e) => json_object_members(vstd::utf8::decode_utf8(payload@)) is None && e
                == ParseError::InvalidJson,
        },
{
    match utf8_text(payload) {
        Err(_) => Err(ParseError::InvalidUtf8),
        Ok(json) => {
            proof {
                vstd::utf8::encode_utf8_decode_utf8(json@);
            }
            json_to_data_row(json, timestamp)
        },
    }
}

} // verus!
