//! From the events of one consumption cycle to one batch of rows per table.

use crate::db::cell::{CellView, Timestamp};
use crate::db::row::DataRow;
use crate::db::table::{table_name, MQTable};
use crate::mapper::json::json_object_members;
use crate::mapper::{map_payload, mapped_row, ParseError};
use crate::text::str_eq;
use vstd::prelude::*;

verus! {

/// A message as the broker delivered it: the topic, the payload, and the time
/// of arrival.
#[derive(Debug, PartialEq, Eq)]
pub struct MessagePayload {
    pub topic: String,
    pub payload: Vec<u8>,
    pub timestamp: Timestamp,
}

/// What a message holds, as a mathematical value.
pub struct MessageView {
    pub topic: Seq<char>,
    pub payload: Seq<u8>,
    pub timestamp: Timestamp,
}

impl View for MessagePayload {
    type V = MessageView;

    open spec fn view(&self) -> MessageView {
        MessageView { topic: self.topic@, payload: self.payload@, timestamp: self.timestamp }
    }
}

impl From<(String, Vec<u8>, Timestamp)> for MessagePayload {
    fn from(value: (String, Vec<u8>, Timestamp)) -> (m: MessagePayload)
        ensures
            m.topic == value.0,
            m.payload == value.1,
            m.timestamp == value.2,
    {
        MessagePayload { topic: value.0, payload: value.1, timestamp: value.2 }
    }
}

impl vstd::std_specs::convert::FromSpecImpl<(String, Vec<u8>, Timestamp)> for MessagePayload {
    open spec fn obeys_from_spec() -> bool {
        true
    }

    open spec fn from_spec(value: (String, Vec<u8>, Timestamp)) -> MessagePayload {
        MessagePayload { topic: value.0, payload: value.1, timestamp: value.2 }
    }
}

/// The rows of one cycle that go to one table, in the order of their
/// arrival.
#[derive(Debug, PartialEq, Eq)]
pub struct TableBatch {
    pub table: MQTable,
    pub rows: Vec<DataRow>,
}

/// A row as the map from its column names to its cells.
pub type RowView = Map<Seq<char>, CellView>;

impl View for TableBatch {
    type V = (Seq<char>, Seq<RowView>);

    open spec fn view(&self) -> (Seq<char>, Seq<RowView>) {
        (self.table@, self.rows@.map_values(|r: DataRow| r@))
    }
}

/// The tables that the rows go to, each once, in the order in which they
/// first occur.
pub open spec fn tables_seen(rows: Seq<(Seq<char>, RowView)>) -> Seq<Seq<char>>
    decreases rows.len(),
{
    if rows.len() == 0 {
        Seq::empty()
    } else {
        let before = tables_seen(rows.drop_last());
        if before.contains(rows.last().0) {
            before
        } else {
            before.push(rows.last().0)
        }
    }
}

/// The rows that go to `table`, in their order.
pub open spec fn rows_of(rows: Seq<(Seq<char>, RowView)>, table: Seq<char>) -> Seq<RowView>
    decreases rows.len(),
{
    if rows.len() == 0 {
        Seq::empty()
    } else {
        let before = rows_of(rows.drop_last(), table);
        if rows.last().0 == table {
            before.push(rows.last().1)
        } else {
            before
        }
    }
}

/// One batch for each table that a row goes to, in the order in which the
/// tables first occur; each batch holds the rows for its table, in their
/// order.
pub open spec fn grouped(rows: Seq<(Seq<char>, RowView)>) -> Seq<(Seq<char>, Seq<RowView>)> {
    tables_seen(rows).map_values(|t: Seq<char>| (t, rows_of(rows, t)))
}

/// The tables of the batches are those that a row goes to, and none occurs
/// twice: each table gets exactly one batch, and a table to which no row
/// goes gets none.
pub proof fn lemma_tables_seen(rows: Seq<(Seq<char>, RowView)>)
    ensures
        tables_seen(rows).no_duplicates(),
        forall|t: Seq<char>| #[trigger]
            tables_seen(rows).contains(t) <==> exists|i: int|
                0 <= i < rows.len() && (#[trigger] rows[i]).0 == t,
    decreases rows.len(),
{
    if rows.len() > 0 {
        let front = rows.drop_last();
        lemma_tables_seen(front);
        let before = tables_seen(front);
        let all = tables_seen(rows);
        assert forall|t: Seq<char>| #[trigger] all.contains(t) <==> exists|i: int|
            0 <= i < rows.len() && (#[trigger] rows[i]).0 == t by {
            if all.contains(t) {
                let k = choose|k: int| 0 <= k < all.len() && all[k] == t;
                if k < before.len() {
                    assert(before[k] == t);
                    assert(before.contains(t));
                    let i = choose|i: int| 0 <= i < front.len() && (#[trigger] front[i]).0 == t;
                    assert(rows[i].0 == t);
                } else {
                    assert(rows[rows.len() - 1].0 == t);
                }
            }
            if exists|i: int| 0 <= i < rows.len() && (#[trigger] rows[i]).0 == t {
                let i = choose|i: int| 0 <= i < rows.len() && (#[trigger] rows[i]).0 == t;
                if i < front.len() {
                    assert(front[i].0 == t);
                    assert(before.contains(t));
                    let k = choose|k: int| 0 <= k < before.len() && before[k] == t;
                    assert(all[k] == t);
                } else if before.contains(t) {
                    let k = choose|k: int| 0 <= k < before.len() && before[k] == t;
                    assert(all[k] == t);
                } else {
                    assert(all[all.len() - 1] == t);
                }
            }
        }
    }
}

/// No row goes to a table that is not among those seen.
pub proof fn lemma_rows_of_unseen(rows: Seq<(Seq<char>, RowView)>, table: Seq<char>)
    requires
        !tables_seen(rows).contains(table),
    ensures
        rows_of(rows, table) == Seq::<RowView>::empty(),
    decreases rows.len(),
{
    if rows.len() > 0 {
        let front = rows.drop_last();
        let before = tables_seen(front);
        if before.contains(rows.last().0) {
            lemma_rows_of_unseen(front, table);
        } else {
            assert(tables_seen(rows).last() == rows.last().0);
            assert(rows.last().0 != table);
            assert(!before.contains(table)) by {
                if before.contains(table) {
                    let k = choose|k: int| 0 <= k < before.len() && before[k] == table;
                    assert(tables_seen(rows)[k] == table);
                }
            }
            lemma_rows_of_unseen(front, table);
        }
    }
}

/// How one more row changes the batches: it joins the batch of its table, or
/// opens a batch of its own after the others where its table has none.
pub proof fn lemma_grouped_step(rows: Seq<(Seq<char>, RowView)>)
    requires
        rows.len() > 0,
    ensures
        tables_seen(rows.drop_last()).contains(rows.last().0) ==> grouped(rows).len() == grouped(
            rows.drop_last(),
        ).len() && forall|k: int|
            0 <= k < grouped(rows).len() ==> #[trigger] grouped(rows)[k] == if grouped(
                rows.drop_last(),
            )[k].0 == rows.last().0 {
                (rows.last().0, grouped(rows.drop_last())[k].1.push(rows.last().1))
            } else {
                grouped(rows.drop_last())[k]
            },
        !tables_seen(rows.drop_last()).contains(rows.last().0) ==> grouped(rows) == grouped(
            rows.drop_last(),
        ).push((rows.last().0, seq![rows.last().1])),
{
    let front = rows.drop_last();
    let table = rows.last().0;
    let seen = tables_seen(front);
    if seen.contains(table) {
        assert forall|k: int| 0 <= k < grouped(rows).len() implies #[trigger] grouped(rows)[k]
            == if grouped(front)[k].0 == table {
            (table, grouped(front)[k].1.push(rows.last().1))
        } else {
            grouped(front)[k]
        } by {
            assert(grouped(front)[k].0 == seen[k]);
        }
    } else {
        lemma_rows_of_unseen(front, table);
        let want = grouped(front).push((table, seq![rows.last().1]));
        assert(grouped(rows).len() == want.len());
        assert forall|k: int| 0 <= k < want.len() implies grouped(rows)[k] == want[k] by {
            if k < seen.len() {
                assert(seen[k] != table);
            } else {
                assert(rows_of(rows, table) =~= seq![rows.last().1]);
            }
        }
        assert(grouped(rows) =~= want);
    }
}

/// The number of rows in all the batches.
pub open spec fn total_rows(batches: Seq<(Seq<char>, Seq<RowView>)>) -> nat
    decreases batches.len(),
{
    if batches.len() == 0 {
        0
    } else {
        total_rows(batches.drop_last()) + batches.last().1.len()
    }
}

/// Batches that differ in one batch, which has one row more, hold one row
/// more.
proof fn lemma_total_rows_one_more(
    a: Seq<(Seq<char>, Seq<RowView>)>,
    b: Seq<(Seq<char>, Seq<RowView>)>,
    at: int,
)
    requires
        a.len() == b.len(),
        0 <= at < a.len(),
        b[at].1.len() == a[at].1.len() + 1,
        forall|k: int| 0 <= k < a.len() && k != at ==> a[k] == b[k],
    ensures
        total_rows(b) == total_rows(a) + 1,
    decreases a.len(),
{
    if at == a.len() - 1 {
        assert(a.drop_last() =~= b.drop_last());
    } else {
        assert(a.last() == b.last());
        lemma_total_rows_one_more(a.drop_last(), b.drop_last(), at);
    }
}

/// Grouping loses no row and repeats none: the batches hold as many rows as
/// were given.
pub proof fn lemma_grouped_total(rows: Seq<(Seq<char>, RowView)>)
    ensures
        total_rows(grouped(rows)) == rows.len(),
    decreases rows.len(),
{
    if rows.len() > 0 {
        let front = rows.drop_last();
        let table = rows.last().0;
        let seen = tables_seen(front);
        lemma_grouped_total(front);
        lemma_grouped_step(rows);
        if seen.contains(table) {
            lemma_tables_seen(front);
            let at = choose|k: int| 0 <= k < seen.len() && seen[k] == table;
            assert(grouped(front)[at].0 == table);
            assert(grouped(rows)[at] == (table, grouped(front)[at].1.push(rows.last().1)));
            assert forall|k: int| 0 <= k < seen.len() && k != at implies grouped(front)[k]
                == grouped(rows)[k] by {
                assert(seen[k] != seen[at]);
                assert(grouped(front)[k].0 == seen[k]);
            }
            lemma_total_rows_one_more(grouped(front), grouped(rows), at);
        } else {
            assert(grouped(rows).drop_last() =~= grouped(front));
        }
    }
}

/// The views of a list of batches.
pub open spec fn batch_views(batches: Seq<TableBatch>) -> Seq<(Seq<char>, Seq<RowView>)> {
    batches.map_values(|b: TableBatch| b@)
}

/// The tables and the maps of a list of rows with their tables.
pub open spec fn routed_views(rows: Seq<(MQTable, DataRow)>) -> Seq<(Seq<char>, RowView)> {
    rows.map_values(|r: (MQTable, DataRow)| (r.0@, r.1@))
}

/// Groups rows by the table they go to.
pub fn group_by_table(rows: Vec<(MQTable, DataRow)>) -> (batches: Vec<TableBatch>)
    ensures
        batch_views(batches@) == grouped(routed_views(rows@)),
{
    let ghost input = routed_views(rows@);
    let mut batches: Vec<TableBatch> = Vec::new();
    let mut i: usize = 0;
    assert(batch_views(batches@) =~= grouped(input.take(0)));
    while i < rows.len()
        invariant
            i <= rows.len(),
            input == routed_views(rows@),
            batch_views(batches@) == grouped(input.take(i as int)),
        decreases rows.len() - i,
    {
        let ghost done = input.take(i as int);
        let ghost next = input.take(i + 1);
        let ghost before = batch_views(batches@);
        let ghost table = rows@[i as int].0@;
        let ghost row = rows@[i as int].1@;
        proof {
            assert(next.drop_last() =~= done);
            assert(next.last() == (table, row));
        }
        // The batch of the table, if it has one.
        let mut b: usize = 0;
        let mut found = false;
        while b < batches.len()
            invariant_except_break
                !found,
                forall|k: int| 0 <= k < b ==> (#[trigger] batches@[k]).table@ != table,
            invariant
                b <= batches.len(),
                i < rows.len(),
                table == rows@[i as int].0@,
            ensures
                b <= batches.len(),
                found ==> b < batches.len() && batches@[b as int].table@ == table,
                !found ==> forall|k: int|
                    0 <= k < batches.len() ==> (#[trigger] batches@[k]).table@ != table,
            decreases batches.len() - b,
        {
            if str_eq(batches[b].table.name.as_str(), rows[i].0.name.as_str()) {
                found = true;
                break ;
            }
            b += 1;
        }
        proof {
            let seen = tables_seen(done);
            assert(seen.len() == before.len());
            assert forall|k: int| 0 <= k < seen.len() implies seen[k] == (
            #[trigger] batches@[k]).table@ by {
                assert(before[k].0 == seen[k]);
            }
            if found {
                assert(seen[b as int] == table);
                assert(seen.contains(table));
            } else {
                if seen.contains(table) {
                    let k = choose|k: int| 0 <= k < seen.len() && seen[k] == table;
                    assert(batches@[k].table@ == table);
                }
                lemma_rows_of_unseen(done, table);
            }
            lemma_tables_seen(done);
        }
        if found {
            let mut batch = batches.remove(b);
            batch.rows.push(rows[i].1.clone());
            batches.insert(b, batch);
            proof {
                let after = batch_views(batches@);
                let seen = tables_seen(done);
                assert(after.len() == grouped(next).len());
                assert forall|k: int| 0 <= k < after.len() implies after[k] == grouped(
                    next,
                )[k] by {
                    if k == b {
                        assert(after[k].1 =~= before[k].1.push(row));
                    } else {
                        assert(after[k] == before[k]);
                        assert(seen[k] != seen[b as int]);
                    }
                }
                assert(after =~= grouped(next));
            }
        } else {
            let mut batch_rows: Vec<DataRow> = Vec::new();
            batch_rows.push(rows[i].1.clone());
            batches.push(TableBatch { table: rows[i].0.clone(), rows: batch_rows });
            proof {
                let after = batch_views(batches@);
                let seen = tables_seen(done);
                assert(after.len() == grouped(next).len());
                assert forall|k: int| 0 <= k < after.len() implies after[k] == grouped(
                    next,
                )[k] by {
                    if k < before.len() {
                        assert(after[k] == before[k]);
                        assert(seen[k] != table);
                    } else {
                        assert(after[k].1 =~= seq![row]);
                        assert(rows_of(next, table) =~= seq![row]);
                    }
                }
                assert(after =~= grouped(next));
            }
        }
        i += 1;
    }
    assert(input.take(i as int) =~= input);
    batches
}

/// The row that a message maps to; `None` where it maps to none.
pub open spec fn message_row(message: MessageView) -> Option<RowView> {
    if !vstd::utf8::valid_utf8(message.payload) {
        None
    } else {
        let json = vstd::utf8::decode_utf8(message.payload);
        match json_object_members(json) {
            Some(members) => Some(mapped_row(json, members, message.timestamp)),
            None => None,
        }
    }
}

/// Why a message maps to no row.
pub open spec fn message_error(message: MessageView) -> ParseError {
    if !vstd::utf8::valid_utf8(message.payload) {
        ParseError::InvalidUtf8
    } else {
        ParseError::InvalidJson
    }
}

/// The messages' rows with the tables of their topics.
pub open spec fn routed_rows(messages: Seq<MessageView>) -> Seq<(Seq<char>, RowView)> {
    messages.map_values(|m: MessageView| (table_name(m.topic), message_row(m)->0))
}

/// The views of a list of messages.
pub open spec fn message_views(messages: Seq<MessagePayload>) -> Seq<MessageView> {
    messages.map_values(|m: MessagePayload| m@)
}

/// Maps the messages of one cycle to rows and groups the rows by table.
///
/// Where a message maps to no row, the cycle gives no batch at all: the
/// result is the error of the first such message.
pub fn map_batch(messages: &Vec<MessagePayload>) -> (r: Result<Vec<TableBatch>, ParseError>)
    ensures
        match r {
            Ok(batches) => (forall|i: int|
                0 <= i < messages@.len() ==> message_row(#[trigger] messages@[i]@) is Some)
                && batch_views(batches@) == grouped(routed_rows(message_views(messages@))),
            Err(e) => exists|i: int|
                0 <= i < messages@.len() && message_row(#[trigger] messages@[i]@) is None && e
                    == message_error(messages@[i]@) && forall|j: int|
                    0 <= j < i ==> message_row(#[trigger] messages@[j]@) is Some,
        },
{
    let ghost want = routed_rows(message_views(messages@));
    let mut rows: Vec<(MQTable, DataRow)> = Vec::new();
    let mut i: usize = 0;
    while i < messages.len()
        invariant
            i <= messages.len(),
            want == routed_rows(message_views(messages@)),
            forall|j: int| 0 <= j < i ==> message_row(#[trigger] messages@[j]@) is Some,
            routed_views(rows@) == want.take(i as int),
        decreases messages.len() - i,
    {
        let message = &messages[i];
        let table = MQTable::from_topic(message.topic.as_str());
        match map_payload(message.payload.as_slice(), message.timestamp) {
            Err(e) => {
                assert(message_row(messages@[i as int]@) is None);
                return Err(e);
            },
            Ok(row) => {
                let ghost done = routed_views(rows@);
                rows.push((table, row));
                assert(routed_views(rows@) =~= done.push((table@, row@)));
                assert(want.take(i + 1) =~= want.take(i as int).push(want[i as int]));
            },
        }
        i += 1;
    }
    assert(want.take(i as int) =~= want);
    Ok(group_by_table(rows))
}

} // verus!
