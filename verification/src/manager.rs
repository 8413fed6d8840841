//! The schema manager: what is known of each table's columns, and what has
//! to be asked of the store before rows can be inserted.
//!
//! The manager talks to no store. It is told what the store reported, and
//! answers with what has to be issued: the table to create, the columns to
//! add, the statement to run. It records a table or a column as present when
//! it asks for it. A caller that cannot carry out what was asked makes the
//! manager forget the table, or stops using the manager.

use crate::db::assoc::{
    has_key, keys_distinct, lemma_insert_new, lemma_pairs_map_dom, lemma_pairs_map_value,
    lemma_remove_pair, lemma_replace_value, lemma_sorted_distinct, pairs_map,
};
use crate::db::cell::{column_type, convert_to_db_type_string, CellView};
use crate::db::row::DataRow;
use crate::db::sql::{flattened, insert_many_query, insert_sql, row_values, InsertStatement};
use crate::db::table::{
    column_pairs, ColumnView, DefaultValue, MQTable, MQTableColumnInfo, MQTableInfo, Modifier,
};
use crate::text::str_eq;
use crate::utils::{lemma_names_distinct, PreDefinedColumn};
use vstd::prelude::*;
use vstd::string::StringExecFns;

verus! {

/// The columns that a table is created with: an automatic primary key, the
/// raw payload, the time of insertion, which the store fills in, and the
/// time of arrival.
pub open spec fn baseline_columns() -> Seq<ColumnView> {
    seq![
        ColumnView {
            column_name: PreDefinedColumn::PKey.name(),
            data_type: "SERIAL"@,
            modifier: Modifier::PrimaryKey,
            default_value: None,
        },
        ColumnView {
            column_name: PreDefinedColumn::Raw.name(),
            data_type: "TEXT"@,
            modifier: Modifier::Plain,
            default_value: None,
        },
        ColumnView {
            column_name: PreDefinedColumn::InsertTs.name(),
            data_type: "TIMESTAMP"@,
            modifier: Modifier::Plain,
            default_value: Some("CURRENT_TIMESTAMP AT TIME ZONE 'UTC'"@),
        },
        ColumnView {
            column_name: PreDefinedColumn::ReceivedTs.name(),
            data_type: "TIMESTAMP"@,
            modifier: Modifier::Plain,
            default_value: None,
        },
    ]
}

/// Whether the store has to be asked to create the table: it has to where
/// it reported no column.
pub open spec fn creates_table(found: Seq<ColumnView>) -> bool {
    found.len() == 0
}

/// The columns that are recorded for a table of which the store reported
/// `found`: the baseline where it reported none, else what it reported.
pub open spec fn schema_to_cache(found: Seq<ColumnView>) -> Seq<ColumnView> {
    if creates_table(found) {
        baseline_columns()
    } else {
        found
    }
}

/// What a store that creates a table only if it is absent reports of a table
/// after an initialization that found `found`.
pub open spec fn reported_after_initialize(found: Seq<ColumnView>) -> Seq<ColumnView> {
    if creates_table(found) {
        baseline_columns()
    } else {
        found
    }
}

/// Initializing a table a second time creates nothing: whatever the first
/// initialization found, the store then reports a table, the second
/// initialization asks for no table, and it records the columns that the
/// first one recorded.
pub proof fn lemma_initialize_twice(found: Seq<ColumnView>)
    ensures
        !creates_table(reported_after_initialize(found)),
        schema_to_cache(reported_after_initialize(found)) == schema_to_cache(found),
{
    assert(baseline_columns().len() == 4);
}

/// Whether the columns have one of that name.
pub open spec fn has_column(schema: Seq<ColumnView>, name: Seq<char>) -> bool {
    has_key(column_pairs(schema), name)
}

/// The column that is added for a cell: of the cell's name, of the type for
/// the cell's kind, with no modifier and no default.
pub open spec fn new_column(name: Seq<char>, cell: CellView) -> ColumnView {
    ColumnView {
        column_name: name,
        data_type: column_type(cell),
        modifier: Modifier::Plain,
        default_value: None,
    }
}

/// The columns that a row needs and the schema lacks, in the order of the
/// row's cells.
pub open spec fn missing_columns(
    schema: Seq<ColumnView>,
    entries: Seq<(Seq<char>, CellView)>,
) -> Seq<ColumnView>
    decreases entries.len(),
{
    if entries.len() == 0 {
        Seq::empty()
    } else {
        let before = missing_columns(schema, entries.drop_last());
        if has_column(schema, entries.last().0) {
            before
        } else {
            before.push(new_column(entries.last().0, entries.last().1))
        }
    }
}

/// The columns that have to be added for a list of rows, in order: for each
/// row, what it needs and neither the schema nor an earlier row brought.
pub open spec fn added_columns(
    schema: Seq<ColumnView>,
    rows: Seq<Seq<(Seq<char>, CellView)>>,
) -> Seq<ColumnView>
    decreases rows.len(),
{
    if rows.len() == 0 {
        Seq::empty()
    } else {
        let before = added_columns(schema, rows.drop_last());
        before + missing_columns(schema + before, rows.last())
    }
}

/// The cells of each row with their names, in the rows' order.
pub open spec fn row_entries(rows: Seq<DataRow>) -> Seq<Seq<(Seq<char>, CellView)>> {
    rows.map_values(|r: DataRow| r.entries())
}

/// A row all of whose columns the schema has needs no column added.
pub proof fn lemma_missing_none(schema: Seq<ColumnView>, entries: Seq<(Seq<char>, CellView)>)
    requires
        forall|i: int| 0 <= i < entries.len() ==> has_column(schema, (#[trigger] entries[i]).0),
    ensures
        missing_columns(schema, entries) == Seq::<ColumnView>::empty(),
    decreases entries.len(),
{
    if entries.len() > 0 {
        let front = entries.drop_last();
        assert forall|i: int| 0 <= i < front.len() implies has_column(
            schema,
            (#[trigger] front[i]).0,
        ) by {
            assert(front[i] == entries[i]);
        }
        lemma_missing_none(schema, front);
        assert(has_column(schema, entries[entries.len() - 1].0));
    }
}

/// A row with exactly one column that the schema lacks needs exactly that
/// column added.
pub proof fn lemma_missing_one(
    schema: Seq<ColumnView>,
    entries: Seq<(Seq<char>, CellView)>,
    at: int,
)
    requires
        0 <= at < entries.len(),
        !has_column(schema, entries[at].0),
        forall|i: int|
            0 <= i < entries.len() && i != at ==> has_column(schema, (#[trigger] entries[i]).0),
    ensures
        missing_columns(schema, entries) == seq![new_column(entries[at].0, entries[at].1)],
    decreases entries.len(),
{
    let front = entries.drop_last();
    if at == entries.len() - 1 {
        assert forall|i: int| 0 <= i < front.len() implies has_column(
            schema,
            (#[trigger] front[i]).0,
        ) by {
            assert(front[i] == entries[i]);
        }
        lemma_missing_none(schema, front);
        assert(missing_columns(schema, entries) =~= seq![
            new_column(entries[at].0, entries[at].1),
        ]);
    } else {
        assert forall|i: int| 0 <= i < front.len() && i != at implies has_column(
            schema,
            (#[trigger] front[i]).0,
        ) by {
            assert(front[i] == entries[i]);
        }
        assert(front[at] == entries[at]);
        lemma_missing_one(schema, front, at);
        assert(has_column(schema, entries[entries.len() - 1].0));
    }
}

/// Every missing column bears the name of a cell of the row, and every cell
/// whose name the schema lacks has its column among the missing ones.
pub proof fn lemma_missing_names(schema: Seq<ColumnView>, entries: Seq<(Seq<char>, CellView)>)
    ensures
        forall|k: int|
            0 <= k < missing_columns(schema, entries).len() ==> has_key(
                entries,
                (#[trigger] missing_columns(schema, entries)[k]).column_name,
            ) && !has_column(schema, missing_columns(schema, entries)[k].column_name),
        forall|i: int|
            0 <= i < entries.len() && !has_column(schema, (#[trigger] entries[i]).0)
                ==> has_column(missing_columns(schema, entries), entries[i].0),
    decreases entries.len(),
{
    if entries.len() > 0 {
        let front = entries.drop_last();
        let last = entries.last();
        lemma_missing_names(schema, front);
        let before = missing_columns(schema, front);
        let all = missing_columns(schema, entries);
        assert forall|k: int| 0 <= k < all.len() implies has_key(
            entries,
            (#[trigger] all[k]).column_name,
        ) && !has_column(schema, all[k].column_name) by {
            if k < before.len() {
                assert(all[k] == before[k]);
                let i = choose|i: int|
                    0 <= i < front.len() && #[trigger] front[i].0 == before[k].column_name;
                assert(entries[i].0 == all[k].column_name);
            } else {
                assert(entries[entries.len() - 1].0 == all[k].column_name);
            }
        }
        assert forall|i: int|
            0 <= i < entries.len() && !has_column(schema, (#[trigger] entries[i]).0) implies has_column(
            all,
            entries[i].0,
        ) by {
            if i < front.len() {
                assert(front[i] == entries[i]);
                let k = choose|k: int|
                    0 <= k < column_pairs(before).len() && #[trigger] column_pairs(before)[k].0
                        == entries[i].0;
                assert(column_pairs(all)[k].0 == entries[i].0);
            } else {
                assert(column_pairs(all)[all.len() - 1].0 == entries[i].0);
            }
        }
    }
}

/// Once the missing columns of a row are added, the row needs none: a second
/// pass over the same row adds nothing.
pub proof fn lemma_missing_then_none(
    schema: Seq<ColumnView>,
    entries: Seq<(Seq<char>, CellView)>,
)
    ensures
        missing_columns(schema + missing_columns(schema, entries), entries) == Seq::<
            ColumnView,
        >::empty(),
{
    let added = missing_columns(schema, entries);
    let after = schema + added;
    lemma_missing_names(schema, entries);
    assert forall|i: int| 0 <= i < entries.len() implies has_column(
        after,
        (#[trigger] entries[i]).0,
    ) by {
        if has_column(schema, entries[i].0) {
            let k = choose|k: int|
                0 <= k < column_pairs(schema).len() && #[trigger] column_pairs(schema)[k].0
                    == entries[i].0;
            assert(column_pairs(after)[k].0 == entries[i].0);
        } else {
            let k = choose|k: int|
                0 <= k < column_pairs(added).len() && #[trigger] column_pairs(added)[k].0
                    == entries[i].0;
            assert(column_pairs(after)[schema.len() + k].0 == entries[i].0);
        }
    }
    lemma_missing_none(after, entries);
}

/// A column of one of two lists is a column of the two lists together.
pub proof fn lemma_has_column_either(a: Seq<ColumnView>, b: Seq<ColumnView>, name: Seq<char>)
    ensures
        has_column(a + b, name) == (has_column(a, name) || has_column(b, name)),
{
    let both = a + b;
    if has_column(a, name) {
        let k = choose|k: int|
            0 <= k < column_pairs(a).len() && #[trigger] column_pairs(a)[k].0 == name;
        assert(column_pairs(both)[k].0 == name);
    }
    if has_column(b, name) {
        let k = choose|k: int|
            0 <= k < column_pairs(b).len() && #[trigger] column_pairs(b)[k].0 == name;
        assert(column_pairs(both)[a.len() + k].0 == name);
    }
    if has_column(both, name) {
        let k = choose|k: int|
            0 <= k < column_pairs(both).len() && #[trigger] column_pairs(both)[k].0 == name;
        if k < a.len() {
            assert(column_pairs(a)[k].0 == name);
        } else {
            assert(column_pairs(b)[k - a.len()].0 == name);
        }
    }
}

/// No column is asked for twice for one row, and none that the schema has.
pub proof fn lemma_missing_distinct(schema: Seq<ColumnView>, entries: Seq<(Seq<char>, CellView)>)
    requires
        keys_distinct(entries),
    ensures
        keys_distinct(column_pairs(missing_columns(schema, entries))),
        forall|k: int|
            0 <= k < missing_columns(schema, entries).len() ==> !has_column(
                schema,
                (#[trigger] missing_columns(schema, entries)[k]).column_name,
            ),
    decreases entries.len(),
{
    lemma_missing_names(schema, entries);
    if entries.len() > 0 {
        let front = entries.drop_last();
        let last = entries.last();
        assert forall|i: int, j: int| 0 <= i < j < front.len() implies #[trigger] front[i].0
            != #[trigger] front[j].0 by {
            assert(front[i] == entries[i]);
            assert(front[j] == entries[j]);
        }
        lemma_missing_distinct(schema, front);
        lemma_missing_names(schema, front);
        let before = missing_columns(schema, front);
        let all = missing_columns(schema, entries);
        let pairs = column_pairs(all);
        assert forall|i: int, j: int| 0 <= i < j < pairs.len() implies #[trigger] pairs[i].0
            != #[trigger] pairs[j].0 by {
            if j < before.len() {
                assert(pairs[i] == column_pairs(before)[i]);
                assert(pairs[j] == column_pairs(before)[j]);
            } else {
                assert(all[i] == before[i]);
                let e = choose|e: int|
                    0 <= e < front.len() && #[trigger] front[e].0 == before[i].column_name;
                assert(entries[e].0 != entries[entries.len() - 1].0);
            }
        }
    }
}

/// No column is asked for twice for one list of rows, and none that the
/// schema has: what is issued is what is lacking, each column once.
pub proof fn lemma_added_distinct(
    schema: Seq<ColumnView>,
    rows: Seq<Seq<(Seq<char>, CellView)>>,
)
    requires
        forall|i: int| 0 <= i < rows.len() ==> keys_distinct(#[trigger] rows[i]),
    ensures
        keys_distinct(column_pairs(added_columns(schema, rows))),
        forall|k: int|
            0 <= k < added_columns(schema, rows).len() ==> !has_column(
                schema,
                (#[trigger] added_columns(schema, rows)[k]).column_name,
            ),
    decreases rows.len(),
{
    if rows.len() > 0 {
        let front = rows.drop_last();
        assert forall|i: int| 0 <= i < front.len() implies keys_distinct(#[trigger] front[i]) by {
            assert(front[i] == rows[i]);
        }
        lemma_added_distinct(schema, front);
        let before = added_columns(schema, front);
        let fresh = missing_columns(schema + before, rows.last());
        assert(keys_distinct(rows[rows.len() - 1]));
        lemma_missing_distinct(schema + before, rows.last());
        let all = added_columns(schema, rows);
        let pairs = column_pairs(all);
        assert forall|k: int| 0 <= k < all.len() implies !has_column(
            schema,
            (#[trigger] all[k]).column_name,
        ) by {
            if k >= before.len() {
                assert(all[k] == fresh[k - before.len()]);
                lemma_has_column_either(schema, before, all[k].column_name);
            } else {
                assert(all[k] == before[k]);
            }
        }
        assert forall|i: int, j: int| 0 <= i < j < pairs.len() implies #[trigger] pairs[i].0
            != #[trigger] pairs[j].0 by {
            if j < before.len() {
                assert(pairs[i] == column_pairs(before)[i]);
                assert(pairs[j] == column_pairs(before)[j]);
            } else if i >= before.len() {
                assert(pairs[i] == column_pairs(fresh)[i - before.len()]);
                assert(pairs[j] == column_pairs(fresh)[j - before.len()]);
            } else {
                assert(all[j] == fresh[j - before.len()]);
                lemma_has_column_either(schema, before, all[j].column_name);
                assert(column_pairs(before)[i].0 == pairs[i].0);
            }
        }
    }
}

/// Once the columns that a list of rows needs are added, the schema has a
/// column for every cell of every row: no row is inserted with a cell for
/// which the table is not known to have a column.
pub proof fn lemma_rows_covered(schema: Seq<ColumnView>, rows: Seq<Seq<(Seq<char>, CellView)>>)
    ensures
        forall|i: int, j: int|
            0 <= i < rows.len() && 0 <= j < rows[i].len() ==> has_column(
                schema + added_columns(schema, rows),
                (#[trigger] rows[i][j]).0,
            ),
    decreases rows.len(),
{
    if rows.len() > 0 {
        let front = rows.drop_last();
        let last = rows.last();
        lemma_rows_covered(schema, front);
        let before = added_columns(schema, front);
        let fresh = missing_columns(schema + before, last);
        let all = added_columns(schema, rows);
        assert(schema + all =~= (schema + before) + fresh);
        lemma_missing_names(schema + before, last);
        assert forall|i: int, j: int|
            0 <= i < rows.len() && 0 <= j < rows[i].len() implies has_column(
            schema + all,
            (#[trigger] rows[i][j]).0,
        ) by {
            let name = rows[i][j].0;
            lemma_has_column_either(schema + before, fresh, name);
            if i < front.len() {
                assert(front[i] == rows[i]);
                assert(has_column(schema + before, front[i][j].0));
            } else {
                assert(rows[i] == last);
                if !has_column(schema + before, last[j].0) {
                    assert(has_column(fresh, last[j].0));
                }
            }
        }
    }
}

/// What has to be issued for an insert, in this order: the columns to add,
/// then the statement to run, if there is one.
#[derive(Debug, PartialEq, Eq)]
pub struct InsertPlan {
    pub add_columns: Vec<MQTableColumnInfo>,
    pub statement: Option<InsertStatement>,
}

impl InsertPlan {
    /// The columns to add, as mathematical values.
    pub open spec fn added(&self) -> Seq<ColumnView> {
        self.add_columns@.map_values(|c: MQTableColumnInfo| c@)
    }
}

/// The columns that are known of each table that has been initialized.
#[derive(Debug)]
pub struct Manager {
    col_cache: Vec<(MQTable, MQTableInfo)>,
}

impl View for Manager {
    type V = Map<Seq<char>, Seq<ColumnView>>;

    open spec fn view(&self) -> Map<Seq<char>, Seq<ColumnView>> {
        pairs_map(self.entries())
    }
}

impl Manager {
    /// The tables with their columns, in the order in which the tables were
    /// initialized.
    pub closed spec fn entries(&self) -> Seq<(Seq<char>, Seq<ColumnView>)> {
        self.col_cache@.map_values(|e: (MQTable, MQTableInfo)| (e.0@, e.1@))
    }

    /// No table is recorded twice.
    #[verifier::type_invariant]
    pub open spec fn tables_distinct(&self) -> bool {
        keys_distinct(self.entries())
    }

    /// A manager that knows no table.
    pub fn new() -> (manager: Manager)
        ensures
            manager@ == Map::<Seq<char>, Seq<ColumnView>>::empty(),
    {
        let manager = Manager { col_cache: Vec::new() };
        assert(manager.entries() =~= Seq::<(Seq<char>, Seq<ColumnView>)>::empty());
        manager
    }

    fn position(&self, table: &MQTable) -> (r: Option<usize>)
        ensures
            match r {
                Some(i) => i < self.entries().len() && self.entries()[i as int].0 == table@,
                None => !has_key(self.entries(), table@),
            },
    {
        let mut i: usize = 0;
        while i < self.col_cache.len()
            invariant
                i <= self.col_cache.len(),
                forall|j: int| 0 <= j < i ==> (#[trigger] self.entries()[j]).0 != table@,
            decreases self.col_cache.len() - i,
        {
            if str_eq(self.col_cache[i].0.name.as_str(), table.name.as_str()) {
                return Some(i);
            }
            i += 1;
        }
        None
    }

    /// Whether the table has been initialized.
    pub fn is_cached(&self, table: &MQTable) -> (b: bool)
        ensures
            b == self@.contains_key(table@),
    {
        proof {
            lemma_pairs_map_dom(self.entries());
        }
        self.position(table).is_some()
    }

    /// The columns that are known of the table.
    pub fn schema(&self, table: &MQTable) -> (r: Option<&MQTableInfo>)
        ensures
            match r {
                Some(info) => self@.contains_key(table@) && info@ == self@[table@],
                None => !self@.contains_key(table@),
            },
    {
        proof {
            use_type_invariant(self);
            lemma_pairs_map_dom(self.entries());
        }
        match self.position(table) {
            Some(i) => {
                proof {
                    lemma_pairs_map_value(self.entries(), i as int);
                }
                Some(&self.col_cache[i].1)
            },
            None => None,
        }
    }

    /// The columns that a table is created with.
    pub fn baseline_schema() -> (info: MQTableInfo)
        ensures
            info@ == baseline_columns(),
    {
        let mut info = MQTableInfo::new();
        proof {
            lemma_names_distinct(PreDefinedColumn::PKey, PreDefinedColumn::Raw);
            lemma_names_distinct(PreDefinedColumn::PKey, PreDefinedColumn::InsertTs);
            lemma_names_distinct(PreDefinedColumn::PKey, PreDefinedColumn::ReceivedTs);
            lemma_names_distinct(PreDefinedColumn::Raw, PreDefinedColumn::InsertTs);
            lemma_names_distinct(PreDefinedColumn::Raw, PreDefinedColumn::ReceivedTs);
            lemma_names_distinct(PreDefinedColumn::InsertTs, PreDefinedColumn::ReceivedTs);
        }
        info.insert(
            MQTableColumnInfo {
                column_name: PreDefinedColumn::PKey.to_string(),
                data_type: String::from_str("SERIAL"),
                modifier: Modifier::PrimaryKey,
                default_value: None,
            },
        );
        assert(info@.len() == 1);
        assert(!info.spec_has_column(PreDefinedColumn::Raw.name())) by {
            assert(column_pairs(info@)[0].0 == PreDefinedColumn::PKey.name());
        }
        info.insert(
            MQTableColumnInfo {
                column_name: PreDefinedColumn::Raw.to_string(),
                data_type: String::from_str("TEXT"),
                modifier: Modifier::Plain,
                default_value: None,
            },
        );
        assert(info@.len() == 2);
        assert(!info.spec_has_column(PreDefinedColumn::InsertTs.name())) by {
            assert(column_pairs(info@)[0].0 == PreDefinedColumn::PKey.name());
            assert(column_pairs(info@)[1].0 == PreDefinedColumn::Raw.name());
        }
        info.insert(
            MQTableColumnInfo {
                column_name: PreDefinedColumn::InsertTs.to_string(),
                data_type: String::from_str("TIMESTAMP"),
                modifier: Modifier::Plain,
                default_value: Some(
                    DefaultValue::new(String::from_str("CURRENT_TIMESTAMP AT TIME ZONE 'UTC'")),
                ),
            },
        );
        assert(info@.len() == 3);
        assert(!info.spec_has_column(PreDefinedColumn::ReceivedTs.name())) by {
            assert(column_pairs(info@)[0].0 == PreDefinedColumn::PKey.name());
            assert(column_pairs(info@)[1].0 == PreDefinedColumn::Raw.name());
            assert(column_pairs(info@)[2].0 == PreDefinedColumn::InsertTs.name());
        }
        info.insert(
            MQTableColumnInfo {
                column_name: PreDefinedColumn::ReceivedTs.to_string(),
                data_type: String::from_str("TIMESTAMP"),
                modifier: Modifier::Plain,
                default_value: None,
            },
        );
        assert(info@ =~= baseline_columns());
        info
    }

    /// Records the columns of a table.
    fn record(&mut self, table: &MQTable, info: MQTableInfo)
        ensures
            final(self)@ == old(self)@.insert(table@, info@),
    {
        proof {
            use_type_invariant(&*self);
        }
        let ghost before = self.entries();
        let found = self.position(table);
        let mut cache: Vec<(MQTable, MQTableInfo)> = Vec::new();
        std::mem::swap(&mut self.col_cache, &mut cache);
        match found {
            Some(i) => {
                cache.set(i, (table.clone(), info));
                proof {
                    let after = cache@.map_values(|e: (MQTable, MQTableInfo)| (e.0@, e.1@));
                    assert(after =~= before.update(i as int, (before[i as int].0, info@)));
                    lemma_replace_value(before, i as int, info@);
                }
            },
            None => {
                cache.push((table.clone(), info));
                proof {
                    let after = cache@.map_values(|e: (MQTable, MQTableInfo)| (e.0@, e.1@));
                    assert(after =~= before.insert(before.len() as int, (table@, info@)));
                    lemma_insert_new(before, before.len() as int, table@, info@);
                }
            },
        }
        self.col_cache = cache;
    }

    /// Forgets what is known of the table, so that it has to be initialized
    /// again: for a caller that could not carry out what it was asked for.
    pub fn forget(&mut self, table: &MQTable)
        ensures
            final(self)@ == old(self)@.remove(table@),
    {
        proof {
            use_type_invariant(&*self);
            lemma_pairs_map_dom(self.entries());
        }
        let ghost before = self.entries();
        match self.position(table) {
            Some(i) => {
                let mut cache: Vec<(MQTable, MQTableInfo)> = Vec::new();
                std::mem::swap(&mut self.col_cache, &mut cache);
                cache.remove(i);
                proof {
                    let after = cache@.map_values(|e: (MQTable, MQTableInfo)| (e.0@, e.1@));
                    assert(after =~= before.remove(i as int));
                    lemma_remove_pair(before, i as int);
                }
                self.col_cache = cache;
            },
            None => {
                assert(self@.remove(table@) =~= self@);
            },
        }
    }

    /// Records a table of which the store reported the columns `found`.
    ///
    /// Where the store reported none, the table is absent: the result is the
    /// baseline schema, with which the table has to be created, and that
    /// schema is recorded. Else nothing has to be created, and what the
    /// store reported is recorded.
    pub fn initialize(&mut self, table: &MQTable, found: MQTableInfo) -> (create: Option<
        MQTableInfo,
    >)
        ensures
            create is Some == creates_table(found@),
            create matches Some(schema) ==> schema@ == baseline_columns(),
            final(self)@ == old(self)@.insert(table@, schema_to_cache(found@)),
    {
        if found.table_exists() {
            self.record(table, found);
            None
        } else {
            let schema = Manager::baseline_schema();
            self.record(table, schema.clone());
            Some(schema)
        }
    }

    /// The columns that have to be added to the table before the row can be
    /// inserted, in the order of the row's cells; `None`, and nothing
    /// recorded, where the table has not been initialized. The columns are
    /// recorded as the table's.
    pub fn pre_process(&mut self, table: &MQTable, row: &DataRow) -> (r: Option<
        Vec<MQTableColumnInfo>,
    >)
        ensures
            !old(self)@.contains_key(table@) ==> r is None && final(self)@ == old(self)@,
            old(self)@.contains_key(table@) ==> r is Some && r->0@.map_values(
                |c: MQTableColumnInfo| c@,
            ) == missing_columns(old(self)@[table@], row.entries()) && final(self)@ == old(
                self,
            )@.insert(
                table@,
                old(self)@[table@] + missing_columns(old(self)@[table@], row.entries()),
            ),
    {
        proof {
            use_type_invariant(&*self);
            use_type_invariant(row);
            lemma_pairs_map_dom(self.entries());
            lemma_sorted_distinct(row.entries());
        }
        let i = match self.position(table) {
            Some(i) => i,
            None => {
                return None;
            },
        };
        proof {
            lemma_pairs_map_value(self.entries(), i as int);
        }
        let mut schema = self.col_cache[i].1.clone();
        let ghost known = schema@;
        let ghost entries = row.entries();
        let mut added: Vec<MQTableColumnInfo> = Vec::new();
        let n = row.len();
        let mut j: usize = 0;
        while j < n
            invariant
                j <= n,
                n == entries.len(),
                entries == row.entries(),
                keys_distinct(entries),
                added@.map_values(|c: MQTableColumnInfo| c@) == missing_columns(
                    known,
                    entries.take(j as int),
                ),
                schema@ == known + missing_columns(known, entries.take(j as int)),
            decreases n - j,
        {
            let name = row.key_at(j);
            let ghost done = entries.take(j as int);
            let ghost so_far = missing_columns(known, done);
            proof {
                assert(entries.take(j + 1).drop_last() =~= done);
                assert(entries.take(j + 1).last() == entries[j as int]);
                // The name is in the evolved schema only if it was known.
                lemma_missing_names(known, done);
                if has_column(so_far, name@) {
                    let k = choose|k: int|
                        0 <= k < column_pairs(so_far).len() && #[trigger] column_pairs(so_far)[k].0
                            == name@;
                    assert(so_far[k].column_name == name@);
                    let e = choose|e: int| 0 <= e < done.len() && #[trigger] done[e].0 == name@;
                    assert(entries[e].0 == entries[j as int].0);
                }
                if has_column(schema@, name@) {
                    let k = choose|k: int|
                        0 <= k < column_pairs(schema@).len() && #[trigger] column_pairs(
                            schema@,
                        )[k].0 == name@;
                    if k < known.len() {
                        assert(column_pairs(known)[k].0 == name@);
                    } else {
                        assert(column_pairs(so_far)[k - known.len()].0 == name@);
                    }
                }
                if has_column(known, name@) {
                    let k = choose|k: int|
                        0 <= k < column_pairs(known).len() && #[trigger] column_pairs(known)[k].0
                            == name@;
                    assert(column_pairs(schema@)[k].0 == name@);
                }
                assert(has_column(schema@, name@) == has_column(known, name@));
            }
            if !schema.has_column(name) {
                let column = MQTableColumnInfo::new(
                    String::from_str(name),
                    convert_to_db_type_string(row.cell_at(j)),
                );
                assert(column@ == new_column(entries[j as int].0, entries[j as int].1));
                schema.insert(column.clone());
                let ghost listed = added@.map_values(|c: MQTableColumnInfo| c@);
                added.push(column);
                assert(added@.map_values(|c: MQTableColumnInfo| c@) =~= listed.push(column@));
                assert(schema@ =~= known + missing_columns(known, entries.take(j + 1)));
            }
            j += 1;
        }
        assert(entries.take(j as int) =~= entries);
        self.record(table, schema);
        Some(added)
    }

    /// What has to be issued to insert the rows into the table: the columns
    /// that the rows need and the table lacks, each once, and then one
    /// statement for all the rows; `None`, and nothing recorded, where the
    /// table has not been initialized. The columns are recorded as the
    /// table's.
    pub fn insert_many(&mut self, table: &MQTable, rows: &Vec<DataRow>) -> (r: Option<InsertPlan>)
        ensures
            !old(self)@.contains_key(table@) ==> r is None && final(self)@ == old(self)@,
            old(self)@.contains_key(table@) ==> r is Some && r->0.added() == added_columns(
                old(self)@[table@],
                row_entries(rows@),
            ) && final(self)@ == old(self)@.insert(
                table@,
                old(self)@[table@] + added_columns(old(self)@[table@], row_entries(rows@)),
            ),
            old(self)@.contains_key(table@) ==> forall|i: int, j: int|
                0 <= i < rows@.len() && 0 <= j < rows@[i].entries().len() ==> has_column(
                    final(self)@[table@],
                    (#[trigger] rows@[i].entries()[j]).0,
                ),
            r is Some ==> (r->0.statement is Some) == (rows@.len() > 0),
            r is Some && rows@.len() > 0 ==> r->0.statement->0.sql@ == insert_sql(
                table@,
                rows@[0].column_names(),
                rows@.len(),
            ) && r->0.statement->0.bound() == flattened(row_values(rows@)),
    {
        if !self.is_cached(table) {
            return None;
        }
        let ghost known = self@[table@];
        let ghost all = row_entries(rows@);
        let mut add_columns: Vec<MQTableColumnInfo> = Vec::new();
        let mut i: usize = 0;
        assert(all.take(0) =~= Seq::<Seq<(Seq<char>, CellView)>>::empty());
        assert(old(self)@.insert(table@, known + Seq::<ColumnView>::empty()) =~= old(self)@) by {
            assert(known + Seq::<ColumnView>::empty() =~= known);
        }
        while i < rows.len()
            invariant
                i <= rows.len(),
                all == row_entries(rows@),
                known == old(self)@[table@],
                old(self)@.contains_key(table@),
                add_columns@.map_values(|c: MQTableColumnInfo| c@) == added_columns(
                    known,
                    all.take(i as int),
                ),
                self@ == old(self)@.insert(table@, known + added_columns(known, all.take(i as int))),
            decreases rows.len() - i,
        {
            let ghost before = added_columns(known, all.take(i as int));
            let ghost listed = add_columns@.map_values(|c: MQTableColumnInfo| c@);
            let missing = match self.pre_process(table, &rows[i]) {
                Some(missing) => missing,
                None => Vec::new(),
            };
            let ghost fresh = missing@.map_values(|c: MQTableColumnInfo| c@);
            proof {
                assert(all.take(i + 1).drop_last() =~= all.take(i as int));
                assert(all.take(i + 1).last() == rows@[i as int].entries());
                assert(fresh == missing_columns(known + before, rows@[i as int].entries()));
                assert(known + before + fresh =~= known + (before + fresh));
                assert(self@ =~= old(self)@.insert(table@, known + (before + fresh)));
            }
            let mut k: usize = 0;
            while k < missing.len()
                invariant
                    k <= missing.len(),
                    fresh == missing@.map_values(|c: MQTableColumnInfo| c@),
                    add_columns@.map_values(|c: MQTableColumnInfo| c@) == listed + fresh.take(
                        k as int,
                    ),
                decreases missing.len() - k,
            {
                let ghost so_far = add_columns@.map_values(|c: MQTableColumnInfo| c@);
                add_columns.push(missing[k].clone());
                assert(add_columns@.map_values(|c: MQTableColumnInfo| c@) =~= so_far.push(
                    fresh[k as int],
                ));
                assert(fresh.take(k + 1) =~= fresh.take(k as int).push(fresh[k as int]));
                k += 1;
            }
            assert(fresh.take(k as int) =~= fresh);
            i += 1;
        }
        assert(all.take(i as int) =~= all);
        proof {
            lemma_rows_covered(known, all);
            assert forall|i: int, j: int|
                0 <= i < rows@.len() && 0 <= j < rows@[i].entries().len() implies has_column(
                self@[table@],
                (#[trigger] rows@[i].entries()[j]).0,
            ) by {
                assert(all[i] == rows@[i].entries());
                assert(has_column(known + added_columns(known, all), all[i][j].0));
            }
        }
        let statement = insert_many_query(rows, table);
        Some(InsertPlan { add_columns, statement })
    }

    /// What has to be issued to insert the row into the table; `None`, and
    /// nothing recorded, where the table has not been initialized.
    pub fn insert(&mut self, table: &MQTable, row: DataRow) -> (r: Option<InsertPlan>)
        ensures
            !old(self)@.contains_key(table@) ==> r is None && final(self)@ == old(self)@,
            old(self)@.contains_key(table@) ==> r is Some && r->0.added() == missing_columns(
                old(self)@[table@],
                row.entries(),
            ) && final(self)@ == old(self)@.insert(
                table@,
                old(self)@[table@] + missing_columns(old(self)@[table@], row.entries()),
            ) && r->0.statement is Some && r->0.statement->0.sql@ == insert_sql(
                table@,
                row.column_names(),
                1,
            ) && r->0.statement->0.bound() == row.values(),
    {
        let mut rows: Vec<DataRow> = Vec::new();
        rows.push(row);
        proof {
            let all = row_entries(rows@);
            assert(all.drop_last() =~= Seq::<Seq<(Seq<char>, CellView)>>::empty());
            assert(all.last() == row.entries());
            if self@.contains_key(table@) {
                let known = self@[table@];
                assert(known + Seq::<ColumnView>::empty() =~= known);
                assert(added_columns(known, all.drop_last()) =~= Seq::<ColumnView>::empty());
                assert(added_columns(known, all) =~= missing_columns(known, row.entries()));
            }
            assert(row_values(rows@).drop_last() =~= Seq::<Seq<CellView>>::empty());
            assert(row_values(rows@).last() == row.values());
            assert(flattened(row_values(rows@).drop_last()) =~= Seq::<CellView>::empty());
            assert(flattened(row_values(rows@)) =~= row.values());
        }
        self.insert_many(table, &rows)
    }
}

} // verus!
