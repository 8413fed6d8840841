//! The text of the statements that are sent to the store, and the values
//! that are bound to their parameters.

use crate::db::cell::{Cell, CellView};
use crate::db::row::DataRow;
use crate::db::table::{column_definition, ColumnView, MQTable, MQTableColumnInfo, MQTableInfo};
use crate::text::{join, join_strings, push_char, views};
use crate::utils::{get_wildcard_string, wildcard_string};
use vstd::prelude::*;
use vstd::string::StringExecFns;

verus! {

/// A statement with positional parameters, and the values for them in the
/// order of their numbers.
#[derive(Debug, PartialEq, Eq)]
pub struct InsertStatement {
    pub sql: String,
    pub params: Vec<Cell>,
}

impl InsertStatement {
    /// The values for the parameters, as mathematical values.
    pub open spec fn bound(&self) -> Seq<CellView> {
        self.params@.map_values(|c: Cell| c@)
    }
}

/// The rows' cells one row after another.
pub open spec fn flattened(rows: Seq<Seq<CellView>>) -> Seq<CellView>
    decreases rows.len(),
{
    if rows.len() == 0 {
        Seq::empty()
    } else {
        flattened(rows.drop_last()) + rows.last()
    }
}

/// The cells of each row, in the rows' order.
pub open spec fn row_values(rows: Seq<DataRow>) -> Seq<Seq<CellView>> {
    rows.map_values(|r: DataRow| r.values())
}

/// The text of the statement that inserts `rows` rows with the given columns
/// into a table and passes over a row that conflicts with one in the store.
pub open spec fn insert_sql(table: Seq<char>, columns: Seq<Seq<char>>, rows: nat) -> Seq<char> {
    "INSERT INTO "@ + table + " ("@ + join(columns, ", "@) + ") VALUES "@ + wildcard_string(
        columns.len(),
        rows,
    ) + " ON CONFLICT DO NOTHING"@
}

/// The statement that inserts the rows into the table; none where there is
/// no row. The column list is that of the first row, and every row's cells
/// are bound in the order of that row's own columns.
pub fn insert_many_query(items: &Vec<DataRow>, table: &MQTable) -> (r: Option<InsertStatement>)
    ensures
        items@.len() == 0 ==> r is None,
        items@.len() > 0 ==> r is Some && r->0.sql@ == insert_sql(
            table@,
            items@[0].column_names(),
            items@.len(),
        ) && r->0.bound() == flattened(row_values(items@)),
{
    if items.len() == 0 {
        return None;
    }
    let columns = items[0].keys();
    let placeholders = get_wildcard_string(columns.len(), items.len());
    let column_list = join_strings(&columns, ", ");
    let mut sql = String::from_str("INSERT INTO ");
    sql.append(table.name.as_str());
    sql.append(" (");
    sql.append(column_list.as_str());
    sql.append(") VALUES ");
    sql.append(placeholders.as_str());
    sql.append(" ON CONFLICT DO NOTHING");
    assert(views(columns@) =~= items@[0].column_names());

    let mut params: Vec<Cell> = Vec::new();
    let mut r: usize = 0;
    assert(row_values(items@).take(0) =~= Seq::<Seq<CellView>>::empty());
    while r < items.len()
        invariant
            r <= items.len(),
            params@.map_values(|c: Cell| c@) == flattened(row_values(items@).take(r as int)),
        decreases items.len() - r,
    {
        let row = &items[r];
        let ghost done = params@.map_values(|c: Cell| c@);
        let mut j: usize = 0;
        let n = row.len();
        while j < n
            invariant
                j <= n,
                n == row.entries().len(),
                params@.map_values(|c: Cell| c@) == done + row.values().take(j as int),
            decreases n - j,
        {
            let cell = row.cell_at(j).clone();
            let ghost so_far = params@.map_values(|c: Cell| c@);
            params.push(cell);
            assert(params@.map_values(|c: Cell| c@) =~= so_far.push(cell@));
            assert(row.values().take(j + 1) =~= row.values().take(j as int).push(cell@));
            j += 1;
        }
        proof {
            assert(row.values().take(j as int) =~= row.values());
            let upto = row_values(items@).take(r + 1);
            assert(upto.drop_last() =~= row_values(items@).take(r as int));
            assert(upto.last() == row.values());
        }
        r += 1;
    }
    assert(row_values(items@).take(r as int) =~= row_values(items@));
    Some(InsertStatement { sql, params })
}

/// Where every row has the columns of the first, the values are bound row
/// by row and column by column: the cell of column `j` in row `r` goes to
/// the parameter that the placeholder list numbers `r * c + j + 1`.
pub proof fn lemma_bound_positions(rows: Seq<Seq<CellView>>, c: nat, r: int, j: int)
    requires
        forall|i: int| 0 <= i < rows.len() ==> (#[trigger] rows[i]).len() == c,
        0 <= r < rows.len(),
        0 <= j < c,
    ensures
        flattened(rows).len() == rows.len() * c,
        0 <= r * c + j < flattened(rows).len(),
        flattened(rows)[r * c + j] == rows[r][j],
    decreases rows.len(),
{
    let front = rows.drop_last();
    let n = rows.len() as int;
    lemma_flattened_len(rows, c);
    lemma_flattened_len(front, c);
    assert((n - 1) * c + c == n * c) by (nonlinear_arith);
    if r < n - 1 {
        lemma_bound_positions(front, c, r, j);
        assert(r * c + j < (n - 1) * c) by (nonlinear_arith)
            requires
                0 <= r < n - 1,
                0 <= j < c,
        ;
    } else {
        assert(r * c + j >= 0) by (nonlinear_arith)
            requires
                0 <= r,
                0 <= j,
                0 <= c,
        ;
    }
}

/// Rows of `c` cells each have `c` cells for each row in all.
pub proof fn lemma_flattened_len(rows: Seq<Seq<CellView>>, c: nat)
    requires
        forall|i: int| 0 <= i < rows.len() ==> (#[trigger] rows[i]).len() == c,
    ensures
        flattened(rows).len() == rows.len() * c,
    decreases rows.len(),
{
    if rows.len() > 0 {
        let front = rows.drop_last();
        lemma_flattened_len(front, c);
        let n = rows.len() as int;
        assert((n - 1) * c + c == n * c) by (nonlinear_arith);
    } else {
        assert(0 * c == 0) by (nonlinear_arith);
    }
}

/// The text of the statement that adds a column to a table unless the table
/// has it.
pub open spec fn add_column_sql(table: Seq<char>, column: ColumnView) -> Seq<char> {
    "ALTER TABLE "@ + table + " ADD COLUMN IF NOT EXISTS "@ + column.column_name + seq![' ']
        + column.data_type
}

/// The statement that adds the column to the table unless the table has it.
pub fn add_column_query(table: &MQTable, column: &MQTableColumnInfo) -> (sql: String)
    ensures
        sql@ == add_column_sql(table@, column@),
{
    let mut sql = String::from_str("ALTER TABLE ");
    sql.append(table.name.as_str());
    sql.append(" ADD COLUMN IF NOT EXISTS ");
    sql.append(column.column_name.as_str());
    push_char(&mut sql, ' ');
    sql.append(column.data_type.as_str());
    assert(sql@ =~= add_column_sql(table@, column@));
    sql
}

/// The definitions of the columns, in the columns' order.
pub open spec fn definitions(columns: Seq<ColumnView>) -> Seq<Seq<char>> {
    columns.map_values(|c: ColumnView| column_definition(c))
}

/// The text of the statement that creates a table with the given columns
/// unless the table is there.
pub open spec fn create_table_sql(table: Seq<char>, columns: Seq<ColumnView>) -> Seq<char> {
    "CREATE TABLE IF NOT EXISTS "@ + table + " ("@ + join(definitions(columns), ", "@) + ")"@
}

/// The statement that creates the table with the described columns unless
/// the table is there.
pub fn create_table_query(table: &MQTable, info: &MQTableInfo) -> (sql: String)
    ensures
        sql@ == create_table_sql(table@, info@),
{
    let columns = info.columns();
    let mut parts: Vec<String> = Vec::new();
    let mut i: usize = 0;
    while i < columns.len()
        invariant
            i <= columns.len(),
            columns@.len() == info@.len(),
            forall|k: int| 0 <= k < columns@.len() ==> (#[trigger] columns@[k])@ == info@[k],
            views(parts@) == definitions(info@).take(i as int),
        decreases columns.len() - i,
    {
        let part = columns[i].definition();
        let ghost done = views(parts@);
        parts.push(part);
        assert(views(parts@) =~= done.push(part@));
        assert(definitions(info@).take(i + 1) =~= definitions(info@).take(i as int).push(part@));
        i += 1;
    }
    assert(definitions(info@).take(i as int) =~= definitions(info@));
    let column_list = join_strings(&parts, ", ");
    let mut sql = String::from_str("CREATE TABLE IF NOT EXISTS ");
    sql.append(table.name.as_str());
    sql.append(" (");
    sql.append(column_list.as_str());
    sql.append(")");
    sql
}

/// The text of the query that lists the name and the type of each column
/// of the table whose name is bound to its one parameter.
pub open spec fn table_info_sql() -> Seq<char> {
    "SELECT column_name, data_type FROM information_schema.columns WHERE table_name = $1"@
}

/// The query that lists the columns of a table; its one parameter is the
/// table's name.
pub fn table_info_query() -> (sql: String)
    ensures
        sql@ == table_info_sql(),
{
    String::from_str(
        "SELECT column_name, data_type FROM information_schema.columns WHERE table_name = $1",
    )
}

} // verus!
