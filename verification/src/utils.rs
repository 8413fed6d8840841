//! Placeholder lists for parameterised statements, and the names of the
//! columns that every destination table carries.

use crate::text::{decimal, join, lemma_join_push, push_char, push_decimal, str_eq};
use vstd::prelude::*;
use vstd::string::StringExecFns;

verus! {

/// The `i`-th positional parameter: a dollar sign and the number.
pub open spec fn placeholder(i: nat) -> Seq<char> {
    seq!['$'] + decimal(i)
}

/// The first `upto` placeholders of row `row`, where a row has `c` columns.
pub open spec fn placeholders(c: nat, row: nat, upto: nat) -> Seq<Seq<char>> {
    Seq::new(upto, |j: int| placeholder((row * c + j + 1) as nat))
}

/// The placeholders of one row, joined by a comma and a space.
pub open spec fn placeholder_group(c: nat, row: nat) -> Seq<char> {
    join(placeholders(c, row, c), seq![',', ' '])
}

/// The groups of the first `upto` rows.
pub open spec fn placeholder_groups(c: nat, upto: nat) -> Seq<Seq<char>> {
    Seq::new(upto, |r: int| placeholder_group(c, r as nat))
}

/// The placeholder list for `n` rows of `c` columns: one parenthesised group
/// per row, the parameters numbered from 1 row by row.
pub open spec fn wildcard_string(c: nat, n: nat) -> Seq<char> {
    seq!['('] + join(placeholder_groups(c, n), seq![')', ',', ' ', '(']) + seq![')']
}

/// With no rows the list is an empty pair of parentheses.
pub proof fn lemma_wildcard_no_rows(c: nat)
    ensures
        wildcard_string(c, 0) == seq!['(', ')'],
{
    assert(wildcard_string(c, 0) =~= seq!['(', ')']);
}

/// Builds the placeholder list for `items_len` rows of `column_len` columns.
pub fn get_wildcard_string(column_len: usize, items_len: usize) -> (s: String)
    ensures
        s@ == wildcard_string(column_len as nat, items_len as nat),
{
    let ghost c = column_len as nat;
    let mut s = String::new();
    push_char(&mut s, '(');
    let mut row: usize = 0;
    while row < items_len
        invariant
            row <= items_len,
            c == column_len as nat,
            s@ == seq!['('] + join(placeholder_groups(c, row as nat), seq![')', ',', ' ', '(']),
        decreases items_len - row,
    {
        let ghost before = s@;
        if row > 0 {
            s.append("), (");
            proof {
                reveal_strlit("), (");
                assert("), ("@ =~= seq![')', ',', ' ', '(']);
            }
        }
        let ghost start = s@;
        let mut col: usize = 0;
        while col < column_len
            invariant
                col <= column_len,
                row < items_len,
                c == column_len as nat,
                s@ == start + join(placeholders(c, row as nat, col as nat), seq![',', ' ']),
            decreases column_len - col,
        {
            if col > 0 {
                s.append(", ");
                proof {
                    reveal_strlit(", ");
                    assert(", "@ =~= seq![',', ' ']);
                }
            }
            push_char(&mut s, '$');
            assert(row * column_len + col + 1 <= u128::MAX) by (nonlinear_arith)
                requires
                    row <= u64::MAX,
                    column_len <= u64::MAX,
                    col <= u64::MAX,
            ;
            let k: u128 = row as u128 * column_len as u128 + col as u128 + 1;
            push_decimal(&mut s, k);
            proof {
                let done = placeholders(c, row as nat, col as nat);
                lemma_join_push(done, seq![',', ' '], placeholder(k as nat));
                assert(placeholders(c, row as nat, (col + 1) as nat) =~= done.push(
                    placeholder(k as nat),
                ));
                assert(s@ =~= start + join(
                    placeholders(c, row as nat, (col + 1) as nat),
                    seq![',', ' '],
                ));
            }
            col += 1;
        }
        proof {
            let done = placeholder_groups(c, row as nat);
            lemma_join_push(done, seq![')', ',', ' ', '('], placeholder_group(c, row as nat));
            assert(placeholder_groups(c, (row + 1) as nat) =~= done.push(
                placeholder_group(c, row as nat),
            ));
            assert(s@ =~= seq!['('] + join(
                placeholder_groups(c, (row + 1) as nat),
                seq![')', ',', ' ', '('],
            ));
        }
        row += 1;
    }
    push_char(&mut s, ')');
    s
}

/// The columns that every destination table is created with.
#[derive(Debug, Clone, Copy, PartialEq, Eq, Hash)]
pub enum PreDefinedColumn {
    PKey,
    Raw,
    InsertTs,
    ReceivedTs,
}

/// A name that no predefined column has.
#[derive(Debug, PartialEq, Eq)]
pub struct UnknownColumn {
    pub name: String,
}

impl Clone for UnknownColumn {
    fn clone(&self) -> (r: Self)
        ensures
            r == *self,
    {
        UnknownColumn { name: self.name.clone() }
    }
}

impl UnknownColumn {
    /// The text of the error.
    pub fn message(&self) -> (s: String)
        ensures
            s@ == "Unknown PreDefinedColumn: "@ + self.name@,
    {
        let mut s = String::from_str("Unknown PreDefinedColumn: ");
        s.append(self.name.as_str());
        s
    }
}

/// The predefined column that is called `name`, if there is one.
pub open spec fn column_named(name: Seq<char>) -> Option<PreDefinedColumn> {
    if name == "pkey"@ {
        Some(PreDefinedColumn::PKey)
    } else if name == "raw"@ {
        Some(PreDefinedColumn::Raw)
    } else if name == "insert_ts"@ {
        Some(PreDefinedColumn::InsertTs)
    } else if name == "received_ts"@ {
        Some(PreDefinedColumn::ReceivedTs)
    } else {
        None
    }
}

impl PreDefinedColumn {
    /// The column's name in the store.
    pub open spec fn name(self) -> Seq<char> {
        match self {
            PreDefinedColumn::PKey => "pkey"@,
            PreDefinedColumn::Raw => "raw"@,
            PreDefinedColumn::InsertTs => "insert_ts"@,
            PreDefinedColumn::ReceivedTs => "received_ts"@,
        }
    }

    /// The column's name in the store.
    pub fn to_string(&self) -> (s: String)
        ensures
            s@ == self.name(),
    {
        match self {
            PreDefinedColumn::PKey => String::from_str("pkey"),
            PreDefinedColumn::Raw => String::from_str("raw"),
            PreDefinedColumn::InsertTs => String::from_str("insert_ts"),
            PreDefinedColumn::ReceivedTs => String::from_str("received_ts"),
        }
    }

    /// The column that is called `s`; an error that carries `s` where no
    /// column is.
    pub fn from_str(s: &str) -> (r: Result<PreDefinedColumn, UnknownColumn>)
        ensures
            match r {
                Ok(column) => column_named(s@) == Some(column),
                Err(e) => column_named(s@) is None && e.name@ == s@,
            },
    {
        if str_eq(s, "pkey") {
            Ok(PreDefinedColumn::PKey)
        } else if str_eq(s, "raw") {
            Ok(PreDefinedColumn::Raw)
        } else if str_eq(s, "insert_ts") {
            Ok(PreDefinedColumn::InsertTs)
        } else if str_eq(s, "received_ts") {
            Ok(PreDefinedColumn::ReceivedTs)
        } else {
            Err(UnknownColumn { name: String::from_str(s) })
        }
    }
}

/// The four names differ from one another.
pub proof fn lemma_names_distinct(a: PreDefinedColumn, b: PreDefinedColumn)
    ensures
        a.name() == b.name() ==> a == b,
{
    reveal_strlit("pkey");
    reveal_strlit("raw");
    reveal_strlit("insert_ts");
    reveal_strlit("received_ts");
    assert("pkey"@.len() == 4);
    assert("raw"@.len() == 3);
    assert("insert_ts"@.len() == 9);
    assert("received_ts"@.len() == 11);
}

/// Reading a column's name gives the column back.
pub proof fn lemma_name_round_trip(column: PreDefinedColumn)
    ensures
        column_named(column.name()) == Some(column),
{
    lemma_names_distinct(column, PreDefinedColumn::PKey);
    lemma_names_distinct(column, PreDefinedColumn::Raw);
    lemma_names_distinct(column, PreDefinedColumn::InsertTs);
    lemma_names_distinct(column, PreDefinedColumn::ReceivedTs);
}

impl std::str::FromStr for PreDefinedColumn {
    type Err = UnknownColumn;

    /// The column that is called `s`; an error that carries `s` where no
    /// column is.
    fn from_str(s: &str) -> (r: Result<Self, Self::Err>)
        ensures
            match r {
                Ok(column) => column_named(s@) == Some(column),
                Err(e) => column_named(s@) is None && e.name@ == s@,
            },
    {
        PreDefinedColumn::from_str(s)
    }
}

} // verus!
