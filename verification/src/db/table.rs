//! Destination tables and the description of their columns.

use crate::db::assoc::{
    has_key, keys_distinct, lemma_pairs_map_dom, lemma_pairs_map_value, lemma_upsert, pairs_map,
    upsert,
};
use crate::text::{chars_of, push_char, str_eq};
use vstd::prelude::*;
use vstd::string::StringExecFns;

verus! {

/// The character that stands in a table name for `c` of a topic: an
/// underscore for a slash, a hyphen or a full stop, `c` itself otherwise.
pub open spec fn sanitized_char(c: char) -> char {
    if c == '/' || c == '-' || c == '.' {
        '_'
    } else {
        c
    }
}

/// The table name that a topic is stored under.
pub open spec fn table_name(topic: Seq<char>) -> Seq<char> {
    topic.map_values(|c: char| sanitized_char(c))
}

/// A table name is its own table name: deriving twice changes nothing.
pub proof fn lemma_table_name_idempotent(topic: Seq<char>)
    ensures
        table_name(table_name(topic)) == table_name(topic),
{
    assert(table_name(table_name(topic)) =~= table_name(topic));
}

/// Topics that differ only in their separators share one table.
pub proof fn lemma_table_name_by_char(a: Seq<char>, b: Seq<char>)
    requires
        a.len() == b.len(),
        forall|i: int| 0 <= i < a.len() ==> sanitized_char(a[i]) == sanitized_char(b[i]),
    ensures
        table_name(a) == table_name(b),
{
    assert(table_name(a) =~= table_name(b));
}

/// A destination table, known by its name.
#[derive(Debug, Hash, PartialEq, Eq)]
pub struct MQTable {
    pub name: String,
}

impl View for MQTable {
    type V = Seq<char>;

    open spec fn view(&self) -> Seq<char> {
        self.name@
    }
}

impl Clone for MQTable {
    fn clone(&self) -> (r: Self)
        ensures
            r == *self,
    {
        MQTable { name: self.name.clone() }
    }
}

impl MQTable {
    /// The table that messages of `topic` go to.
    pub fn from_topic(topic: &str) -> (table: MQTable)
        ensures
            table@ == table_name(topic@),
    {
        let chars = chars_of(topic);
        let mut name = String::new();
        let mut i: usize = 0;
        while i < chars.len()
            invariant
                i <= chars.len(),
                chars@ == topic@,
                name@ == table_name(topic@.take(i as int)),
            decreases chars.len() - i,
        {
            let c = chars[i];
            if c == '/' || c == '-' || c == '.' {
                push_char(&mut name, '_');
            } else {
                push_char(&mut name, c);
            }
            i += 1;
            assert(table_name(topic@.take(i as int)) =~= table_name(topic@.take(i - 1)).push(
                sanitized_char(c),
            ));
        }
        assert(topic@.take(i as int) =~= topic@);
        MQTable { name }
    }
}

/// What a column definition adds to the column's type.
#[derive(Debug, PartialEq, Eq, Clone, Copy, Hash)]
pub enum Modifier {
    NotNull,
    PrimaryKey,
    Unique,
    /// Nothing is added.
    Plain,
}

impl Default for Modifier {
    fn default() -> (m: Self)
        ensures
            m == Modifier::Plain,
    {
        Modifier::Plain
    }
}

impl Modifier {
    /// The keyword that writes the modifier; nothing for `Plain`.
    pub open spec fn keyword(self) -> Seq<char> {
        match self {
            Modifier::NotNull => "NOT NULL"@,
            Modifier::PrimaryKey => "PRIMARY KEY"@,
            Modifier::Unique => "UNIQUE"@,
            Modifier::Plain => ""@,
        }
    }

    /// The keyword that writes the modifier in a column definition.
    pub fn to_db_string(&self) -> (s: String)
        ensures
            s@ == self.keyword(),
    {
        match self {
            Modifier::NotNull => String::from_str("NOT NULL"),
            Modifier::PrimaryKey => String::from_str("PRIMARY KEY"),
            Modifier::Unique => String::from_str("UNIQUE"),
            Modifier::Plain => String::from_str(""),
        }
    }
}

/// The expression that fills a column where a row gives no value.
#[derive(Debug, PartialEq, Eq, Hash)]
pub struct DefaultValue {
    value: String,
}

impl View for DefaultValue {
    type V = Seq<char>;

    closed spec fn view(&self) -> Seq<char> {
        self.value@
    }
}

impl Clone for DefaultValue {
    fn clone(&self) -> (r: Self)
        ensures
            r == *self,
    {
        DefaultValue { value: self.value.clone() }
    }
}

/// The default clause of a column definition for the expression `value`.
pub open spec fn default_clause(value: Seq<char>) -> Seq<char> {
    "DEFAULT ("@ + value + ")"@
}

impl DefaultValue {
    /// The default whose expression is `value`.
    pub fn new(value: String) -> (d: DefaultValue)
        ensures
            d@ == value@,
    {
        DefaultValue { value }
    }

    /// The expression.
    pub fn value(&self) -> (s: &str)
        ensures
            s@ == self@,
    {
        self.value.as_str()
    }

    /// The clause that writes the default in a column definition.
    pub fn to_db_string(&self) -> (s: String)
        ensures
            s@ == default_clause(self@),
    {
        let mut s = String::from_str("DEFAULT (");
        s.append(self.value.as_str());
        s.append(")");
        s
    }
}

impl From<String> for DefaultValue {
    fn from(value: String) -> (d: DefaultValue)
        ensures
            d@ == value@,
    {
        DefaultValue { value }
    }
}

impl vstd::std_specs::convert::FromSpecImpl<String> for DefaultValue {
    open spec fn obeys_from_spec() -> bool {
        true
    }

    closed spec fn from_spec(value: String) -> DefaultValue {
        DefaultValue { value }
    }
}

impl<'a> From<&'a str> for DefaultValue {
    fn from(value: &'a str) -> (d: DefaultValue)
        ensures
            d@ == value@,
    {
        DefaultValue { value: String::from_str(value) }
    }
}

impl<'a> vstd::std_specs::convert::FromSpecImpl<&'a str> for DefaultValue {
    open spec fn obeys_from_spec() -> bool {
        false
    }

    closed spec fn from_spec(value: &'a str) -> DefaultValue {
        arbitrary()
    }
}

/// One column of a table.
#[derive(Debug, PartialEq, Eq, Hash)]
pub struct MQTableColumnInfo {
    pub column_name: String,
    pub data_type: String,
    pub modifier: Modifier,
    pub default_value: Option<DefaultValue>,
}

/// What a column description says, as a mathematical value.
pub struct ColumnView {
    pub column_name: Seq<char>,
    pub data_type: Seq<char>,
    pub modifier: Modifier,
    pub default_value: Option<Seq<char>>,
}

impl View for MQTableColumnInfo {
    type V = ColumnView;

    open spec fn view(&self) -> ColumnView {
        ColumnView {
            column_name: self.column_name@,
            data_type: self.data_type@,
            modifier: self.modifier,
            default_value: match self.default_value {
                Some(d) => Some(d@),
                None => None,
            },
        }
    }
}

impl Clone for MQTableColumnInfo {
    fn clone(&self) -> (r: Self)
        ensures
            r == *self,
    {
        MQTableColumnInfo {
            column_name: self.column_name.clone(),
            data_type: self.data_type.clone(),
            modifier: self.modifier,
            default_value: match &self.default_value {
                Some(d) => Some(d.clone()),
                None => None,
            },
        }
    }
}

impl Default for MQTableColumnInfo {
    fn default() -> (c: Self)
        ensures
            c@ == (ColumnView {
                column_name: Seq::empty(),
                data_type: Seq::empty(),
                modifier: Modifier::Plain,
                default_value: None,
            }),
    {
        MQTableColumnInfo {
            column_name: String::new(),
            data_type: String::new(),
            modifier: Modifier::Plain,
            default_value: None,
        }
    }
}

/// The definition of a column in a create-table statement: name, type,
/// modifier keyword and default clause, each parted from the next by one
/// space, the last two empty where the column has none.
pub open spec fn column_definition(column: ColumnView) -> Seq<char> {
    column.column_name + seq![' '] + column.data_type + seq![' '] + column.modifier.keyword()
        + seq![' '] + match column.default_value {
        Some(value) => default_clause(value),
        None => Seq::empty(),
    }
}

impl MQTableColumnInfo {
    /// A column of the given name and type, with no modifier and no default.
    pub fn new(column_name: String, data_type: String) -> (c: MQTableColumnInfo)
        ensures
            c@ == (ColumnView {
                column_name: column_name@,
                data_type: data_type@,
                modifier: Modifier::Plain,
                default_value: None,
            }),
    {
        MQTableColumnInfo {
            column_name,
            data_type,
            modifier: Modifier::Plain,
            default_value: None,
        }
    }

    /// The column's definition as a create-table statement writes it.
    pub fn definition(&self) -> (s: String)
        ensures
            s@ == column_definition(self@),
    {
        let mut s = self.column_name.clone();
        push_char(&mut s, ' ');
        s.append(self.data_type.as_str());
        push_char(&mut s, ' ');
        let keyword = self.modifier.to_db_string();
        s.append(keyword.as_str());
        push_char(&mut s, ' ');
        match &self.default_value {
            Some(d) => {
                let clause = d.to_db_string();
                s.append(clause.as_str());
            },
            None => {},
        }
        assert(s@ =~= column_definition(self@));
        s
    }
}

/// The columns as pairs of name and description.
pub open spec fn column_pairs(columns: Seq<ColumnView>) -> Seq<(Seq<char>, ColumnView)> {
    columns.map_values(|c: ColumnView| (c.column_name, c))
}

/// The columns that remain when a list of descriptions is read in order and
/// a later description replaces, in its place, an earlier one of the same
/// name.
pub open spec fn collected(columns: Seq<ColumnView>) -> Seq<(Seq<char>, ColumnView)>
    decreases columns.len(),
{
    if columns.len() == 0 {
        Seq::empty()
    } else {
        upsert(collected(columns.drop_last()), columns.last().column_name, columns.last())
    }
}

/// Collecting keeps the names apart, and binds each name to the last
/// description that was given for it.
pub proof fn lemma_collected(columns: Seq<ColumnView>)
    ensures
        keys_distinct(collected(columns)),
        pairs_map(collected(columns)) == pairs_map(column_pairs(columns)),
    decreases columns.len(),
{
    if columns.len() > 0 {
        let front = columns.drop_last();
        lemma_collected(front);
        lemma_upsert(collected(front), columns.last().column_name, columns.last());
        assert(column_pairs(columns).drop_last() =~= column_pairs(front));
    }
}

/// The columns of one table, each name once, in the order in which the names
/// were first given.
#[derive(Debug, PartialEq, Eq)]
pub struct MQTableInfo {
    columns: Vec<MQTableColumnInfo>,
}

impl View for MQTableInfo {
    type V = Seq<ColumnView>;

    closed spec fn view(&self) -> Seq<ColumnView> {
        self.columns@.map_values(|c: MQTableColumnInfo| c@)
    }
}

impl Clone for MQTableInfo {
    fn clone(&self) -> (r: Self)
        ensures
            r@ == self@,
    {
        proof {
            use_type_invariant(self);
        }
        let mut columns: Vec<MQTableColumnInfo> = Vec::new();
        let mut i: usize = 0;
        while i < self.columns.len()
            invariant
                i <= self.columns.len(),
                columns@ == self.columns@.take(i as int),
            decreases self.columns.len() - i,
        {
            columns.push(self.columns[i].clone());
            i += 1;
            assert(self.columns@.take(i as int) =~= self.columns@.take(i - 1).push(
                self.columns@[i - 1],
            ));
        }
        assert(self.columns@.take(i as int) =~= self.columns@);
        MQTableInfo { columns }
    }
}

impl Default for MQTableInfo {
    fn default() -> (info: Self)
        ensures
            info@ == Seq::<ColumnView>::empty(),
    {
        MQTableInfo::new()
    }
}

impl MQTableInfo {
    /// No two columns share a name.
    #[verifier::type_invariant]
    pub open spec fn names_distinct(&self) -> bool {
        keys_distinct(column_pairs(self@))
    }

    /// The columns by name.
    pub open spec fn as_map(&self) -> Map<Seq<char>, ColumnView> {
        pairs_map(column_pairs(self@))
    }

    /// Whether a column of that name is described.
    pub open spec fn spec_has_column(&self, name: Seq<char>) -> bool {
        has_key(column_pairs(self@), name)
    }

    /// The description of a table with no columns.
    pub fn new() -> (info: MQTableInfo)
        ensures
            info@ == Seq::<ColumnView>::empty(),
    {
        let info = MQTableInfo { columns: Vec::new() };
        assert(info@ =~= Seq::<ColumnView>::empty());
        info
    }

    /// Whether the table exists: a table that is there has a column.
    pub fn table_exists(&self) -> (b: bool)
        ensures
            b == (self@.len() > 0),
    {
        self.columns.len() > 0
    }

    /// How many columns are described.
    pub fn len(&self) -> (n: usize)
        ensures
            n == self@.len(),
    {
        self.columns.len()
    }

    /// Where the column of that name stands.
    pub fn position(&self, column_name: &str) -> (r: Option<usize>)
        ensures
            match r {
                Some(i) => i < self@.len() && self@[i as int].column_name == column_name@,
                None => !self.spec_has_column(column_name@),
            },
    {
        let mut i: usize = 0;
        while i < self.columns.len()
            invariant
                i <= self.columns.len(),
                forall|j: int| 0 <= j < i ==> (#[trigger] self@[j]).column_name != column_name@,
            decreases self.columns.len() - i,
        {
            if str_eq(self.columns[i].column_name.as_str(), column_name) {
                return Some(i);
            }
            i += 1;
        }
        assert(!self.spec_has_column(column_name@)) by {
            if self.spec_has_column(column_name@) {
                let j = choose|j: int|
                    0 <= j < column_pairs(self@).len() && #[trigger] column_pairs(self@)[j].0
                        == column_name@;
                assert(self@[j].column_name == column_name@);
            }
        }
        None
    }

    /// Whether a column of that name is described.
    pub fn has_column(&self, column_name: &str) -> (b: bool)
        ensures
            b == self.spec_has_column(column_name@),
            b == self.as_map().contains_key(column_name@),
    {
        proof {
            lemma_pairs_map_dom(column_pairs(self@));
        }
        match self.position(column_name) {
            Some(i) => {
                assert(column_pairs(self@)[i as int].0 == column_name@);
                true
            },
            None => false,
        }
    }

    /// The description of the column of that name.
    pub fn get(&self, column_name: &str) -> (r: Option<&MQTableColumnInfo>)
        ensures
            match r {
                Some(c) => self.as_map().contains_key(column_name@) && c@ == self.as_map()[column_name@],
                None => !self.as_map().contains_key(column_name@),
            },
    {
        proof {
            use_type_invariant(self);
            lemma_pairs_map_dom(column_pairs(self@));
        }
        match self.position(column_name) {
            Some(i) => {
                proof {
                    lemma_pairs_map_value(column_pairs(self@), i as int);
                }
                Some(&self.columns[i])
            },
            None => None,
        }
    }

    /// The descriptions, in the order in which the names were first given.
    pub fn columns(&self) -> (r: Vec<&MQTableColumnInfo>)
        ensures
            r@.len() == self@.len(),
            forall|i: int| 0 <= i < r@.len() ==> (#[trigger] r@[i])@ == self@[i],
    {
        let mut r: Vec<&MQTableColumnInfo> = Vec::new();
        let mut i: usize = 0;
        while i < self.columns.len()
            invariant
                i <= self.columns.len(),
                r@.len() == i,
                forall|j: int| 0 <= j < i ==> (#[trigger] r@[j])@ == self@[j],
            decreases self.columns.len() - i,
        {
            r.push(&self.columns[i]);
            i += 1;
        }
        r
    }

    /// Describes a column: in place of the description of the same name
    /// where there is one, after the others where there is none.
    pub fn insert(&mut self, column: MQTableColumnInfo)
        ensures
            column_pairs(final(self)@) == upsert(
                column_pairs(old(self)@),
                column@.column_name,
                column@,
            ),
            final(self).as_map() == old(self).as_map().insert(column@.column_name, column@),
            !old(self).spec_has_column(column@.column_name) ==> final(self)@ == old(self)@.push(
                column@,
            ),
    {
        proof {
            use_type_invariant(&*self);
            lemma_upsert(column_pairs(self@), column@.column_name, column@);
        }
        let ghost before = column_pairs(self@);
        let ghost key = column@.column_name;
        let ghost value = column@;
        let ghost described = self@;
        let found = self.position(column.column_name.as_str());
        let mut columns: Vec<MQTableColumnInfo> = Vec::new();
        std::mem::swap(&mut self.columns, &mut columns);
        match found {
            Some(i) => {
                proof {
                    assert(before[i as int].0 == key);
                    let c = choose|c: int| 0 <= c < before.len() && #[trigger] before[c].0 == key;
                    assert(c == i) by {
                        if c < i {
                            assert(before[c].0 != before[i as int].0);
                        } else if i < c {
                            assert(before[i as int].0 != before[c].0);
                        }
                    }
                }
                columns.set(i, column);
                assert(column_pairs(columns@.map_values(|c: MQTableColumnInfo| c@))
                    =~= before.update(i as int, (key, value)));
            },
            None => {
                columns.push(column);
                assert(columns@.map_values(|c: MQTableColumnInfo| c@) =~= described.push(value));
                assert(column_pairs(columns@.map_values(|c: MQTableColumnInfo| c@))
                    =~= before.push((key, value)));
            },
        }
        self.columns = columns;
    }
}

impl From<Vec<MQTableColumnInfo>> for MQTableInfo {
    fn from(value: Vec<MQTableColumnInfo>) -> (info: MQTableInfo)
        ensures
            column_pairs(info@) == collected(value@.map_values(|c: MQTableColumnInfo| c@)),
            info.as_map() == pairs_map(
                column_pairs(value@.map_values(|c: MQTableColumnInfo| c@)),
            ),
    {
        let ghost given = value@.map_values(|c: MQTableColumnInfo| c@);
        let mut info = MQTableInfo::new();
        let mut i: usize = 0;
        assert(column_pairs(info@) =~= collected(given.take(0)));
        while i < value.len()
            invariant
                i <= value.len(),
                given == value@.map_values(|c: MQTableColumnInfo| c@),
                column_pairs(info@) == collected(given.take(i as int)),
            decreases value.len() - i,
        {
            info.insert(value[i].clone());
            i += 1;
            assert(given.take(i as int).drop_last() =~= given.take(i - 1));
        }
        assert(given.take(i as int) =~= given);
        proof {
            lemma_collected(given);
        }
        info
    }
}

impl vstd::std_specs::convert::FromSpecImpl<Vec<MQTableColumnInfo>> for MQTableInfo {
    open spec fn obeys_from_spec() -> bool {
        false
    }

    closed spec fn from_spec(value: Vec<MQTableColumnInfo>) -> MQTableInfo {
        arbitrary()
    }
}

} // verus!
