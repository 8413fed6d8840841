//! Rows: the named cells that one message becomes.

use crate::db::assoc::{
    has_key, keys_sorted, lemma_insert_new, lemma_pairs_map_dom, lemma_pairs_map_value,
    lemma_replace_value, lemma_sorted_distinct, pairs_map,
};
use crate::db::cell::{Cell, CellView};
use crate::text::{
    chars_eq, chars_lt, chars_of, lemma_lex_asymmetric, lemma_lex_total, lemma_lex_transitive,
    lex_lt,
};
use vstd::prelude::*;

verus! {

/// The cells of one row by column name. The columns are kept in the
/// lexicographic order of their names, so that two rows with the same
/// columns list them in the same order.
#[derive(Debug, PartialEq, Eq)]
pub struct DataRow {
    cells: Vec<(String, Cell)>,
}

impl View for DataRow {
    type V = Map<Seq<char>, CellView>;

    open spec fn view(&self) -> Map<Seq<char>, CellView> {
        pairs_map(self.entries())
    }
}

impl Clone for DataRow {
    fn clone(&self) -> (r: Self)
        ensures
            r.entries() == self.entries(),
            r@ == self@,
    {
        proof {
            use_type_invariant(self);
        }
        let mut cells: Vec<(String, Cell)> = Vec::new();
        let mut i: usize = 0;
        while i < self.cells.len()
            invariant
                i <= self.cells.len(),
                cells@ == self.cells@.take(i as int),
            decreases self.cells.len() - i,
        {
            cells.push((self.cells[i].0.clone(), self.cells[i].1.clone()));
            i += 1;
            assert(self.cells@.take(i as int) =~= self.cells@.take(i - 1).push(
                self.cells@[i - 1],
            ));
        }
        assert(self.cells@.take(i as int) =~= self.cells@);
        DataRow { cells }
    }
}

impl DataRow {
    /// The columns with their cells, in the order of the column names.
    pub closed spec fn entries(&self) -> Seq<(Seq<char>, CellView)> {
        self.cells@.map_values(|e: (String, Cell)| (e.0@, e.1@))
    }

    /// The column names grow strictly along the row.
    #[verifier::type_invariant]
    pub open spec fn sorted(&self) -> bool {
        keys_sorted(self.entries())
    }

    /// The column names, in their order.
    pub open spec fn column_names(&self) -> Seq<Seq<char>> {
        self.entries().map_values(|e: (Seq<char>, CellView)| e.0)
    }

    /// The cells, in the order of their column names.
    pub open spec fn values(&self) -> Seq<CellView> {
        self.entries().map_values(|e: (Seq<char>, CellView)| e.1)
    }

    /// A row with no cells.
    pub fn new() -> (row: DataRow)
        ensures
            row.entries() == Seq::<(Seq<char>, CellView)>::empty(),
            row@ == Map::<Seq<char>, CellView>::empty(),
    {
        let row = DataRow { cells: Vec::new() };
        assert(row.entries() =~= Seq::<(Seq<char>, CellView)>::empty());
        row
    }

    /// The number of cells.
    pub fn len(&self) -> (n: usize)
        ensures
            n == self.entries().len(),
            n == self@.dom().len(),
    {
        proof {
            use_type_invariant(self);
            lemma_entries_count(self.entries());
        }
        self.cells.len()
    }

    /// The name of the `i`-th column.
    pub fn key_at(&self, i: usize) -> (key: &str)
        requires
            i < self.entries().len(),
        ensures
            key@ == self.entries()[i as int].0,
    {
        self.cells[i].0.as_str()
    }

    /// The cell of the `i`-th column.
    pub fn cell_at(&self, i: usize) -> (cell: &Cell)
        requires
            i < self.entries().len(),
        ensures
            cell@ == self.entries()[i as int].1,
    {
        &self.cells[i].1
    }

    /// Where the column called `key` stands, or the place where it would be
    /// put.
    fn search(&self, key: &str) -> (r: (usize, bool))
        ensures
            r.0 <= self.entries().len(),
            forall|j: int| 0 <= j < r.0 ==> lex_lt(#[trigger] self.entries()[j].0, key@),
            r.1 ==> r.0 < self.entries().len() && self.entries()[r.0 as int].0 == key@,
            !r.1 ==> forall|j: int|
                r.0 <= j < self.entries().len() ==> lex_lt(key@, #[trigger] self.entries()[j].0),
            r.1 == has_key(self.entries(), key@),
    {
        proof {
            use_type_invariant(self);
        }
        let wanted = chars_of(key);
        let mut i: usize = 0;
        let mut found = false;
        while i < self.cells.len()
            invariant_except_break
                i <= self.cells.len(),
                !found,
                forall|j: int| 0 <= j < i ==> lex_lt(#[trigger] self.entries()[j].0, key@),
            invariant
                wanted@ == key@,
                keys_sorted(self.entries()),
            ensures
                i <= self.cells.len(),
                forall|j: int| 0 <= j < i ==> lex_lt(#[trigger] self.entries()[j].0, key@),
                found ==> i < self.entries().len() && self.entries()[i as int].0 == key@,
                !found ==> forall|j: int|
                    i <= j < self.entries().len() ==> lex_lt(
                        key@,
                        #[trigger] self.entries()[j].0,
                    ),
            decreases self.cells.len() - i,
        {
            let here = chars_of(self.cells[i].0.as_str());
            assert(here@ == self.entries()[i as int].0);
            if !chars_lt(&here, &wanted) {
                found = chars_eq(&here, &wanted);
                proof {
                    if !found {
                        lemma_lex_total(here@, wanted@);
                        assert forall|j: int| i <= j < self.entries().len() implies lex_lt(
                            key@,
                            #[trigger] self.entries()[j].0,
                        ) by {
                            if i < j {
                                lemma_lex_transitive(key@, here@, self.entries()[j].0);
                            }
                        }
                    }
                }
                break ;
            }
            i += 1;
        }
        proof {
            let e = self.entries();
            if found {
                assert(e[i as int].0 == key@);
            } else if has_key(e, key@) {
                let j = choose|j: int| 0 <= j < e.len() && #[trigger] e[j].0 == key@;
                if j < i {
                    lemma_lex_asymmetric(e[j].0, key@);
                } else {
                    lemma_lex_asymmetric(key@, e[j].0);
                }
            }
        }
        (i, found)
    }

    /// Whether the row has a cell for the column.
    pub fn contains_key(&self, key: &str) -> (b: bool)
        ensures
            b == self@.contains_key(key@),
    {
        proof {
            lemma_pairs_map_dom(self.entries());
        }
        self.search(key).1
    }

    /// The cell of the column.
    pub fn get(&self, key: &str) -> (r: Option<&Cell>)
        ensures
            match r {
                Some(cell) => self@.contains_key(key@) && cell@ == self@[key@],
                None => !self@.contains_key(key@),
            },
    {
        proof {
            use_type_invariant(self);
            lemma_pairs_map_dom(self.entries());
            lemma_sorted_distinct(self.entries());
        }
        let (i, found) = self.search(key);
        if found {
            proof {
                lemma_pairs_map_value(self.entries(), i as int);
            }
            Some(&self.cells[i].1)
        } else {
            None
        }
    }

    /// Puts a cell into the row under the column name, in place of the cell
    /// that the column had, if it had one.
    pub fn insert(&mut self, key: String, cell: Cell)
        ensures
            final(self)@ == old(self)@.insert(key@, cell@),
    {
        proof {
            use_type_invariant(&*self);
            lemma_sorted_distinct(self.entries());
        }
        let ghost before = self.entries();
        let ghost k = key@;
        let ghost v = cell@;
        let (i, found) = self.search(key.as_str());
        let mut cells: Vec<(String, Cell)> = Vec::new();
        std::mem::swap(&mut self.cells, &mut cells);
        if found {
            cells.set(i, (key, cell));
            proof {
                let after = cells@.map_values(|e: (String, Cell)| (e.0@, e.1@));
                assert(after =~= before.update(i as int, (before[i as int].0, v)));
                lemma_replace_value(before, i as int, v);
                assert forall|a: int, b: int| 0 <= a < b < after.len() implies lex_lt(
                    #[trigger] after[a].0,
                    #[trigger] after[b].0,
                ) by {
                    assert(after[a].0 == before[a].0);
                    assert(after[b].0 == before[b].0);
                }
            }
        } else {
            cells.insert(i, (key, cell));
            proof {
                let after = cells@.map_values(|e: (String, Cell)| (e.0@, e.1@));
                assert(after =~= before.insert(i as int, (k, v)));
                lemma_insert_new(before, i as int, k, v);
                assert forall|a: int, b: int| 0 <= a < b < after.len() implies lex_lt(
                    #[trigger] after[a].0,
                    #[trigger] after[b].0,
                ) by {
                    let oa = if a < i {
                        a
                    } else {
                        a - 1
                    };
                    let ob = if b < i {
                        b
                    } else {
                        b - 1
                    };
                    if a != i {
                        assert(after[a] == before[oa]);
                    }
                    if b != i {
                        assert(after[b] == before[ob]);
                    }
                }
            }
        }
        self.cells = cells;
    }

    /// The column names, in their order.
    pub fn keys(&self) -> (names: Vec<String>)
        ensures
            names@.map_values(|s: String| s@) == self.column_names(),
    {
        let mut names: Vec<String> = Vec::new();
        let mut i: usize = 0;
        while i < self.cells.len()
            invariant
                i <= self.cells.len(),
                names@.map_values(|s: String| s@) == self.column_names().take(i as int),
            decreases self.cells.len() - i,
        {
            let name = self.cells[i].0.clone();
            assert(name@ == self.entries()[i as int].0);
            let ghost done = names@.map_values(|s: String| s@);
            names.push(name);
            assert(names@.map_values(|s: String| s@) =~= done.push(name@));
            assert(self.column_names().take(i + 1) =~= self.column_names().take(i as int).push(
                self.entries()[i as int].0,
            ));
            i += 1;
        }
        assert(self.column_names().take(i as int) =~= self.column_names());
        names
    }
}

/// A sorted list has as many pairs as its map has keys.
pub proof fn lemma_entries_count<V>(pairs: Seq<(Seq<char>, V)>)
    requires
        keys_sorted(pairs),
    ensures
        pairs_map(pairs).dom().finite(),
        pairs_map(pairs).dom().len() == pairs.len(),
    decreases pairs.len(),
{
    lemma_pairs_map_dom(pairs);
    if pairs.len() > 0 {
        let front = pairs.drop_last();
        assert forall|i: int, j: int| 0 <= i < j < front.len() implies lex_lt(
            #[trigger] front[i].0,
            #[trigger] front[j].0,
        ) by {
            assert(front[i] == pairs[i]);
            assert(front[j] == pairs[j]);
        }
        lemma_entries_count(front);
        lemma_pairs_map_dom(front);
        assert(!pairs_map(front).dom().contains(pairs.last().0)) by {
            if has_key(front, pairs.last().0) {
                let i = choose|i: int| 0 <= i < front.len() && #[trigger] front[i].0
                    == pairs.last().0;
                assert(front[i] == pairs[i]);
                lemma_lex_asymmetric(pairs[i].0, pairs[pairs.len() - 1].0);
            }
        }
    }
}

} // verus!
