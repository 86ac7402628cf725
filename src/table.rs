//! A table of text cells with named columns: the bottom-level data that a
//! hierarchy is built from.
use vstd::prelude::*;
use crate::order::{row_view, rows_view};

verus! {

/// Position of the first occurrence of `x` in `s`.
pub open spec fn first_index(s: Seq<Seq<char>>, x: Seq<char>) -> int {
    choose|i: int| 0 <= i < s.len() && s[i] == x && forall|j: int| 0 <= j < i ==> s[j] != x
}

/// The cells of `row` under the columns `names`, where `row` is laid out by
/// the columns `cols`; a name that occurs twice in `cols` reads its first column.
pub open spec fn project(row: Seq<Seq<char>>, cols: Seq<Seq<char>>, names: Seq<Seq<char>>) -> Seq<Seq<char>> {
    names.map_values(|c: Seq<char>| row[first_index(cols, c)])
}

/// A table whose cells are text, laid out row by row.
#[derive(Debug, Clone)]
pub struct Table {
    columns: Vec<String>,
    rows: Vec<Vec<String>>,
}

impl Table {
    /// Names of the columns.
    pub closed spec fn column_names(&self) -> Seq<Seq<char>> {
        row_view(self.columns)
    }

    /// The cells, row by row.
    pub closed spec fn cells(&self) -> Seq<Seq<Seq<char>>> {
        rows_view(self.rows@)
    }

    /// Every row has one cell per column.
    pub closed spec fn wf(&self) -> bool {
        forall|i: int| 0 <= i < self.rows@.len() ==> #[trigger] self.rows@[i].len() == self.columns.len()
    }

    /// A table with the given column names and rows; `None` where a row does
    /// not have one cell per column.
    pub fn new(columns: Vec<String>, rows: Vec<Vec<String>>) -> (r: Option<Table>)
        ensures
            r is Some <==> forall|i: int| 0 <= i < rows@.len() ==> #[trigger] rows@[i].len() == columns.len(),
            r matches Some(t) ==> t.wf() && t.column_names() == row_view(columns) && t.cells() == rows_view(rows@),
    {
        let mut i: usize = 0;
        while i < rows.len()
            invariant
                i <= rows.len(),
                forall|k: int| 0 <= k < i ==> #[trigger] rows@[k].len() == columns.len(),
            decreases rows.len() - i,
        {
            if rows[i].len() != columns.len() {
                return None;
            }
            i = i + 1;
        }
        Some(Table { columns, rows })
    }

    /// Names of the columns.
    pub fn columns(&self) -> (r: &Vec<String>)
        ensures
            row_view(*r) == self.column_names(),
    {
        &self.columns
    }

    /// The rows.
    pub fn rows(&self) -> (r: &Vec<Vec<String>>)
        ensures
            rows_view(r@) == self.cells(),
            self.wf() ==> forall|i: int| 0 <= i < r@.len() ==> #[trigger] r@[i].len() == self.column_names().len(),
    {
        &self.rows
    }

    /// Number of rows.
    pub fn height(&self) -> (r: usize)
        ensures
            r == self.cells().len(),
    {
        self.rows.len()
    }

    /// The cells of column `idx`, top to bottom.
    pub fn column_values(&self, idx: usize) -> (r: Vec<String>)
        requires
            self.wf(),
            idx < self.column_names().len(),
        ensures
            row_view(r) == self.cells().map_values(|row: Seq<Seq<char>>| row[idx as int]),
    {
        let mut r: Vec<String> = Vec::new();
        let mut i: usize = 0;
        while i < self.rows.len()
            invariant
                self.wf(),
                idx < self.columns.len(),
                i <= self.rows.len(),
                r.len() == i,
                forall|k: int| 0 <= k < i ==> #[trigger] r@[k]@ == self.rows@[k]@[idx as int]@,
            decreases self.rows.len() - i,
        {
            assert(self.rows@[i as int].len() == self.columns.len());
            r.push(self.rows[i][idx].clone());
            i = i + 1;
        }
        assert forall|k: int| 0 <= k < self.rows@.len() implies row_view(r)[k] == self.cells()[k][idx as int] by {
            assert(self.rows@[k].len() == self.columns.len());
            assert(self.cells()[k] == row_view(self.rows@[k]));
        }
        assert(row_view(r) =~= self.cells().map_values(|row: Seq<Seq<char>>| row[idx as int]));
        r
    }

    /// Position of the first column named `name`, if any.
    pub fn column_index(&self, name: &String) -> (r: Option<usize>)
        ensures
            r is None <==> !self.column_names().contains(name@),
            r matches Some(i) ==> i == first_index(self.column_names(), name@)
                && 0 <= i < self.column_names().len(),
    {
        index_of_name(&self.columns, name)
    }
}

/// Position of the first `name` in `names`, if any.
pub fn index_of_name(names: &Vec<String>, name: &String) -> (r: Option<usize>)
    ensures
        r is None <==> !row_view(*names).contains(name@),
        r matches Some(i) ==> i == first_index(row_view(*names), name@) && 0 <= i < names.len(),
{
    let ghost v = row_view(*names);
    let mut i: usize = 0;
    while i < names.len()
        invariant
            v == row_view(*names),
            i <= names.len(),
            forall|j: int| 0 <= j < i ==> v[j] != name@,
        decreases names.len() - i,
    {
        if names[i] == *name {
            assert(v[i as int] == name@);
            let ghost f = first_index(v, name@);
            assert(f == i as int) by {
                assert(0 <= i < v.len() && v[i as int] == name@ && forall|j: int| 0 <= j < i ==> v[j] != name@);
                if f < i {
                    assert(v[f] != name@);
                } else if f > i {
                }
            }
            return Some(i);
        }
        i = i + 1;
    }
    assert forall|k: int| 0 <= k < v.len() implies v[k] != name@ by {}
    None
}

/// The positions in `cols` of each of `names`, each the first occurrence.
pub fn positions_of(cols: &Vec<String>, names: &Vec<String>) -> (r: Vec<usize>)
    requires
        forall|k: int| 0 <= k < names.len() ==> row_view(*cols).contains(#[trigger] names@[k]@),
    ensures
        r.len() == names.len(),
        forall|k: int| 0 <= k < names.len() ==> #[trigger] r@[k] == first_index(row_view(*cols), names@[k]@)
            && r@[k] < cols.len(),
{
    let mut r: Vec<usize> = Vec::new();
    let mut k: usize = 0;
    while k < names.len()
        invariant
            forall|k: int| 0 <= k < names.len() ==> row_view(*cols).contains(#[trigger] names@[k]@),
            k <= names.len(),
            r.len() == k,
            forall|j: int| 0 <= j < k ==> #[trigger] r@[j] == first_index(row_view(*cols), names@[j]@)
                && r@[j] < cols.len(),
        decreases names.len() - k,
    {
        assert(row_view(*cols).contains(names@[k as int]@));
        match index_of_name(cols, &names[k]) {
            Some(i) => {
                r.push(i);
            },
            None => {
                assert(false);
            },
        }
        k = k + 1;
    }
    r
}

/// The cells of `row` at `pos`, in that order.
pub fn pick(row: &Vec<String>, pos: &Vec<usize>) -> (r: Vec<String>)
    requires
        forall|k: int| 0 <= k < pos.len() ==> #[trigger] pos@[k] < row.len(),
    ensures
        r.len() == pos.len(),
        forall|k: int| 0 <= k < pos.len() ==> #[trigger] row_view(r)[k] == row_view(*row)[pos@[k] as int],
{
    let mut r: Vec<String> = Vec::new();
    let mut k: usize = 0;
    while k < pos.len()
        invariant
            forall|k: int| 0 <= k < pos.len() ==> #[trigger] pos@[k] < row.len(),
            k <= pos.len(),
            r.len() == k,
            forall|j: int| 0 <= j < k ==> #[trigger] r@[j]@ == row@[pos@[j] as int]@,
        decreases pos.len() - k,
    {
        r.push(row[pos[k]].clone());
        k = k + 1;
    }
    r
}

} // verus!
