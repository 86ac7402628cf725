//! A hierarchical time series: the bottom-level table with its hierarchy
//! tree, summation matrix and time periods.
use vstd::prelude::*;
use crate::error::HtsError;
use crate::hierarchy::{columns_present, first_missing, HierarchySpec, HierarchyTree};
use crate::order::row_view;
use crate::period::{period_of, Period};
use crate::summation_matrix::SummationMatrix;
use crate::table::{first_index, Table};

verus! {

/// Sort key of a period: variant first, then the fields in order.
pub open spec fn period_key(p: Period) -> (int, int, int, int) {
    match p {
        Period::Annual(y) => (0, y as int, 0, 0),
        Period::Quarterly(y, q) => (1, y as int, q as int, 0),
        Period::Monthly(y, m) => (2, y as int, m as int, 0),
        Period::Weekly(y, w) => (3, y as int, w as int, 0),
        Period::Daily(d) => (4, d.year as int, d.month as int, d.day as int),
    }
}

/// `a` comes strictly before `b`: by frequency, then chronologically.
pub open spec fn period_lt(a: Period, b: Period) -> bool {
    let (a0, a1, a2, a3) = period_key(a);
    let (b0, b1, b2, b3) = period_key(b);
    a0 < b0 || (a0 == b0 && (a1 < b1 || (a1 == b1 && (a2 < b2 || (a2 == b2 && a3 < b3)))))
}

/// Whether `a` comes strictly before `b`.
pub fn period_less(a: &Period, b: &Period) -> (r: bool)
    ensures
        r == period_lt(*a, *b),
{
    let ka = key(a);
    let kb = key(b);
    ka.0 < kb.0 || (ka.0 == kb.0 && (ka.1 < kb.1 || (ka.1 == kb.1 && (ka.2 < kb.2 || (ka.2 == kb.2 && ka.3 < kb.3)))))
}

fn key(p: &Period) -> (r: (u8, i32, u8, u8))
    ensures
        period_key(*p) == (r.0 as int, r.1 as int, r.2 as int, r.3 as int),
{
    match *p {
        Period::Annual(y) => (0, y, 0, 0),
        Period::Quarterly(y, q) => (1, y, q, 0),
        Period::Monthly(y, m) => (2, y, m, 0),
        Period::Weekly(y, w) => (3, y, w, 0),
        Period::Daily(d) => (4, d.year, d.month, d.day),
    }
}

proof fn lemma_key_injective(a: Period, b: Period)
    requires
        period_key(a) == period_key(b),
    ensures
        a == b,
{
    match a {
        Period::Daily(da) => {
            match b {
                Period::Daily(db) => {
                    assert(da.year == db.year && da.month == db.month && da.day == db.day);
                },
                _ => {},
            }
        },
        _ => {},
    }
}

/// Each period comes strictly before every one after it: in order, and no
/// period twice.
pub open spec fn periods_sorted(s: Seq<Period>) -> bool {
    forall|i: int, j: int| 0 <= i < j < s.len() ==> period_lt(#[trigger] s[i], #[trigger] s[j])
}

/// The periods that the texts `texts` read as; every text must read as one.
pub open spec fn periods_of(texts: Seq<Seq<char>>) -> Set<Period> {
    texts.map_values(|t: Seq<char>| period_of(t)->Some_0).to_set()
}

/// Adds `x` to the strictly sorted `out`, unless it is there already.
pub fn insert_period(out: &mut Vec<Period>, x: Period)
    requires
        periods_sorted(old(out)@),
    ensures
        periods_sorted(final(out)@),
        final(out)@.to_set() == old(out)@.to_set().insert(x),
{
    let ghost o = out@;
    let mut p: usize = 0;
    while p < out.len()
        invariant
            out@ == o,
            p <= out.len(),
            forall|k: int| 0 <= k < p ==> period_lt(#[trigger] out@[k], x),
        ensures
            p <= out.len(),
            forall|k: int| 0 <= k < p ==> period_lt(#[trigger] out@[k], x),
            p < out.len() ==> !period_lt(out@[p as int], x),
        decreases out.len() - p,
    {
        if !period_less(&out[p], &x) {
            break;
        }
        p = p + 1;
    }
    if p < out.len() && !period_less(&x, &out[p]) {
        proof {
            assert(period_key(out@[p as int]) == period_key(x));
            lemma_key_injective(out@[p as int], x);
            assert(o.to_set().contains(x));
            assert(o.to_set().insert(x) =~= o.to_set());
        }
        return;
    }
    out.insert(p, x);
    proof {
        o.insert_ensures(p as int, x);
        if p < o.len() {
            assert(period_lt(x, o[p as int]));
        }
        assert forall|a: int, b: int| 0 <= a < b < out@.len() implies period_lt(#[trigger] out@[a], #[trigger] out@[b]) by {
            if a < p && b > p {
                assert(period_lt(o[a], x));
                if p < b - 1 {
                    assert(period_lt(o[p as int], o[b - 1]));
                }
            } else if a == p && b > p {
                if p < b - 1 {
                    assert(period_lt(o[p as int], o[b - 1]));
                }
            } else if a > p {
                assert(out@[a] == o[a - 1] && out@[b] == o[b - 1]);
            }
        }
        assert forall|y: Period| out@.to_set().contains(y) <==> o.to_set().insert(x).contains(y) by {
            if out@.to_set().contains(y) {
                let k = choose|k: int| 0 <= k < out@.len() && out@[k] == y;
                if k < p {
                    assert(o[k] == y);
                } else if k > p {
                    assert(o[k - 1] == y);
                }
            }
            if o.to_set().contains(y) {
                let k = choose|k: int| 0 <= k < o.len() && o[k] == y;
                if k < p {
                    assert(out@[k] == y);
                } else {
                    assert(out@[k + 1] == y);
                }
            }
            if y == x {
                assert(out@[p as int] == y);
            }
        }
        assert(out@.to_set() =~= o.to_set().insert(x));
    }
}

/// Reads each text of `column` as a period, and returns the distinct periods
/// in order. Fails on the first text that is no period.
pub fn parse_periods(column: &Vec<String>) -> (r: Result<Vec<Period>, HtsError>)
    ensures
        r is Ok <==> forall|k: int| 0 <= k < column@.len() ==> (#[trigger] period_of(column@[k]@)) is Some,
        r matches Ok(ps) ==> periods_sorted(ps@) && ps@.to_set() == periods_of(row_view(*column)),
        r matches Err(e) ==> e is InvalidPeriod,
{
    let ghost v = row_view(*column);
    let mut out: Vec<Period> = Vec::new();
    let mut i: usize = 0;
    assert(periods_of(v.take(0)) =~= Set::<Period>::empty());
    while i < column.len()
        invariant
            v == row_view(*column),
            i <= column.len(),
            periods_sorted(out@),
            out@.to_set() == periods_of(v.take(i as int)),
            forall|k: int| 0 <= k < i ==> (#[trigger] period_of(column@[k]@)) is Some,
        decreases column.len() - i,
    {
        match Period::parse(column[i].as_str()) {
            Ok(p) => {
                insert_period(&mut out, p);
                proof {
                    let f = |t: Seq<char>| period_of(t)->Some_0;
                    assert(v.take(i + 1) =~= v.take(i as int).push(v[i as int]));
                    assert(v.take(i + 1).map_values(f) =~= v.take(i as int).map_values(f).push(p));
                    v.take(i as int).map_values(f).lemma_push_to_set_commute(p);
                }
            },
            Err(e) => {
                return Err(e);
            },
        }
        i = i + 1;
    }
    assert(v.take(column.len() as int) =~= v);
    Ok(out)
}

/// Reads the periods of column `idx` of `table`, as `parse_periods` does.
fn time_periods(table: &Table, idx: usize) -> (r: Result<Vec<Period>, HtsError>)
    requires
        table.wf(),
        idx < table.column_names().len(),
    ensures
        r is Ok <==> forall|k: int| 0 <= k < table.cells().len() ==> (#[trigger] period_of(table.cells()[k][idx as int])) is Some,
        r matches Ok(ps) ==> periods_sorted(ps@)
            && ps@.to_set() == periods_of(table.cells().map_values(|row: Seq<Seq<char>>| row[idx as int])),
        r matches Err(e) ==> e is InvalidPeriod,
{
    let times = table.column_values(idx);
    let ghost tc = row_view(times);
    assert(tc.len() == table.cells().len());
    assert forall|k: int| 0 <= k < times@.len() implies #[trigger] times@[k]@ == table.cells()[k][idx as int] by {
        assert(tc[k] == times@[k]@);
    }
    let r = parse_periods(&times);
    proof {
        if r is Ok {
            assert forall|k: int| 0 <= k < table.cells().len() implies (#[trigger] period_of(table.cells()[k][idx as int])) is Some by {
                assert(period_of(times@[k]@) is Some);
            }
        } else {
            let k = choose|k: int| 0 <= k < times@.len() && !((#[trigger] period_of(times@[k]@)) is Some);
            assert(!(period_of(table.cells()[k][idx as int]) is Some));
        }
    }
    r
}

/// A hierarchical and/or grouped time series: bottom-level data, its
/// hierarchy tree and summation matrix, and its time periods.
#[derive(Debug, Clone)]
pub struct HierarchicalTimeSeries {
    bottom_data: Table,
    spec: HierarchySpec,
    tree: HierarchyTree,
    s_matrix: SummationMatrix,
    periods: Vec<Period>,
    time_col: String,
    value_col: String,
}

/// Structure summary of a hierarchical time series.
#[derive(Debug)]
pub struct HtsSummary {
    /// Total number of series.
    pub n_series: usize,
    /// Number of bottom-level series.
    pub n_bottom: usize,
    /// Number of time periods.
    pub n_periods: usize,
    /// Hierarchy columns.
    pub hierarchy_cols: Vec<String>,
    /// Group columns.
    pub group_cols: Vec<String>,
    /// Shape of S: (series, bottom series).
    pub s_matrix_shape: (usize, usize),
}

impl HierarchicalTimeSeries {
    /// The hierarchy tree.
    pub closed spec fn tree_view(&self) -> HierarchyTree {
        self.tree
    }

    /// The summation matrix.
    pub closed spec fn matrix_view(&self) -> SummationMatrix {
        self.s_matrix
    }

    /// The periods, in order.
    pub closed spec fn period_seq(&self) -> Seq<Period> {
        self.periods@
    }

    /// The specification.
    pub closed spec fn spec_view(&self) -> HierarchySpec {
        self.spec
    }

    /// The bottom-level table.
    pub closed spec fn table_view(&self) -> Table {
        self.bottom_data
    }

    /// Names of the time and value columns.
    pub closed spec fn time_value_cols(&self) -> (Seq<char>, Seq<char>) {
        (self.time_col@, self.value_col@)
    }

    /// Tree, matrix and periods belong together.
    pub open spec fn wf(&self) -> bool {
        &&& self.tree_view().wf()
        &&& self.tree_view().ids_unique()
        &&& self.matrix_view().of_tree(self.tree_view())
        &&& periods_sorted(self.period_seq())
    }

    /// Builds the series from `bottom_data`: checks the time and value
    /// columns, reads the distinct time texts as periods, and builds the tree
    /// and the summation matrix.
    pub fn new(bottom_data: Table, spec: HierarchySpec, time_col: &str, value_col: &str) -> (r: Result<Self, HtsError>)
        requires
            bottom_data.wf(),
        ensures
            !bottom_data.column_names().contains(time_col@) ==> (r matches Err(HtsError::ColumnNotFound(c)) && c@ == time_col@),
            bottom_data.column_names().contains(time_col@) && !bottom_data.column_names().contains(value_col@)
                ==> (r matches Err(HtsError::ColumnNotFound(c)) && c@ == value_col@),
            bottom_data.column_names().contains(time_col@) && bottom_data.column_names().contains(value_col@) ==> (
                (r matches Err(HtsError::InvalidPeriod(_))) <==> exists|k: int| 0 <= k < bottom_data.cells().len()
                    && (#[trigger] period_of(bottom_data.cells()[k][first_index(bottom_data.column_names(), time_col@)])) is None),
            bottom_data.column_names().contains(time_col@) && bottom_data.column_names().contains(value_col@)
                && (forall|k: int| 0 <= k < bottom_data.cells().len()
                    ==> (#[trigger] period_of(bottom_data.cells()[k][first_index(bottom_data.column_names(), time_col@)])) is Some) ==> {
                &&& columns_present(spec.all(), bottom_data.column_names()) <==> !(r matches Err(HtsError::ColumnNotFound(_)))
                &&& r matches Err(HtsError::ColumnNotFound(c)) ==> first_missing(spec.all(), bottom_data.column_names(), c@)
                &&& r matches Err(HtsError::Hierarchy(_)) ==> exists|t: HierarchyTree|
                    t.built_from(bottom_data.column_names(), bottom_data.cells(), spec.h(), spec.g()) && !t.ids_unique()
            },
            r matches Ok(h) ==> {
                &&& h.wf()
                &&& h.table_view() == bottom_data
                &&& h.spec_view() == spec
                &&& h.time_value_cols() == (time_col@, value_col@)
                &&& h.tree_view().built_from(bottom_data.column_names(), bottom_data.cells(), spec.h(), spec.g())
                &&& h.period_seq().to_set() == periods_of(bottom_data.cells().map_values(
                    |row: Seq<Seq<char>>| row[first_index(bottom_data.column_names(), time_col@)],
                ))
            },
    {
        let tname = String::from_str(time_col);
        let vname = String::from_str(value_col);
        let tidx = match bottom_data.column_index(&tname) {
            Some(i) => i,
            None => {
                return Err(HtsError::ColumnNotFound(tname));
            },
        };
        match bottom_data.column_index(&vname) {
            Some(_) => {},
            None => {
                return Err(HtsError::ColumnNotFound(vname));
            },
        }
        let periods = match time_periods(&bottom_data, tidx) {
            Ok(p) => p,
            Err(e) => {
                return Err(e);
            },
        };
        let tree = match HierarchyTree::from_dataframe(&bottom_data, &spec) {
            Ok(t) => t,
            Err(e) => {
                return Err(e);
            },
        };
        let s_matrix = SummationMatrix::from_hierarchy(&tree);
        Ok(HierarchicalTimeSeries {
            bottom_data,
            spec,
            tree,
            s_matrix,
            periods,
            time_col: tname,
            value_col: vname,
        })
    }

    /// Total number of series, all levels.
    pub fn n_series(&self) -> (r: usize)
        ensures
            r == self.tree_view().node_seq().len(),
    {
        self.tree.n_series()
    }

    /// Number of bottom-level series.
    pub fn n_bottom(&self) -> (r: usize)
        ensures
            r == self.tree_view().bottom_count(),
    {
        self.tree.n_bottom()
    }

    /// Number of time periods.
    pub fn n_periods(&self) -> (r: usize)
        ensures
            r == self.period_seq().len(),
    {
        self.periods.len()
    }

    /// The time periods, in order.
    pub fn periods(&self) -> (r: &[Period])
        ensures
            r@ == self.period_seq(),
    {
        self.periods.as_slice()
    }

    /// The summation matrix.
    pub fn summation_matrix(&self) -> (r: &SummationMatrix)
        ensures
            *r == self.matrix_view(),
    {
        &self.s_matrix
    }

    /// The hierarchy tree.
    pub fn hierarchy_tree(&self) -> (r: &HierarchyTree)
        ensures
            *r == self.tree_view(),
    {
        &self.tree
    }

    /// The specification.
    pub fn spec(&self) -> (r: &HierarchySpec)
        ensures
            *r == self.spec_view(),
    {
        &self.spec
    }

    /// The bottom-level data.
    pub fn bottom_data(&self) -> (r: &Table)
        ensures
            *r == self.table_view(),
    {
        &self.bottom_data
    }

    /// Name of the time column.
    pub fn time_col(&self) -> (r: &String)
        ensures
            r@ == self.time_value_cols().0,
    {
        &self.time_col
    }

    /// Name of the value column.
    pub fn value_col(&self) -> (r: &String)
        ensures
            r@ == self.time_value_cols().1,
    {
        &self.value_col
    }

    /// Counts and shape of the structure.
    pub fn summary(&self) -> (r: HtsSummary)
        requires
            self.wf(),
        ensures
            r.n_series == self.tree_view().node_seq().len(),
            r.n_bottom == self.tree_view().bottom_count(),
            r.n_periods == self.period_seq().len(),
            row_view(r.hierarchy_cols) == self.spec_view().h(),
            row_view(r.group_cols) == self.spec_view().g(),
            r.s_matrix_shape.0 == self.tree_view().node_seq().len(),
            r.s_matrix_shape.1 == self.tree_view().bottom_count(),
    {
        HtsSummary {
            n_series: self.n_series(),
            n_bottom: self.n_bottom(),
            n_periods: self.n_periods(),
            hierarchy_cols: crate::order::copy_row(&self.spec.hierarchy),
            group_cols: crate::order::copy_row(&self.spec.groups),
            s_matrix_shape: self.s_matrix.shape(),
        }
    }
}

} // verus!
