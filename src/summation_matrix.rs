//! The summation matrix: a 0/1 matrix that maps the bottom series to every
//! series of the hierarchy.
use vstd::prelude::*;
use crate::hierarchy::{
    lemma_bottom_level_identity, lemma_build_deterministic, lemma_level_starts_agree,
    lemma_level_starts_bounded, lemma_node_level, lemma_total_first, node_view, total_id,
    HierarchyTree, Node,
};
use crate::table::project;

verus! {

/// `row` weighted by `b`, over the first `k` columns.
pub open spec fn dot(row: Seq<u8>, b: Seq<i64>, k: nat) -> int
    decreases k,
{
    if k == 0 {
        0
    } else {
        dot(row, b, (k - 1) as nat) + (row[k - 1] as int) * (b[k - 1] as int)
    }
}

/// The dense summation matrix S, with y = S b.
///
/// Row `i` belongs to node `i` of the tree; column `j` to bottom row `j`.
#[derive(Debug, Clone)]
pub struct SummationMatrix {
    matrix: Vec<Vec<u8>>,
    n_cols: usize,
    row_labels: Vec<String>,
    col_labels: Vec<String>,
}

impl SummationMatrix {
    /// The entries, row by row.
    pub closed spec fn entries(&self) -> Seq<Seq<u8>> {
        self.matrix@.map_values(|r: Vec<u8>| r@)
    }

    /// Number of columns.
    pub closed spec fn width(&self) -> nat {
        self.n_cols as nat
    }

    /// Ids of the rows.
    pub closed spec fn row_ids(&self) -> Seq<Seq<char>> {
        self.row_labels@.map_values(|s: String| s@)
    }

    /// Ids of the columns.
    pub closed spec fn col_ids(&self) -> Seq<Seq<char>> {
        self.col_labels@.map_values(|s: String| s@)
    }

    /// Every row has one 0/1 entry per column.
    pub open spec fn wf(&self) -> bool {
        forall|i: int| 0 <= i < self.entries().len() ==> {
            &&& (#[trigger] self.entries()[i]).len() == self.width()
            &&& forall|j: int| 0 <= j < self.width() ==> self.entries()[i][j] <= 1
        }
    }

    /// The matrix is the one of `tree`: a row per node, a column per bottom
    /// row, entry 1 exactly where the column's bottom row is a member of the
    /// row's node; rows labelled with node ids, columns with the ids of the
    /// bottom-level nodes, one per column.
    pub open spec fn of_tree(&self, tree: HierarchyTree) -> bool {
        &&& self.wf()
        &&& self.entries().len() == tree.node_seq().len()
        &&& self.width() == tree.bottom_count()
        &&& forall|i: int, j: int| 0 <= i < tree.node_seq().len() && 0 <= j < self.width() ==>
            (#[trigger] self.entries()[i][j] == 1 <==> tree.node_seq()[i].aggregates_from@.contains(j as usize))
        &&& self.row_ids().len() == tree.node_seq().len()
        &&& forall|i: int| 0 <= i < tree.node_seq().len() ==> #[trigger] self.row_ids()[i] == tree.node_seq()[i].id@
        &&& self.col_ids().len() == self.width()
        &&& forall|k: int| 0 <= k < self.col_ids().len() ==>
            #[trigger] self.col_ids()[k] == tree.bottom_nodes()[k].id@
    }

    /// Builds S from a hierarchy tree.
    pub fn from_hierarchy(tree: &HierarchyTree) -> (r: Self)
        requires
            tree.wf(),
            tree.bottom_ok(),
        ensures
            r.of_tree(*tree),
    {
        let n = tree.n_series();
        let m = tree.n_bottom();
        let nodes = tree.nodes();
        let mut matrix: Vec<Vec<u8>> = Vec::new();
        let mut row_labels: Vec<String> = Vec::new();
        let mut i: usize = 0;
        while i < n
            invariant
                tree.wf(),
                n == tree.node_seq().len(),
                m == tree.bottom_count(),
                nodes@ == tree.node_seq(),
                i <= n,
                matrix@.len() == i,
                row_labels@.len() == i,
                forall|a: int| 0 <= a < i ==> #[trigger] row_labels@[a]@ == tree.node_seq()[a].id@,
                forall|a: int| 0 <= a < i ==> (#[trigger] matrix@[a])@.len() == m,
                forall|a: int, j: int| 0 <= a < i && 0 <= j < m ==> {
                    &&& (#[trigger] matrix@[a]@[j]) <= 1
                    &&& (matrix@[a]@[j] == 1 <==> tree.node_seq()[a].aggregates_from@.contains(j as usize))
                },
            decreases n - i,
        {
            let li = Ghost(lemma_node_level(*tree, i as int));
            let row = membership_row(&nodes[i], m);
            matrix.push(row);
            row_labels.push(nodes[i].id.clone());
            i = i + 1;
        }
        let bottom = tree.bottom_level_nodes();
        let mut col_labels: Vec<String> = Vec::new();
        let mut k: usize = 0;
        while k < bottom.len()
            invariant
                k <= bottom.len(),
                col_labels@.len() == k,
                forall|a: int| 0 <= a < k ==> #[trigger] col_labels@[a]@ == bottom@[a].id@,
            decreases bottom.len() - k,
        {
            col_labels.push(bottom[k].id.clone());
            k = k + 1;
        }
        let r = SummationMatrix { matrix, n_cols: m, row_labels, col_labels };
        assert(r.of_tree(*tree)) by {
            assert forall|i: int, j: int| 0 <= i < tree.node_seq().len() && 0 <= j < r.width() implies
                (#[trigger] r.entries()[i][j] == 1 <==> tree.node_seq()[i].aggregates_from@.contains(j as usize)) by {
                assert(r.entries()[i] == r.matrix@[i]@);
            }
            assert forall|i: int| 0 <= i < r.entries().len() implies {
                &&& (#[trigger] r.entries()[i]).len() == r.width()
                &&& forall|j: int| 0 <= j < r.width() ==> r.entries()[i][j] <= 1
            } by {
                assert(r.entries()[i] == r.matrix@[i]@);
            }
        }
        r
    }
}

proof fn lemma_dot_bound(row: Seq<u8>, b: Seq<i64>, k: nat)
    requires
        k <= row.len(),
        k <= b.len(),
        forall|j: int| 0 <= j < k ==> row[j] <= 1,
    ensures
        -(k as int) * 0x8000_0000_0000_0000 <= dot(row, b, k) <= (k as int) * 0x8000_0000_0000_0000,
    decreases k,
{
    if k > 0 {
        lemma_dot_bound(row, b, (k - 1) as nat);
        let e = row[k - 1] as int;
        let v = b[k - 1] as int;
        assert(-0x8000_0000_0000_0000 <= e * v <= 0x8000_0000_0000_0000) by (nonlinear_arith)
            requires
                0 <= e <= 1,
                -0x8000_0000_0000_0000 <= v < 0x8000_0000_0000_0000,
        ;
    }
}

impl SummationMatrix {
    /// All series from the bottom series: y = S b, exactly.
    pub fn aggregate(&self, bottom_values: &[i64]) -> (r: Vec<i128>)
        requires
            self.wf(),
            bottom_values@.len() == self.width(),
        ensures
            r@.len() == self.entries().len(),
            forall|i: int| 0 <= i < r@.len() ==> #[trigger] r@[i] as int == dot(self.entries()[i], bottom_values@, self.width()),
    {
        let m = self.n_cols;
        let mut y: Vec<i128> = Vec::new();
        let mut i: usize = 0;
        while i < self.matrix.len()
            invariant
                self.wf(),
                m == self.width(),
                bottom_values@.len() == m,
                i <= self.matrix.len(),
                y@.len() == i,
                forall|a: int| 0 <= a < i ==> #[trigger] y@[a] as int == dot(self.entries()[a], bottom_values@, m as nat),
            decreases self.matrix.len() - i,
        {
            let row = &self.matrix[i];
            assert(row@ == self.entries()[i as int]);
            assert(self.entries()[i as int].len() == m);
            let mut acc: i128 = 0;
            let mut j: usize = 0;
            while j < m
                invariant
                    self.wf(),
                    m == self.width(),
                    i < self.entries().len(),
                    row@ == self.entries()[i as int],
                    row@.len() == m,
                    forall|q: int| 0 <= q < m ==> row@[q] <= 1,
                    bottom_values@.len() == m,
                    j <= m,
                    acc as int == dot(row@, bottom_values@, j as nat),
                decreases m - j,
            {
                proof {
                    lemma_dot_bound(row@, bottom_values@, j as nat);
                    assert(dot(row@, bottom_values@, (j + 1) as nat) == dot(row@, bottom_values@, j as nat)
                        + (row@[j as int] as int) * (bottom_values@[j as int] as int));
                    assert((j + 1) as int * 0x8000_0000_0000_0000 <= 0x7fff_ffff_ffff_ffff_ffff_ffff_ffff_ffff) by (nonlinear_arith)
                        requires
                            j < m,
                            m <= usize::MAX,
                    ;
                }
                if row[j] == 1 {
                    assert(-0x8000_0000_0000_0000 * (j as int) >= -0x7fff_ffff_ffff_ffff_ffff_ffff_ffff_ffff + 0x8000_0000_0000_0000) by (nonlinear_arith)
                        requires
                            j < m,
                            m <= usize::MAX,
                    ;
                    assert((j as int) * 0x8000_0000_0000_0000 + 0x8000_0000_0000_0000 <= 0x7fff_ffff_ffff_ffff_ffff_ffff_ffff_ffff) by (nonlinear_arith)
                        requires
                            j < m,
                            m <= usize::MAX,
                    ;
                    acc = acc + bottom_values[j] as i128;
                    assert(row@[j as int] == 1);
                    assert((row@[j as int] as int) * (bottom_values@[j as int] as int) == bottom_values@[j as int] as int);
                } else {
                    let ghost e = row@[j as int] as int;
                    let ghost v = bottom_values@[j as int] as int;
                    assert(e == 0);
                    assert(e * v == 0) by (nonlinear_arith)
                        requires
                            e == 0,
                    ;
                }
                j = j + 1;
            }
            y.push(acc);
            i = i + 1;
        }
        y
    }

    /// (number of series, number of bottom series).
    pub fn shape(&self) -> (r: (usize, usize))
        ensures
            r.0 == self.entries().len(),
            r.1 == self.width(),
    {
        (self.matrix.len(), self.n_cols)
    }

    /// Number of series (rows).
    pub fn n_series(&self) -> (r: usize)
        ensures
            r == self.entries().len(),
    {
        self.matrix.len()
    }

    /// Number of bottom series (columns).
    pub fn n_bottom(&self) -> (r: usize)
        ensures
            r == self.width(),
    {
        self.n_cols
    }

    /// Ids of the rows: every node, in tree order.
    pub fn row_labels(&self) -> (r: &[String])
        ensures
            r@.map_values(|s: String| s@) == self.row_ids(),
    {
        self.row_labels.as_slice()
    }

    /// Ids of the columns: the bottom-level nodes, in order.
    pub fn col_labels(&self) -> (r: &[String])
        ensures
            r@.map_values(|s: String| s@) == self.col_ids(),
    {
        self.col_labels.as_slice()
    }

    /// Entry (`i`, `j`).
    pub fn get(&self, i: usize, j: usize) -> (r: u8)
        requires
            self.wf(),
            i < self.entries().len(),
            j < self.width(),
        ensures
            r == self.entries()[i as int][j as int],
    {
        assert(self.matrix@[i as int]@ == self.entries()[i as int]);
        self.matrix[i][j]
    }

    /// The entries as nested rows.
    pub fn to_vec(&self) -> (r: Vec<Vec<u8>>)
        ensures
            r@.map_values(|v: Vec<u8>| v@) == self.entries(),
    {
        let mut r: Vec<Vec<u8>> = Vec::new();
        let mut i: usize = 0;
        while i < self.matrix.len()
            invariant
                i <= self.matrix.len(),
                r@.len() == i,
                forall|a: int| 0 <= a < i ==> #[trigger] r@[a]@ == self.matrix@[a]@,
            decreases self.matrix.len() - i,
        {
            let src = &self.matrix[i];
            let mut row: Vec<u8> = Vec::new();
            let mut j: usize = 0;
            while j < src.len()
                invariant
                    j <= src.len(),
                    row@ == src@.take(j as int),
                decreases src.len() - j,
            {
                row.push(src[j]);
                j = j + 1;
                assert(row@ =~= src@.take(j as int));
            }
            assert(src@.take(src.len() as int) =~= src@);
            r.push(row);
            i = i + 1;
        }
        assert(r@.map_values(|v: Vec<u8>| v@) =~= self.entries());
        r
    }
}

/// The sum of `b` over the indices listed in `ms`.
pub open spec fn member_sum(ms: Seq<usize>, b: Seq<i64>) -> int
    decreases ms.len(),
{
    if ms.len() == 0 {
        0
    } else {
        member_sum(ms.drop_last(), b) + b[ms.last() as int] as int
    }
}

/// The sum of the first `k` entries of `b`.
pub open spec fn total(b: Seq<i64>, k: nat) -> int
    decreases k,
{
    if k == 0 {
        0
    } else {
        total(b, (k - 1) as nat) + b[k - 1] as int
    }
}

proof fn lemma_dot_members(row: Seq<u8>, b: Seq<i64>, ms: Seq<usize>, k: int, c: int)
    requires
        0 <= k <= row.len(),
        row.len() == b.len(),
        row.len() <= usize::MAX,
        0 <= c <= ms.len(),
        forall|i: int, j: int| 0 <= i < j < ms.len() ==> ms[i] < ms[j],
        forall|j: int| 0 <= j < row.len() ==> row[j] <= 1,
        forall|j: int| 0 <= j < row.len() ==> (#[trigger] row[j] == 1 <==> ms.contains(j as usize)),
        forall|i: int| 0 <= i < c ==> ms[i] < k,
        forall|i: int| c <= i < ms.len() ==> ms[i] >= k,
    ensures
        dot(row, b, k as nat) == member_sum(ms.take(c), b),
    decreases k,
{
    if k == 0 {
        if c > 0 {
            assert(ms[0] < 0);
        }
        assert(ms.take(c) =~= Seq::<usize>::empty());
    } else {
        let e = row[k - 1] as int;
        let v = b[k - 1] as int;
        if c > 0 && ms[c - 1] == k - 1 {
            lemma_dot_members(row, b, ms, k - 1, c - 1);
            assert(ms.take(c).drop_last() =~= ms.take(c - 1));
            assert(ms.contains((k - 1) as usize));
            assert(row[k - 1] == 1);
            assert(e * v == v) by (nonlinear_arith)
                requires
                    e == 1,
            ;
        } else {
            assert forall|i: int| 0 <= i < c implies ms[i] < k - 1 by {
                if i < c - 1 {
                    assert(ms[i] < ms[c - 1]);
                }
            }
            assert forall|q: int| 0 <= q < ms.len() implies ms[q] as int != k - 1 by {
                if q < c {
                    assert(ms[q] < k - 1);
                }
            }
            assert(((k - 1) as usize) as int == k - 1);
            assert(!ms.contains((k - 1) as usize));
            assert(row[k - 1] != 1);
            assert(e * v == 0) by (nonlinear_arith)
                requires
                    e == 0,
            ;
            lemma_dot_members(row, b, ms, k - 1, c);
        }
    }
}

/// Aggregating is summing over members: for every node, entry `i` of
/// `aggregate(b)` is the sum of `b[j]` over the node's member rows `j`.
pub proof fn lemma_aggregate_is_member_sum(s: SummationMatrix, t: HierarchyTree, b: Seq<i64>, i: int)
    requires
        t.wf(),
        s.of_tree(t),
        b.len() == s.width(),
        0 <= i < t.node_seq().len(),
    ensures
        dot(s.entries()[i], b, s.width()) == member_sum(t.node_seq()[i].aggregates_from@, b),
{
    let li = lemma_node_level(t, i);
    let ms = t.node_seq()[i].aggregates_from@;
    let row = s.entries()[i];
    assert(s.width() <= usize::MAX) by {
        assert(s.width() == s.n_cols);
    }
    assert forall|j: int| 0 <= j < row.len() implies (#[trigger] row[j] == 1 <==> ms.contains(j as usize)) by {
        assert(s.entries()[i][j] == 1 <==> t.node_seq()[i].aggregates_from@.contains(j as usize));
    }
    lemma_dot_members(row, b, ms, s.width() as int, ms.len() as int);
    assert(ms.take(ms.len() as int) =~= ms);
}

proof fn lemma_dot_all_ones(row: Seq<u8>, b: Seq<i64>, k: nat)
    requires
        k <= row.len(),
        k <= b.len(),
        forall|j: int| 0 <= j < k ==> row[j] == 1,
    ensures
        dot(row, b, k) == total(b, k),
    decreases k,
{
    if k > 0 {
        lemma_dot_all_ones(row, b, (k - 1) as nat);
        let e = row[k - 1] as int;
        let v = b[k - 1] as int;
        assert(e * v == v) by (nonlinear_arith)
            requires
                e == 1,
        ;
    }
}

/// The first row is the total: its id is "Total", and its entry of
/// `aggregate(b)` is the sum of every entry of `b`.
pub proof fn lemma_total_row_is_sum(
    s: SummationMatrix,
    t: HierarchyTree,
    b: Seq<i64>,
    cols: Seq<Seq<char>>,
    cells: Seq<Seq<Seq<char>>>,
    h: Seq<Seq<char>>,
    g: Seq<Seq<char>>,
)
    requires
        t.built_from(cols, cells, h, g),
        s.of_tree(t),
        b.len() == s.width(),
    ensures
        s.entries().len() > 0,
        s.row_ids()[0] == total_id(),
        dot(s.entries()[0], b, s.width()) == total(b, s.width()),
{
    lemma_total_first(h, g);
    let seg = t.segment(0);
    assert(seg.len() == 1);
    lemma_node_count(t);
    assert(t.start(0) <= t.start(1));
    assert(seg[0] == t.node_seq()[0]);
    let n = t.node_seq()[0];
    let lv = t.level_seq()[0];
    assert(lv.len() == 0);
    let row = s.entries()[0];
    assert forall|j: int| 0 <= j < s.width() implies row[j] == 1 by {
        assert(project(t.bottom_rows()[j], t.all_cols(), lv) =~= Seq::<Seq<char>>::empty());
        assert(crate::hierarchy::key_of(n) =~= Seq::<Seq<char>>::empty());
        assert(n.aggregates_from@.contains(j as usize));
        assert(s.entries()[0][j] == 1);
    }
    lemma_dot_all_ones(row, b, s.width());
}

proof fn lemma_node_count(t: HierarchyTree)
    requires
        t.wf(),
    ensures
        t.start(1) <= t.node_seq().len(),
{
    crate::hierarchy::lemma_level_starts_bounded(t, 1);
}

/// The rows of S for the bottom level form the identity matrix, and S has
/// one column label per bottom row.
pub proof fn lemma_bottom_rows_identity(
    s: SummationMatrix,
    t: HierarchyTree,
    cols: Seq<Seq<char>>,
    cells: Seq<Seq<Seq<char>>>,
    h: Seq<Seq<char>>,
    g: Seq<Seq<char>>,
)
    requires
        t.built_from(cols, cells, h, g),
        s.of_tree(t),
    ensures
        s.col_ids().len() == s.width(),
        t.start(t.level_seq().len() - 1) + s.width() <= s.entries().len(),
        forall|k: int, j: int| 0 <= k < s.width() && 0 <= j < s.width() ==>
            #[trigger] s.entries()[t.start(t.level_seq().len() - 1) + k][j] == (if k == j { 1u8 } else { 0u8 }),
{
    let last = t.level_seq().len() - 1;
    lemma_bottom_level_identity(t, cols, cells, h, g);
    lemma_level_starts_bounded(t, last + 1);
    lemma_level_starts_bounded(t, last);
    let b = t.start(last);
    assert(t.start(last) <= t.start(last + 1));
    assert forall|k: int, j: int| 0 <= k < s.width() && 0 <= j < s.width() implies
        #[trigger] s.entries()[b + k][j] == (if k == j { 1u8 } else { 0u8 }) by {
        assert(t.node_seq()[b + k] == t.segment(last)[k]);
        assert(t.segment(last)[k].aggregates_from@ == seq![k as usize]);
        assert(s.entries()[b + k][j] == 1 <==> t.node_seq()[b + k].aggregates_from@.contains(j as usize));
        if k != j {
            assert(!seq![k as usize].contains(j as usize));
            assert(s.entries()[b + k][j] <= 1);
        } else {
            assert(seq![k as usize][0] == j as usize);
        }
    }
}

/// Building S twice, each time from a tree built from the same table and
/// spec, gives the same entries and the same row and column labels.
pub proof fn lemma_matrix_deterministic(
    s1: SummationMatrix,
    s2: SummationMatrix,
    t1: HierarchyTree,
    t2: HierarchyTree,
    cols: Seq<Seq<char>>,
    cells: Seq<Seq<Seq<char>>>,
    h: Seq<Seq<char>>,
    g: Seq<Seq<char>>,
)
    requires
        t1.built_from(cols, cells, h, g),
        t2.built_from(cols, cells, h, g),
        s1.of_tree(t1),
        s2.of_tree(t2),
    ensures
        s1.entries() == s2.entries(),
        s1.row_ids() == s2.row_ids(),
        s1.col_ids() == s2.col_ids(),
{
    lemma_build_deterministic(t1, t2, cols, cells, h, g);
    let n = t1.node_seq().len();
    assert forall|i: int| 0 <= i < n implies s1.entries()[i] == s2.entries()[i] by {
        assert(node_view(t1.node_seq()[i]) == node_view(t2.node_seq()[i]));
        assert forall|j: int| 0 <= j < s1.width() implies s1.entries()[i][j] == s2.entries()[i][j] by {
            assert(s1.entries()[i][j] == 1 <==> t1.node_seq()[i].aggregates_from@.contains(j as usize));
            assert(s2.entries()[i][j] == 1 <==> t2.node_seq()[i].aggregates_from@.contains(j as usize));
            assert(s1.entries()[i][j] <= 1);
            assert(s2.entries()[i][j] <= 1);
        }
        assert(s1.entries()[i] =~= s2.entries()[i]);
    }
    assert(s1.entries() =~= s2.entries());
    assert forall|i: int| 0 <= i < n implies s1.row_ids()[i] == s2.row_ids()[i] by {
        assert(node_view(t1.node_seq()[i]) == node_view(t2.node_seq()[i]));
    }
    assert(s1.row_ids() =~= s2.row_ids());
    let last = t1.level_seq().len() - 1;
    lemma_total_first(h, g);
    lemma_level_starts_bounded(t1, last + 1);
    lemma_level_starts_bounded(t1, last);
    lemma_level_starts_bounded(t2, last + 1);
    lemma_level_starts_bounded(t2, last);
    crate::hierarchy::lemma_bottom_ok(t1, cols, cells, h, g);
    crate::hierarchy::lemma_bottom_ok(t2, cols, cells, h, g);
    crate::hierarchy::lemma_bottom_level_identity(t1, cols, cells, h, g);
    lemma_level_starts_agree(t1, t2, cols, cells, h, g, last);
    lemma_level_starts_agree(t1, t2, cols, cells, h, g, last + 1);
    assert forall|k: int| 0 <= k < s1.col_ids().len() implies s1.col_ids()[k] == s2.col_ids()[k] by {
        let i = t1.start(last) + k;
        assert(s1.col_ids()[k] == t1.bottom_nodes()[k].id@);
        assert(s2.col_ids()[k] == t2.bottom_nodes()[k].id@);
        assert(k < t1.bottom_rows().len());
        assert(t1.bottom_nodes()[k] == t1.segment(last)[k]);
        assert(t2.bottom_nodes()[k] == t2.segment(last)[k]);
        assert(t1.segment(last)[k] == t1.node_seq()[i]);
        assert(t2.segment(last)[k] == t2.node_seq()[i]);
        assert(node_view(t1.node_seq()[i]) == node_view(t2.node_seq()[i]));
    }
    assert(s1.col_ids() =~= s2.col_ids());
}

fn membership_row(node: &Node, m: usize) -> (r: Vec<u8>)
    requires
        forall|i: int| 0 <= i < node.aggregates_from@.len() ==> node.aggregates_from@[i] < m,
    ensures
        r@.len() == m,
        forall|j: int| 0 <= j < m ==> #[trigger] r@[j] <= 1 && (r@[j] == 1 <==> node.aggregates_from@.contains(j as usize)),
{
    let mut r: Vec<u8> = vec![0u8; m];
    let ms = &node.aggregates_from;
    let mut k: usize = 0;
    while k < ms.len()
        invariant
            forall|i: int| 0 <= i < ms@.len() ==> ms@[i] < m,
            k <= ms.len(),
            r@.len() == m,
            forall|j: int| 0 <= j < m ==> #[trigger] r@[j] <= 1 && (r@[j] == 1 <==> ms@.take(k as int).contains(j as usize)),
        decreases ms.len() - k,
    {
        let target = ms[k];
        let ghost r0 = r@;
        r.set(target, 1);
        assert forall|j: int| 0 <= j < m implies #[trigger] r@[j] <= 1 && (r@[j] == 1 <==> ms@.take(k + 1).contains(j as usize)) by {
            assert(ms@.take(k + 1) =~= ms@.take(k as int).push(target));
            assert(ms@.take(k + 1)[k as int] == target);
            if j != target as int {
                assert(r@[j] == r0[j]);
                let tk1 = ms@.take(k + 1);
                if tk1.contains(j as usize) {
                    let q = choose|q: int| 0 <= q < tk1.len() && tk1[q] == j as usize;
                    assert(q != k);
                    assert(ms@.take(k as int)[q] == j as usize);
                }
            }
            if ms@.take(k as int).contains(j as usize) {
                let q = choose|q: int| 0 <= q < k && ms@.take(k as int)[q] == j as usize;
                assert(ms@.take(k + 1)[q] == j as usize);
            }
        }
        k = k + 1;
    }
    assert(ms@.take(ms@.len() as int) =~= ms@);
    r
}

} // verus!
