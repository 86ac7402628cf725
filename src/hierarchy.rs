//! How the aggregation levels of a hierarchy are specified and enumerated,
//! and the tree of nodes built from a table.
use vstd::prelude::*;
use crate::error::HtsError;
use crate::order::{
    by_len_upto, has_len, contains_row, row_equal, copy_row, distinct_in_order, ordered_by_len, row_view, rows_view,
};
use crate::order::{row_lt, sorted_distinct_rows, strictly_sorted};
use crate::table::{pick, positions_of, project, Table};

verus! {

/// The pure-hierarchy levels `h[..n]` for `n` from 1 up, each followed by its
/// cross with the groups when there are groups and `n` is below the depth.
pub open spec fn hierarchy_levels(h: Seq<Seq<char>>, g: Seq<Seq<char>>, n: nat) -> Seq<Seq<Seq<char>>>
    decreases n,
{
    if n == 0 {
        seq![]
    } else {
        let with_prefix = hierarchy_levels(h, g, (n - 1) as nat).push(h.take(n as int));
        if g.len() > 0 && n < h.len() {
            with_prefix.push(h.take(n as int) + g)
        } else {
            with_prefix
        }
    }
}

/// The levels in the order they are produced: the total, the groups alone
/// (when there are both groups and hierarchy columns), the hierarchy levels
/// with their crosses, and last the bottom level when not yet present.
pub open spec fn emitted_levels(h: Seq<Seq<char>>, g: Seq<Seq<char>>) -> Seq<Seq<Seq<char>>> {
    let start = if g.len() > 0 && h.len() > 0 { seq![seq![], g] } else { seq![seq![]] };
    let e = start + hierarchy_levels(h, g, h.len());
    if e.contains(h + g) { e } else { e.push(h + g) }
}

/// The aggregation levels of hierarchy columns `h` and group columns `g`:
/// those produced, without repeats, ordered by number of columns.
pub open spec fn level_list(h: Seq<Seq<char>>, g: Seq<Seq<char>>) -> Seq<Seq<Seq<char>>> {
    by_len_upto(emitted_levels(h, g).remove_duplicates(seq![]), (h.len() + g.len()) as nat)
}

/// Every column of level `l` is one of `all`.
pub open spec fn names_within(l: Seq<Seq<char>>, all: Seq<Seq<char>>) -> bool {
    forall|i: int| 0 <= i < l.len() ==> all.contains(#[trigger] l[i])
}

proof fn lemma_by_len_within(s: Seq<Seq<Seq<char>>>, n: nat, x: Seq<Seq<char>>)
    requires
        by_len_upto(s, n).contains(x),
    ensures
        s.contains(x),
    decreases n,
{
    if n == 0 {
        s.lemma_filter_contains_rev(has_len(0), x);
    } else {
        let a = by_len_upto(s, (n - 1) as nat);
        let b = s.filter(has_len(n));
        let k = choose|k: int| 0 <= k < (a + b).len() && (a + b)[k] == x;
        if k < a.len() {
            assert(a[k] == x);
            lemma_by_len_within(s, (n - 1) as nat, x);
        } else {
            assert(b[k - a.len()] == x);
            s.lemma_filter_contains_rev(has_len(n), x);
        }
    }
}

proof fn lemma_prefix_within(h: Seq<Seq<char>>, g: Seq<Seq<char>>, n: int)
    requires
        0 <= n <= h.len(),
    ensures
        names_within(h.take(n), h + g),
        names_within(g, h + g),
        names_within(h.take(n) + g, h + g),
        names_within(h + g, h + g),
{
    assert forall|i: int| 0 <= i < h.take(n).len() implies (h + g).contains(#[trigger] h.take(n)[i]) by {
        assert((h + g)[i] == h.take(n)[i]);
    }
    assert forall|i: int| 0 <= i < g.len() implies (h + g).contains(#[trigger] g[i]) by {
        assert((h + g)[h.len() + i] == g[i]);
    }
    assert forall|i: int| 0 <= i < (h.take(n) + g).len() implies (h + g).contains(#[trigger] (h.take(n) + g)[i]) by {
        if i < n {
            assert((h + g)[i] == (h.take(n) + g)[i]);
        } else {
            assert((h + g)[h.len() + i - n] == (h.take(n) + g)[i]);
        }
    }
    assert forall|i: int| 0 <= i < (h + g).len() implies (h + g).contains(#[trigger] (h + g)[i]) by {}
}

proof fn lemma_hierarchy_levels_within(h: Seq<Seq<char>>, g: Seq<Seq<char>>, n: nat)
    requires
        n <= h.len(),
    ensures
        forall|x: Seq<Seq<char>>| hierarchy_levels(h, g, n).contains(x) ==> names_within(x, h + g),
    decreases n,
{
    if n > 0 {
        lemma_hierarchy_levels_within(h, g, (n - 1) as nat);
        lemma_prefix_within(h, g, n as int);
        let prev = hierarchy_levels(h, g, (n - 1) as nat);
        assert forall|x: Seq<Seq<char>>| hierarchy_levels(h, g, n).contains(x) implies names_within(x, h + g) by {
            let s = hierarchy_levels(h, g, n);
            let k = choose|k: int| 0 <= k < s.len() && s[k] == x;
            if k < prev.len() {
                assert(prev.contains(prev[k]));
                assert(s[k] == prev[k]);
            }
        }
    }
}

/// Every column of every level is a column of the spec.
pub proof fn lemma_levels_within(h: Seq<Seq<char>>, g: Seq<Seq<char>>)
    ensures
        forall|x: Seq<Seq<char>>| level_list(h, g).contains(x) ==> names_within(x, h + g),
{
    let e = emitted_levels(h, g);
    lemma_hierarchy_levels_within(h, g, h.len());
    lemma_prefix_within(h, g, 0);
    assert(names_within(seq![], h + g));
    let start = if g.len() > 0 && h.len() > 0 { seq![seq![], g] } else { seq![seq![]] };
    let hl = hierarchy_levels(h, g, h.len());
    assert forall|x: Seq<Seq<char>>| e.contains(x) implies names_within(x, h + g) by {
        let k = choose|k: int| 0 <= k < e.len() && e[k] == x;
        if k < start.len() {
        } else if k < start.len() + hl.len() {
            assert((start + hl)[k] == hl[k - start.len()]);
            assert(hl.contains(hl[k - start.len()]));
        }
    }
    e.lemma_remove_duplicates_properties(seq![]);
    assert forall|x: Seq<Seq<char>>| level_list(h, g).contains(x) implies names_within(x, h + g) by {
        lemma_by_len_within(e.remove_duplicates(seq![]), (h.len() + g.len()) as nat, x);
        assert((e + seq![]).contains(x));
        let k = choose|k: int| 0 <= k < (e + seq![]).len() && (e + seq![])[k] == x;
        assert(e[k] == x);
    }
}

proof fn lemma_dedup_keeps_seen(s: Seq<Seq<Seq<char>>>, seen: Seq<Seq<Seq<char>>>)
    ensures
        s.remove_duplicates(seen).len() >= seen.len(),
        forall|i: int| 0 <= i < seen.len() ==> #[trigger] s.remove_duplicates(seen)[i] == seen[i],
    decreases s.len(),
{
    if s.len() > 0 {
        if seen.contains(s[0]) {
            lemma_dedup_keeps_seen(s.skip(1), seen);
        } else {
            lemma_dedup_keeps_seen(s.skip(1), seen + seq![s[0]]);
            assert forall|i: int| 0 <= i < seen.len() implies #[trigger] s.remove_duplicates(seen)[i] == seen[i] by {
                assert((seen + seq![s[0]])[i] == seen[i]);
            }
        }
    }
}

proof fn lemma_by_len_first(s: Seq<Seq<Seq<char>>>, n: nat)
    requires
        s.len() > 0,
        s[0].len() == 0,
    ensures
        by_len_upto(s, n).len() > 0,
        by_len_upto(s, n)[0] == s[0],
    decreases n,
{
    if n == 0 {
        assert(s =~= seq![s[0]] + s.skip(1));
        s.skip(1).lemma_filter_prepend(s[0], has_len(0));
    } else {
        lemma_by_len_first(s, (n - 1) as nat);
    }
}

/// The level list starts with the total: the level with no column.
pub proof fn lemma_total_first(h: Seq<Seq<char>>, g: Seq<Seq<char>>)
    ensures
        level_list(h, g).len() > 0,
        level_list(h, g)[0] == Seq::<Seq<char>>::empty(),
{
    let e = emitted_levels(h, g);
    let start = if g.len() > 0 && h.len() > 0 { seq![seq![], g] } else { seq![seq![]] };
    assert(e[0] == (start + hierarchy_levels(h, g, h.len()))[0]);
    assert(e[0] =~= Seq::<Seq<char>>::empty());
    let d = e.remove_duplicates(seq![]);
    assert(!Seq::<Seq<Seq<char>>>::empty().contains(e[0]));
    assert(d == e.skip(1).remove_duplicates(seq![e[0]]));
    lemma_dedup_keeps_seen(e.skip(1), seq![e[0]]);
    lemma_by_len_first(d, (h.len() + g.len()) as nat);
}

proof fn lemma_emitted_full_width(h: Seq<Seq<char>>, g: Seq<Seq<char>>)
    ensures
        emitted_levels(h, g).contains(h + g),
        forall|x: Seq<Seq<char>>| emitted_levels(h, g).contains(x) && x.len() == h.len() + g.len() ==> x == h + g,
{
    let start = if g.len() > 0 && h.len() > 0 { seq![seq![], g] } else { seq![seq![]] };
    let hl = hierarchy_levels(h, g, h.len());
    let e0 = start + hl;
    lemma_hierarchy_levels_full_width(h, g, h.len());
    assert forall|x: Seq<Seq<char>>| emitted_levels(h, g).contains(x) && x.len() == h.len() + g.len() implies x == h + g by {
        let e = emitted_levels(h, g);
        let k = choose|k: int| 0 <= k < e.len() && e[k] == x;
        if k < start.len() {
            if k == 0 {
                assert(x =~= h + g);
            }
        } else if k < e0.len() {
            assert(e0[k] == hl[k - start.len()]);
            assert(hl.contains(hl[k - start.len()]));
        }
    }
    if !e0.contains(h + g) {
        assert(emitted_levels(h, g).last() == h + g);
    }
}

proof fn lemma_hierarchy_levels_full_width(h: Seq<Seq<char>>, g: Seq<Seq<char>>, n: nat)
    requires
        n <= h.len(),
    ensures
        forall|x: Seq<Seq<char>>| hierarchy_levels(h, g, n).contains(x) && x.len() == h.len() + g.len() ==> x == h + g,
    decreases n,
{
    if n > 0 {
        lemma_hierarchy_levels_full_width(h, g, (n - 1) as nat);
        let prev = hierarchy_levels(h, g, (n - 1) as nat);
        assert forall|x: Seq<Seq<char>>| hierarchy_levels(h, g, n).contains(x) && x.len() == h.len() + g.len() implies x == h + g by {
            let s = hierarchy_levels(h, g, n);
            let k = choose|k: int| 0 <= k < s.len() && s[k] == x;
            if k < prev.len() {
                assert(prev.contains(prev[k]));
                assert(s[k] == prev[k]);
            } else if x == h.take(n as int) {
                assert(x =~= h + g);
            }
        }
    }
}

proof fn lemma_by_len_last(s: Seq<Seq<Seq<char>>>, n: nat, x: Seq<Seq<char>>)
    requires
        s.contains(x),
        x.len() == n,
        forall|y: Seq<Seq<char>>| s.contains(y) && y.len() == n ==> y == x,
    ensures
        by_len_upto(s, n).len() > 0,
        by_len_upto(s, n).last() == x,
{
    let f = s.filter(has_len(n));
    let k = choose|k: int| 0 <= k < s.len() && s[k] == x;
    s.lemma_filter_contains(has_len(n), k);
    assert(f.len() > 0);
    s.lemma_filter_contains_rev(has_len(n), f.last());
    assert(f.contains(f.last()));
    s.lemma_filter_pred(has_len(n), f.len() - 1);
    assert(f.last() == x);
    if n == 0 {
    } else {
        let a = by_len_upto(s, (n - 1) as nat);
        assert((a + f).last() == f.last());
    }
}

/// The level list ends with the bottom level: every hierarchy column, then
/// every group column.
pub proof fn lemma_bottom_last(h: Seq<Seq<char>>, g: Seq<Seq<char>>)
    ensures
        level_list(h, g).len() > 0,
        level_list(h, g).last() == h + g,
{
    let e = emitted_levels(h, g);
    lemma_emitted_full_width(h, g);
    let d = e.remove_duplicates(seq![]);
    e.lemma_remove_duplicates_properties(seq![]);
    assert(e + seq![] =~= e);
    assert forall|y: Seq<Seq<char>>| d.contains(y) && y.len() == h.len() + g.len() implies y == h + g by {
        assert((e + seq![]).contains(y));
    }
    assert(d.contains(h + g)) by {
        assert((e + seq![]).contains(h + g));
    }
    lemma_by_len_last(d, (h.len() + g.len()) as nat, h + g);
}

/// Hierarchy columns, nested from top to bottom, and group columns, which
/// cross every hierarchy level.
#[derive(Debug, Clone, Default)]
pub struct HierarchySpec {
    /// Columns with strict parent-child nesting, ordered from top to bottom.
    pub hierarchy: Vec<String>,
    /// Columns that cross with the hierarchy at all levels.
    pub groups: Vec<String>,
}

impl HierarchySpec {
    /// The hierarchy columns.
    pub open spec fn h(&self) -> Seq<Seq<char>> {
        row_view(self.hierarchy)
    }

    /// The group columns.
    pub open spec fn g(&self) -> Seq<Seq<char>> {
        row_view(self.groups)
    }

    /// Hierarchy columns followed by group columns.
    pub open spec fn all(&self) -> Seq<Seq<char>> {
        self.h() + self.g()
    }

    /// A spec with the given hierarchy and group columns.
    pub fn new(hierarchy: Vec<String>, groups: Vec<String>) -> (r: Self)
        ensures
            r.hierarchy == hierarchy,
            r.groups == groups,
    {
        HierarchySpec { hierarchy, groups }
    }

    /// A spec with hierarchy columns only.
    pub fn hierarchical(columns: Vec<String>) -> (r: Self)
        ensures
            r.hierarchy == columns,
            r.groups@ == Seq::<String>::empty(),
    {
        HierarchySpec { hierarchy: columns, groups: Vec::new() }
    }

    /// A spec with group columns only.
    pub fn grouped(columns: Vec<String>) -> (r: Self)
        ensures
            r.hierarchy@ == Seq::<String>::empty(),
            r.groups == columns,
    {
        HierarchySpec { hierarchy: Vec::new(), groups: columns }
    }

    /// Every column of the spec: hierarchy columns, then group columns.
    pub fn all_columns(&self) -> (r: Vec<String>)
        ensures
            row_view(r) == self.all(),
    {
        let mut r = copy_row(&self.hierarchy);
        let mut i: usize = 0;
        while i < self.groups.len()
            invariant
                i <= self.groups.len(),
                row_view(r) == self.h() + self.g().take(i as int),
            decreases self.groups.len() - i,
        {
            let ghost prev = row_view(r);
            r.push(self.groups[i].clone());
            assert(self.g().take(i + 1) =~= self.g().take(i as int).push(self.g()[i as int]));
            assert(row_view(r) =~= prev.push(self.g()[i as int]));
            assert(row_view(r) =~= self.h() + self.g().take(i + 1));
            i = i + 1;
        }
        assert(self.g().take(self.groups.len() as int) =~= self.g());
        r
    }

    /// The aggregation levels, from the total (no column) to the bottom
    /// (every column).
    pub fn level_combinations(&self) -> (r: Vec<Vec<String>>)
        ensures
            rows_view(r@) == level_list(self.h(), self.g()),
    {
        let ghost h = self.h();
        let ghost g = self.g();
        let k = self.hierarchy.len();
        let has_groups = self.groups.len() > 0;
        let mut levels: Vec<Vec<String>> = Vec::new();
        let total: Vec<String> = Vec::new();
        assert(row_view(total) =~= Seq::<Seq<char>>::empty());
        levels.push(total);
        assert(rows_view(levels@) =~= seq![Seq::<Seq<char>>::empty()]);
        if has_groups && k > 0 {
            levels.push(copy_row(&self.groups));
            assert(rows_view(levels@) =~= seq![Seq::<Seq<char>>::empty(), g]);
        }
        let ghost start = if g.len() > 0 && h.len() > 0 { seq![seq![], g] } else { seq![seq![]] };
        assert(rows_view(levels@) =~= start + hierarchy_levels(h, g, 0));
        let mut n: usize = 0;
        let mut prefix: Vec<String> = Vec::new();
        while n < k
            invariant
                h == self.h(),
                g == self.g(),
                k == h.len(),
                has_groups == (g.len() > 0),
                n <= k,
                row_view(prefix) == h.take(n as int),
                rows_view(levels@) == start + hierarchy_levels(h, g, n as nat),
            decreases k - n,
        {
            let ghost before = rows_view(levels@);
            let ghost prev = row_view(prefix);
            prefix.push(self.hierarchy[n].clone());
            n = n + 1;
            assert(row_view(prefix) =~= prev.push(h[n - 1]));
            assert(row_view(prefix) =~= h.take(n as int));
            levels.push(copy_row(&prefix));
            if has_groups && n < k {
                let mut crossed = copy_row(&prefix);
                let mut i: usize = 0;
                while i < self.groups.len()
                    invariant
                        g == self.g(),
                        i <= self.groups.len(),
                        row_view(crossed) == h.take(n as int) + g.take(i as int),
                    decreases self.groups.len() - i,
                {
                    let ghost c0 = row_view(crossed);
                    crossed.push(self.groups[i].clone());
                    assert(g.take(i + 1) =~= g.take(i as int).push(g[i as int]));
                    assert(row_view(crossed) =~= c0.push(g[i as int]));
                    assert(row_view(crossed) =~= h.take(n as int) + g.take(i + 1));
                    i = i + 1;
                }
                assert(g.take(self.groups.len() as int) =~= g);
                levels.push(crossed);
                assert(rows_view(levels@) =~= before.push(h.take(n as int)).push(h.take(n as int) + g));
            } else {
                assert(rows_view(levels@) =~= before.push(h.take(n as int)));
            }
            assert(rows_view(levels@) =~= start + hierarchy_levels(h, g, n as nat));
        }
        let bottom = self.all_columns();
        assert(bottom.len() == row_view(bottom).len());
        let ghost e = start + hierarchy_levels(h, g, h.len());
        if !contains_row(&levels, &bottom) {
            levels.push(bottom);
            assert(rows_view(levels@) =~= e.push(h + g));
        }
        assert(rows_view(levels@) == emitted_levels(h, g));
        let distinct = distinct_in_order(&levels);
        let width = self.all_columns().len();
        assert(width == h.len() + g.len());
        ordered_by_len(&distinct, width)
    }

    /// Checks that every column of the spec is a column of `table`; the
    /// error names the first one that is not.
    pub fn validate(&self, table: &Table) -> (r: Result<(), HtsError>)
        ensures
            r is Ok <==> forall|k: int| 0 <= k < self.all().len() ==> table.column_names().contains(#[trigger] self.all()[k]),
            r matches Err(e) ==> exists|k: int| 0 <= k < self.all().len()
                && !table.column_names().contains(self.all()[k])
                && (e matches HtsError::ColumnNotFound(c) && c@ == self.all()[k])
                && forall|j: int| 0 <= j < k ==> table.column_names().contains(#[trigger] self.all()[j]),
    {
        let cols = self.all_columns();
        let mut k: usize = 0;
        while k < cols.len()
            invariant
                row_view(cols) == self.all(),
                k <= cols.len(),
                forall|j: int| 0 <= j < k ==> table.column_names().contains(#[trigger] self.all()[j]),
            decreases cols.len() - k,
        {
            match table.column_index(&cols[k]) {
                None => {
                    assert(cols@[k as int]@ == self.all()[k as int]);
                    assert(!table.column_names().contains(self.all()[k as int]));
                    let name = cols[k].clone();
                    return Err(HtsError::ColumnNotFound(name));
                },
                Some(_) => {},
            }
            k = k + 1;
        }
        Ok(())
    }
}

/// Label values joined with `/`, in level-column order.
pub open spec fn join_id(vals: Seq<Seq<char>>) -> Seq<char>
    decreases vals.len(),
{
    if vals.len() == 0 {
        seq![]
    } else if vals.len() == 1 {
        vals[0]
    } else {
        join_id(vals.drop_last()) + seq!['/'] + vals.last()
    }
}

/// The id of the total node.
pub open spec fn total_id() -> Seq<char> {
    seq!['T', 'o', 't', 'a', 'l']
}

/// One series of the hierarchy: an aggregate, or a bottom-level series.
#[derive(Debug, Clone)]
pub struct Node {
    /// Label values joined with `/` ("Total" for the grand total).
    pub id: String,
    /// Position of the node's level in the level list (0 = total).
    pub level: usize,
    /// Ascending indices of the bottom rows that sum into this node.
    pub aggregates_from: Vec<usize>,
    /// Column name and value for each column of the node's level, in level order.
    pub labels: Vec<(String, String)>,
}

/// A node with exactly one member.
pub open spec fn single() -> spec_fn(Node) -> bool {
    |n: Node| n.aggregates_from@.len() == 1
}

/// The label values of a node, in level-column order.
pub open spec fn key_of(n: Node) -> Seq<Seq<char>> {
    n.labels@.map_values(|p: (String, String)| p.1@)
}

/// `ms` lists, ascending, exactly the bottom rows whose cells under `level`
/// are `key`.
pub open spec fn members_exact(
    ms: Seq<usize>,
    bottom: Seq<Seq<Seq<char>>>,
    all: Seq<Seq<char>>,
    level: Seq<Seq<char>>,
    key: Seq<Seq<char>>,
) -> bool {
    &&& forall|i: int, j: int| 0 <= i < j < ms.len() ==> ms[i] < ms[j]
    &&& forall|i: int| 0 <= i < ms.len() ==> ms[i] < bottom.len()
    &&& forall|j: int| 0 <= j < bottom.len() ==> (ms.contains(j as usize) <==> project(#[trigger] bottom[j], all, level) == key)
}

/// Node `n` is the node of level `level` (at position `li`) for its labels.
pub open spec fn node_matches(
    n: Node,
    bottom: Seq<Seq<Seq<char>>>,
    all: Seq<Seq<char>>,
    level: Seq<Seq<char>>,
    li: int,
) -> bool {
    &&& n.level == li
    &&& n.labels@.len() == level.len()
    &&& forall|k: int| 0 <= k < level.len() ==> (#[trigger] n.labels@[k]).0@ == level[k]
    &&& n.id@ == if level.len() == 0 { total_id() } else { join_id(key_of(n)) }
    &&& members_exact(n.aggregates_from@, bottom, all, level, key_of(n))
}

/// The distinct cells of the bottom rows under `level`.
pub open spec fn level_keys(bottom: Seq<Seq<Seq<char>>>, all: Seq<Seq<char>>, level: Seq<Seq<char>>) -> Set<Seq<Seq<char>>> {
    bottom.map_values(|r: Seq<Seq<char>>| project(r, all, level)).to_set()
}

/// `ns` are the nodes of one level: the single total node for the empty
/// level, else one node per distinct label combination, in ascending order.
pub open spec fn level_segment_ok(
    ns: Seq<Node>,
    bottom: Seq<Seq<Seq<char>>>,
    all: Seq<Seq<char>>,
    level: Seq<Seq<char>>,
    li: int,
) -> bool {
    &&& forall|i: int| 0 <= i < ns.len() ==> node_matches(#[trigger] ns[i], bottom, all, level, li)
    &&& if level.len() == 0 {
        ns.len() == 1
    } else {
        &&& strictly_sorted(ns.map_values(|n: Node| key_of(n)))
        &&& ns.map_values(|n: Node| key_of(n)).to_set() == level_keys(bottom, all, level)
    }
}

impl Node {
    /// A node with no members and no labels.
    pub fn new(id: String, level: usize) -> (r: Self)
        ensures
            r.id == id,
            r.level == level,
            r.aggregates_from@.len() == 0,
            r.labels@.len() == 0,
    {
        Node { id, level, aggregates_from: Vec::new(), labels: Vec::new() }
    }

    /// Whether the node aggregates exactly one bottom row.
    pub fn is_bottom(&self) -> (r: bool)
        ensures
            r == (self.aggregates_from@.len() == 1),
    {
        self.aggregates_from.len() == 1
    }
}

fn join_values(vals: &Vec<String>) -> (r: String)
    ensures
        r@ == join_id(row_view(*vals)),
{
    let ghost v = row_view(*vals);
    let mut r = String::new();
    let mut i: usize = 0;
    assert(v.take(0) =~= Seq::<Seq<char>>::empty());
    while i < vals.len()
        invariant
            v == row_view(*vals),
            i <= vals.len(),
            r@ == join_id(v.take(i as int)),
        decreases vals.len() - i,
    {
        assert(v.take(i + 1).drop_last() =~= v.take(i as int));
        if i > 0 {
            proof {
                reveal_strlit("/");
            }
            r.append("/");
        }
        r.append(vals[i].as_str());
        i = i + 1;
    }
    assert(v.take(vals.len() as int) =~= v);
    r
}

fn members_for(keys: &Vec<Vec<String>>, key: &Vec<String>) -> (r: Vec<usize>)
    ensures
        forall|i: int, j: int| 0 <= i < j < r@.len() ==> r@[i] < r@[j],
        forall|i: int| 0 <= i < r@.len() ==> r@[i] < keys.len(),
        forall|j: int| 0 <= j < keys.len() ==> (r@.contains(j as usize) <==> rows_view(keys@)[j] == row_view(*key)),
{
    let mut r: Vec<usize> = Vec::new();
    let mut j: usize = 0;
    while j < keys.len()
        invariant
            j <= keys.len(),
            forall|a: int, b: int| 0 <= a < b < r@.len() ==> r@[a] < r@[b],
            forall|a: int| 0 <= a < r@.len() ==> r@[a] < j,
            forall|b: int| 0 <= b < j ==> (r@.contains(b as usize) <==> rows_view(keys@)[b] == row_view(*key)),
        decreases keys.len() - j,
    {
        let ghost r0 = r@;
        if row_equal(&keys[j], key) {
            r.push(j);
            assert forall|b: int| 0 <= b < j + 1 implies (r@.contains(b as usize) <==> rows_view(keys@)[b] == row_view(*key)) by {
                if b < j {
                    if r@.contains(b as usize) {
                        let k = choose|k: int| 0 <= k < r@.len() && r@[k] == b as usize;
                        assert(k < r0.len());
                        assert(r0.contains(b as usize));
                    }
                    if r0.contains(b as usize) {
                        let k = choose|k: int| 0 <= k < r0.len() && r0[k] == b as usize;
                        assert(r@[k] == b as usize);
                    }
                } else {
                    assert(r@[r0.len() as int] == j);
                }
            }
        } else {
            assert forall|b: int| 0 <= b < j + 1 implies (r@.contains(b as usize) <==> rows_view(keys@)[b] == row_view(*key)) by {
                if b == j {
                    if r@.contains(b as usize) {
                        let k = choose|k: int| 0 <= k < r@.len() && r@[k] == b as usize;
                    }
                }
            }
        }
        j = j + 1;
    }
    r
}

fn make_labels(level: &Vec<String>, key: &Vec<String>) -> (r: Vec<(String, String)>)
    requires
        level.len() == key.len(),
    ensures
        r@.len() == level.len(),
        forall|k: int| 0 <= k < level.len() ==> (#[trigger] r@[k]).0@ == level@[k]@ && r@[k].1@ == key@[k]@,
{
    let mut r: Vec<(String, String)> = Vec::new();
    let mut k: usize = 0;
    while k < level.len()
        invariant
            level.len() == key.len(),
            k <= level.len(),
            r@.len() == k,
            forall|i: int| 0 <= i < k ==> (#[trigger] r@[i]).0@ == level@[i]@ && r@[i].1@ == key@[i]@,
        decreases level.len() - k,
    {
        r.push((level[k].clone(), key[k].clone()));
        k = k + 1;
    }
    r
}

fn level_nodes(
    bottom: &Vec<Vec<String>>,
    all: &Vec<String>,
    level: &Vec<String>,
    li: usize,
) -> (r: Vec<Node>)
    requires
        names_within(row_view(*level), row_view(*all)),
        forall|j: int| 0 <= j < bottom.len() ==> #[trigger] bottom@[j].len() == all.len(),
    ensures
        level_segment_ok(r@, rows_view(bottom@), row_view(*all), row_view(*level), li as int),
{
    let ghost bv = rows_view(bottom@);
    let ghost av = row_view(*all);
    let ghost lv = row_view(*level);
    let mut out: Vec<Node> = Vec::new();
    if level.len() == 0 {
        let mut members: Vec<usize> = Vec::new();
        let mut j: usize = 0;
        while j < bottom.len()
            invariant
                j <= bottom.len(),
                members@.len() == j,
                forall|a: int| 0 <= a < j ==> members@[a] == a,
            decreases bottom.len() - j,
        {
            members.push(j);
            j = j + 1;
        }
        proof {
            reveal_strlit("Total");
        }
        let node = Node {
            id: String::from_str("Total"),
            level: li,
            aggregates_from: members,
            labels: Vec::new(),
        };
        assert(key_of(node) =~= Seq::<Seq<char>>::empty());
        assert forall|j: int| 0 <= j < bv.len() implies (node.aggregates_from@.contains(j as usize) <==> project(#[trigger] bv[j], av, lv) == key_of(node)) by {
            assert(project(bv[j], av, lv) =~= Seq::<Seq<char>>::empty());
            assert(node.aggregates_from@[j] == j as usize);
        }
        assert(node.id@ =~= total_id());
        assert(node_matches(node, bv, av, lv, li as int));
        out.push(node);
        assert(out@[0] == node);
        return out;
    }
    assert forall|k: int| 0 <= k < level.len() implies row_view(*all).contains(#[trigger] level@[k]@) by {
        assert(lv[k] == level@[k]@);
    }
    let lpos = positions_of(all, level);
    let mut keys: Vec<Vec<String>> = Vec::new();
    let mut j: usize = 0;
    while j < bottom.len()
        invariant
            bv == rows_view(bottom@),
            av == row_view(*all),
            lv == row_view(*level),
            forall|j: int| 0 <= j < bottom.len() ==> #[trigger] bottom@[j].len() == all.len(),
            lpos.len() == level.len(),
            forall|k: int| 0 <= k < level.len() ==> #[trigger] lpos@[k] == crate::table::first_index(av, level@[k]@)
                && lpos@[k] < all.len(),
            j <= bottom.len(),
            keys@.len() == j,
            forall|a: int| 0 <= a < j ==> #[trigger] rows_view(keys@)[a] == project(bv[a], av, lv),
        decreases bottom.len() - j,
    {
        let key = pick(&bottom[j], &lpos);
        assert(row_view(key) =~= project(bv[j as int], av, lv));
        let ghost k0 = rows_view(keys@);
        keys.push(key);
        assert(rows_view(keys@) =~= k0.push(row_view(key)));
        j = j + 1;
    }
    let ghost kv = rows_view(keys@);
    assert(kv =~= bv.map_values(|r: Seq<Seq<char>>| project(r, av, lv)));
    let uniq = sorted_distinct_rows(&keys);
    let ghost uv = rows_view(uniq@);
    let mut q: usize = 0;
    while q < uniq.len()
        invariant
            bv == rows_view(bottom@),
            av == row_view(*all),
            lv == row_view(*level),
            kv == rows_view(keys@),
            uv == rows_view(uniq@),
            keys@.len() == bottom.len(),
            forall|a: int| 0 <= a < bottom.len() ==> #[trigger] kv[a] == project(bv[a], av, lv),
            uv.to_set() == kv.to_set(),
            level.len() > 0,
            q <= uniq.len(),
            out@.len() == q,
            forall|i: int| 0 <= i < q ==> node_matches(#[trigger] out@[i], bv, av, lv, li as int),
            forall|i: int| 0 <= i < q ==> key_of(#[trigger] out@[i]) == uv[i],
        decreases uniq.len() - q,
    {
        assert(uv.to_set().contains(uv[q as int]));
        let ghost kj = choose|a: int| 0 <= a < kv.len() && kv[a] == uv[q as int];
        assert(kv[kj].len() == lv.len());
        assert(uniq@[q as int].len() == level.len());
        let labels = make_labels(level, &uniq[q]);
        let node = Node {
            id: join_values(&uniq[q]),
            level: li,
            aggregates_from: members_for(&keys, &uniq[q]),
            labels,
        };
        assert(key_of(node) =~= uv[q as int]);
        assert(node.level == li);
        assert(node.labels@.len() == lv.len());
        assert(forall|k: int| 0 <= k < lv.len() ==> (#[trigger] node.labels@[k]).0@ == lv[k]);
        assert(node.id@ == join_id(key_of(node)));
        assert forall|a: int| 0 <= a < bv.len() implies (node.aggregates_from@.contains(a as usize) <==> project(#[trigger] bv[a], av, lv) == key_of(node)) by {
            assert(kv[a] == project(bv[a], av, lv));
            assert(uv[q as int] == row_view(uniq@[q as int]));
        }
        assert(members_exact(node.aggregates_from@, bv, av, lv, key_of(node)));
        assert(node_matches(node, bv, av, lv, li as int));
        out.push(node);
        q = q + 1;
    }
    assert(out@.map_values(|n: Node| key_of(n)) =~= uv);
    out
}

/// The complete set of series, from the total down to the bottom level.
#[derive(Debug, Clone)]
pub struct HierarchyTree {
    nodes: Vec<Node>,
    n_bottom: usize,
    n_levels: usize,
    columns: Vec<String>,
    bottom: Vec<Vec<String>>,
    levels: Vec<Vec<String>>,
    starts: Vec<usize>,
}

impl HierarchyTree {
    /// All nodes, level by level.
    pub closed spec fn node_seq(&self) -> Seq<Node> {
        self.nodes@
    }

    /// The bottom rows: one per distinct combination of the spec's columns.
    pub closed spec fn bottom_rows(&self) -> Seq<Seq<Seq<char>>> {
        rows_view(self.bottom@)
    }

    /// The spec's columns, hierarchy then groups.
    pub closed spec fn all_cols(&self) -> Seq<Seq<char>> {
        row_view(self.columns)
    }

    /// The aggregation levels.
    pub closed spec fn level_seq(&self) -> Seq<Seq<Seq<char>>> {
        rows_view(self.levels@)
    }

    /// Position in `node_seq` of the first node of level `li`; for `li` equal
    /// to the number of levels, the number of nodes.
    pub closed spec fn start(&self, li: int) -> int {
        self.starts@[li] as int
    }

    /// Number of recorded level starts.
    pub closed spec fn start_count(&self) -> nat {
        self.starts@.len()
    }

    /// Number of bottom rows, as recorded.
    pub closed spec fn bottom_count(&self) -> nat {
        self.n_bottom as nat
    }

    /// Number of levels, as recorded.
    pub closed spec fn level_count(&self) -> nat {
        self.n_levels as nat
    }

    /// The nodes of level `li`.
    pub open spec fn segment(&self, li: int) -> Seq<Node> {
        self.node_seq().subrange(self.start(li), self.start(li + 1))
    }

    /// The tree is laid out level by level, each level's nodes as
    /// `level_segment_ok` describes.
    pub open spec fn wf(&self) -> bool {
        &&& self.bottom_count() == self.bottom_rows().len()
        &&& self.level_count() == self.level_seq().len()
        &&& self.level_seq().len() > 0
        &&& self.start_count() == self.level_seq().len() + 1
        &&& self.start(0) == 0
        &&& self.start(self.level_seq().len() as int) == self.node_seq().len()
        &&& forall|li: int| 0 <= li < self.level_seq().len() ==> #[trigger] self.start(li) <= self.start(li + 1)
        &&& forall|li: int| 0 <= li < self.level_seq().len() ==> level_segment_ok(
            #[trigger] self.segment(li),
            self.bottom_rows(),
            self.all_cols(),
            self.level_seq()[li],
            li,
        )
    }

    /// The tree is the one that `cols`/`cells` and the spec's columns `h` and
    /// `g` determine: its bottom rows are the distinct combinations, in
    /// ascending order, of the cells under `h + g`; its levels are
    /// `level_list(h, g)`.
    pub open spec fn built_from(
        &self,
        cols: Seq<Seq<char>>,
        cells: Seq<Seq<Seq<char>>>,
        h: Seq<Seq<char>>,
        g: Seq<Seq<char>>,
    ) -> bool {
        &&& self.wf()
        &&& self.all_cols() == h + g
        &&& strictly_sorted(self.bottom_rows())
        &&& self.bottom_rows().to_set() == cells.map_values(|r: Seq<Seq<char>>| project(r, cols, h + g)).to_set()
        &&& self.level_seq() == level_list(h, g)
    }

    /// The bottom-level nodes: those of the last level with exactly one
    /// member.
    pub open spec fn bottom_nodes(&self) -> Seq<Node> {
        self.segment(self.level_seq().len() - 1).filter(single())
    }

    /// There is one bottom-level node per bottom row, the `j`-th aggregating
    /// bottom row `j` alone.
    pub open spec fn bottom_ok(&self) -> bool {
        &&& self.bottom_nodes().len() == self.bottom_count()
        &&& forall|j: int| 0 <= j < self.bottom_nodes().len() ==> (#[trigger] self.bottom_nodes()[j]).aggregates_from@ == seq![j as usize]
    }

    /// No two nodes share an id.
    pub open spec fn ids_unique(&self) -> bool {
        forall|i: int, j: int| 0 <= i < j < self.node_seq().len() ==> (#[trigger] self.node_seq()[i]).id@ != (#[trigger] self.node_seq()[j]).id@
    }
}

/// Every name in `all` is a column of `cols`.
pub open spec fn columns_present(all: Seq<Seq<char>>, cols: Seq<Seq<char>>) -> bool {
    forall|k: int| 0 <= k < all.len() ==> cols.contains(#[trigger] all[k])
}

/// `c` is the first name of `all` that is not a column of `cols`.
pub open spec fn first_missing(all: Seq<Seq<char>>, cols: Seq<Seq<char>>, c: Seq<char>) -> bool {
    exists|k: int| 0 <= k < all.len()
        && !cols.contains(all[k])
        && all[k] == c
        && forall|j: int| 0 <= j < k ==> cols.contains(#[trigger] all[j])
}

fn first_duplicate_id(nodes: &Vec<Node>) -> (r: Option<usize>)
    ensures
        r is None <==> forall|i: int, j: int| 0 <= i < j < nodes@.len() ==> (#[trigger] nodes@[i]).id@ != (#[trigger] nodes@[j]).id@,
        r matches Some(i) ==> i < nodes@.len(),
{
    let mut j: usize = 0;
    while j < nodes.len()
        invariant
            j <= nodes.len(),
            forall|a: int, b: int| 0 <= a < b < j ==> (#[trigger] nodes@[a]).id@ != (#[trigger] nodes@[b]).id@,
        decreases nodes.len() - j,
    {
        let mut i: usize = 0;
        while i < j
            invariant
                j < nodes.len(),
                i <= j,
                forall|a: int| 0 <= a < i ==> (#[trigger] nodes@[a]).id@ != nodes@[j as int].id@,
            decreases j - i,
        {
            if nodes[i].id == nodes[j].id {
                return Some(j);
            }
            i = i + 1;
        }
        j = j + 1;
    }
    None
}

impl HierarchyTree {
    /// Builds every level's nodes from the table `df` and the spec.
    ///
    /// Fails with `ColumnNotFound`, naming the first spec column that `df`
    /// lacks, before anything is built; and with `Hierarchy` when two nodes
    /// would share an id.
    pub fn from_dataframe(df: &Table, spec: &HierarchySpec) -> (r: Result<HierarchyTree, HtsError>)
        requires
            df.wf(),
        ensures
            columns_present(spec.all(), df.column_names()) <==> !(r matches Err(HtsError::ColumnNotFound(_))),
            r matches Err(HtsError::ColumnNotFound(c)) ==> first_missing(spec.all(), df.column_names(), c@),
            r matches Ok(t) ==> t.built_from(df.column_names(), df.cells(), spec.h(), spec.g()) && t.ids_unique() && t.bottom_ok(),
            r matches Err(HtsError::Hierarchy(_)) ==> exists|t: HierarchyTree|
                t.built_from(df.column_names(), df.cells(), spec.h(), spec.g()) && !t.ids_unique(),
            !(r matches Err(HtsError::InvalidPeriod(_))),
    {
        match spec.validate(df) {
            Err(e) => {
                return Err(e);
            },
            Ok(()) => {},
        }
        let ghost cols = df.column_names();
        let ghost cells = df.cells();
        let ghost h = spec.h();
        let ghost g = spec.g();
        let all = spec.all_columns();
        let projected = project_rows(df, &all);
        let bottom = distinct_bottom(&projected, all.len());
        let levels = spec.level_combinations();
        let (nodes, starts) = build_levels(&bottom, &all, &levels, Ghost(h), Ghost(g));
        let ghost final_starts = starts@;
        let n_bottom = bottom.len();
        let n_levels = levels.len();
        let tree = HierarchyTree { nodes, n_bottom, n_levels, columns: all, bottom, levels, starts };
        assert(tree.built_from(cols, cells, h, g)) by {
            lemma_total_first(h, g);
            assert forall|l: int| 0 <= l < tree.level_seq().len() implies level_segment_ok(
                #[trigger] tree.segment(l),
                tree.bottom_rows(),
                tree.all_cols(),
                tree.level_seq()[l],
                l,
            ) by {
                assert(tree.segment(l) == tree.nodes@.subrange(final_starts[l] as int, final_starts[l + 1] as int));
            }
        }
        match first_duplicate_id(&tree.nodes) {
            Some(d) => {
                assert(tree.built_from(cols, cells, h, g) && !tree.ids_unique());
                let id = tree.nodes[d].id.clone();
                Err(HtsError::Hierarchy(id))
            },
            None => {
                proof {
                    lemma_bottom_ok(tree, cols, cells, h, g);
                }
                Ok(tree)
            },
        }
    }
}

proof fn lemma_starts_monotone(s: Seq<usize>, a: int, b: int)
    requires
        0 <= a <= b < s.len(),
        forall|l: int| 0 <= l < s.len() - 1 ==> #[trigger] s[l] <= s[l + 1],
    ensures
        s[a] <= s[b],
    decreases b - a,
{
    if a < b {
        lemma_starts_monotone(s, a + 1, b);
        assert(s[a] <= s[a + 1]);
    }
}

fn project_rows(df: &Table, all: &Vec<String>) -> (projected: Vec<Vec<String>>)
    requires
        df.wf(),
        columns_present(row_view(*all), df.column_names()),
    ensures
        rows_view(projected@) == df.cells().map_values(|r: Seq<Seq<char>>| project(r, df.column_names(), row_view(*all))),
        forall|a: int| 0 <= a < projected@.len() ==> #[trigger] projected@[a].len() == all.len(),
{
    let ghost cols = df.column_names();
    let ghost cells = df.cells();
    let ghost av = row_view(*all);
    let table_cols = df.columns();
    assert forall|k: int| 0 <= k < all.len() implies row_view(*table_cols).contains(#[trigger] all@[k]@) by {
        assert(av[k] == all@[k]@);
    }
    let pos = positions_of(table_cols, all);
    let rows = df.rows();
    let mut projected: Vec<Vec<String>> = Vec::new();
    let mut i: usize = 0;
    while i < rows.len()
        invariant
            cols == df.column_names(),
            cells == df.cells(),
            av == row_view(*all),
            df.wf(),
            rows_view(rows@) == cells,
            forall|i: int| 0 <= i < rows@.len() ==> #[trigger] rows@[i].len() == cols.len(),
            row_view(*table_cols) == cols,
            pos.len() == all.len(),
            forall|k: int| 0 <= k < all.len() ==> #[trigger] pos@[k] == crate::table::first_index(cols, all@[k]@)
                && pos@[k] < table_cols.len(),
            i <= rows.len(),
            projected@.len() == i,
            forall|a: int| 0 <= a < i ==> #[trigger] rows_view(projected@)[a] == project(cells[a], cols, av),
            forall|a: int| 0 <= a < i ==> #[trigger] projected@[a].len() == all.len(),
        decreases rows.len() - i,
    {
        assert(rows@[i as int].len() == table_cols.len());
        let row = pick(&rows[i], &pos);
        assert(row_view(row) =~= project(cells[i as int], cols, av)) by {
            assert forall|k: int| 0 <= k < all.len() implies row_view(row)[k] == project(cells[i as int], cols, av)[k] by {
                assert(av[k] == all@[k]@);
                assert(cells[i as int] == row_view(rows@[i as int]));
            }
        }
        let ghost prev = rows_view(projected@);
        projected.push(row);
        assert(rows_view(projected@) =~= prev.push(row_view(row)));
        i = i + 1;
    }
    assert(rows_view(projected@) =~= cells.map_values(|r: Seq<Seq<char>>| project(r, cols, av)));
    projected
}

fn build_levels(
    bottom: &Vec<Vec<String>>,
    all: &Vec<String>,
    levels: &Vec<Vec<String>>,
    h: Ghost<Seq<Seq<char>>>,
    g: Ghost<Seq<Seq<char>>>,
) -> (r: (Vec<Node>, Vec<usize>))
    requires
        rows_view(levels@) == level_list(h@, g@),
        row_view(*all) == h@ + g@,
        forall|j: int| 0 <= j < bottom.len() ==> #[trigger] bottom@[j].len() == all.len(),
    ensures
        r.1@.len() == levels@.len() + 1,
        r.1@[0] == 0,
        r.1@[levels@.len() as int] == r.0@.len(),
        forall|l: int| 0 <= l < levels@.len() ==> #[trigger] r.1@[l] <= r.1@[l + 1],
        forall|l: int| 0 <= l < levels@.len() ==> level_segment_ok(
            #[trigger] r.0@.subrange(r.1@[l] as int, r.1@[l + 1] as int),
            rows_view(bottom@),
            h@ + g@,
            rows_view(levels@)[l],
            l,
        ),
{
    let ghost h = h@;
    let ghost g = g@;
    let ghost bv = rows_view(bottom@);
    let ghost lv = rows_view(levels@);
    proof {
        lemma_levels_within(h, g);
    }
        let mut nodes: Vec<Node> = Vec::new();
        let mut starts: Vec<usize> = Vec::new();
        starts.push(0);
        let mut li: usize = 0;
        while li < levels.len()
            invariant
                bv == rows_view(bottom@),
                lv == rows_view(levels@),
                lv == level_list(h, g),
                row_view(*all) == h + g,
                forall|x: Seq<Seq<char>>| level_list(h, g).contains(x) ==> names_within(x, h + g),
                forall|j: int| 0 <= j < bottom.len() ==> #[trigger] bottom@[j].len() == all.len(),
                li <= levels.len(),
                starts@.len() == li + 1,
                starts@[0] == 0,
                starts@[li as int] == nodes@.len(),
                forall|l: int| 0 <= l < li ==> #[trigger] starts@[l] <= starts@[l + 1],
                forall|l: int| 0 <= l < li ==> level_segment_ok(
                    #[trigger] nodes@.subrange(starts@[l] as int, starts@[l + 1] as int),
                    bv,
                    h + g,
                    lv[l],
                    l,
                ),
            decreases levels.len() - li,
        {
            assert(lv.contains(lv[li as int]));
            assert(row_view(levels@[li as int]) == lv[li as int]);
            let mut seg = level_nodes(bottom, all, &levels[li], li);
            let ghost n0 = nodes@;
            let ghost s0 = starts@;
            let ghost sv = seg@;
            nodes.append(&mut seg);
            assert(nodes@ =~= n0 + sv);
            starts.push(nodes.len());
            assert forall|l: int| 0 <= l < li + 1 implies level_segment_ok(
                #[trigger] nodes@.subrange(starts@[l] as int, starts@[l + 1] as int),
                bv,
                h + g,
                lv[l],
                l,
            ) by {
                if l < li {
                    assert(starts@[l] == s0[l] && starts@[l + 1] == s0[l + 1]);
                    assert(s0[l + 1] <= n0.len()) by {
                        assert forall|a: int, b: int| 0 <= a <= b <= li implies s0[a] <= s0[b] by {
                            lemma_starts_monotone(s0, a, b);
                        }
                    }
                    assert(nodes@.subrange(starts@[l] as int, starts@[l + 1] as int) =~= n0.subrange(s0[l] as int, s0[l + 1] as int));
                } else {
                    assert(nodes@.subrange(starts@[l] as int, starts@[l + 1] as int) =~= sv);
                }
            }
            li = li + 1;
        }
    (nodes, starts)
}

fn distinct_bottom(projected: &Vec<Vec<String>>, width: usize) -> (bottom: Vec<Vec<String>>)
    requires
        forall|a: int| 0 <= a < projected@.len() ==> #[trigger] projected@[a].len() == width,
    ensures
        strictly_sorted(rows_view(bottom@)),
        rows_view(bottom@).to_set() == rows_view(projected@).to_set(),
        forall|j: int| 0 <= j < bottom.len() ==> #[trigger] bottom@[j].len() == width,
{
    let bottom = sorted_distinct_rows(projected);
    let ghost bv = rows_view(bottom@);
    assert forall|j: int| 0 <= j < bottom.len() implies #[trigger] bottom@[j].len() == width by {
        assert(bv.to_set().contains(bv[j]));
        assert(rows_view(projected@).to_set().contains(bv[j]));
        let a = choose|a: int| 0 <= a < projected@.len() && rows_view(projected@)[a] == bv[j];
        assert(projected@[a].len() == width);
        assert(bv[j].len() == bottom@[j].len());
    }
    bottom
}

impl HierarchyTree {
    /// Total number of series, all levels together.
    pub fn n_series(&self) -> (r: usize)
        ensures
            r == self.node_seq().len(),
    {
        self.nodes.len()
    }

    /// Number of bottom rows.
    pub fn n_bottom(&self) -> (r: usize)
        ensures
            r == self.bottom_count(),
    {
        self.n_bottom
    }

    /// Number of levels.
    pub fn n_levels(&self) -> (r: usize)
        ensures
            r == self.level_count(),
    {
        self.n_levels
    }

    /// All nodes, level by level.
    pub fn nodes(&self) -> (r: &[Node])
        ensures
            r@ == self.node_seq(),
    {
        self.nodes.as_slice()
    }

    /// The bottom rows, ascending: each the values of the spec's columns.
    pub fn bottom_values(&self) -> (r: &Vec<Vec<String>>)
        ensures
            rows_view(r@) == self.bottom_rows(),
    {
        &self.bottom
    }

    /// The aggregation levels, each a list of column names.
    pub fn levels(&self) -> (r: &Vec<Vec<String>>)
        ensures
            rows_view(r@) == self.level_seq(),
    {
        &self.levels
    }

    /// Positions of the first node of each level, and last the number of nodes.
    pub fn level_starts(&self) -> (r: &Vec<usize>)
        ensures
            self.wf() ==> r@.len() == self.level_seq().len() + 1,
            forall|l: int| 0 <= l < r@.len() ==> r@[l] == self.start(l),
    {
        &self.starts
    }

    /// The node with the given id, if any.
    pub fn get_node(&self, id: &str) -> (r: Option<&Node>)
        ensures
            r is None <==> forall|i: int| 0 <= i < self.node_seq().len() ==> (#[trigger] self.node_seq()[i]).id@ != id@,
            r matches Some(n) ==> n.id@ == id@ && exists|i: int| 0 <= i < self.node_seq().len() && self.node_seq()[i] == *n,
    {
        let mut i: usize = 0;
        while i < self.nodes.len()
            invariant
                i <= self.nodes.len(),
                forall|k: int| 0 <= k < i ==> (#[trigger] self.node_seq()[k]).id@ != id@,
            decreases self.nodes.len() - i,
        {
            if str_equal(self.nodes[i].id.as_str(), id) {
                assert(self.node_seq()[i as int] == self.nodes@[i as int]);
                return Some(&self.nodes[i]);
            }
            i = i + 1;
        }
        None
    }

    /// The nodes of the bottom level, in order: those of the last level
    /// with exactly one member, the `j`-th aggregating bottom row `j` alone.
    pub fn bottom_level_nodes(&self) -> (r: Vec<&Node>)
        requires
            self.wf(),
            self.bottom_ok(),
        ensures
            r@.len() == self.bottom_count(),
            forall|j: int| 0 <= j < r@.len() ==> *r@[j] == self.bottom_nodes()[j],
            forall|j: int| 0 <= j < r@.len() ==> (#[trigger] r@[j]).aggregates_from@ == seq![j as usize],
    {
        let mut r: Vec<&Node> = Vec::new();
        let last = self.levels.len() - 1;
        let lo = self.starts[last];
        let hi = self.starts[last + 1];
        proof {
            lemma_level_starts_bounded(*self, last + 1);
            assert(self.start(last as int) <= self.start(last + 1));
        }
        let ghost seg = self.segment(last as int);
        let mut i: usize = lo;
        assert(seg.take(0).filter(single()) =~= Seq::<Node>::empty()) by {
            reveal(Seq::filter);
        }
        while i < hi
            invariant
                self.wf(),
                last == self.level_seq().len() - 1,
                lo == self.start(last as int),
                hi == self.start(last + 1),
                seg == self.segment(last as int),
                lo <= i <= hi,
                hi <= self.nodes@.len(),
                r@.len() == seg.take(i - lo).filter(single()).len(),
                forall|k: int| 0 <= k < r@.len() ==> *r@[k] == seg.take(i - lo).filter(single())[k],
            decreases hi - i,
        {
            proof {
                assert(seg[i - lo] == self.nodes@[i as int]);
                assert(seg.take(i - lo + 1) =~= seg.take(i - lo).push(seg[i - lo]));
                seg.take(i - lo).lemma_filter_push(seg[i - lo], single());
            }
            if self.nodes[i].aggregates_from.len() == 1 {
                r.push(&self.nodes[i]);
            }
            i = i + 1;
        }
        assert(seg.take(hi - lo) =~= seg);
        r
    }
}

/// Whether two texts are equal.
pub fn str_equal(a: &str, b: &str) -> (r: bool)
    ensures
        r == (a@ == b@),
{
    let la = a.unicode_len();
    let lb = b.unicode_len();
    if la != lb {
        return false;
    }
    let mut i: usize = 0;
    while i < la
        invariant
            la == a@.len(),
            lb == b@.len(),
            la == lb,
            i <= la,
            forall|k: int| 0 <= k < i ==> a@[k] == b@[k],
        decreases la - i,
    {
        if a.get_char(i) != b.get_char(i) {
            return false;
        }
        i = i + 1;
    }
    assert(a@ =~= b@);
    true
}

proof fn lemma_tree_starts_mono(t: HierarchyTree, a: int, b: int)
    requires
        t.wf(),
        0 <= a <= b <= t.level_seq().len(),
    ensures
        t.start(a) <= t.start(b),
    decreases b - a,
{
    if a < b {
        lemma_tree_starts_mono(t, a + 1, b);
        assert(t.start(a) <= t.start(a + 1));
    }
}

/// Every level start lies within the node list.
pub proof fn lemma_level_starts_bounded(t: HierarchyTree, li: int)
    requires
        t.wf(),
        0 <= li <= t.level_seq().len(),
    ensures
        0 <= t.start(li) <= t.node_seq().len(),
{
    lemma_tree_starts_mono(t, li, t.level_seq().len() as int);
    lemma_tree_starts_mono(t, 0, li);
}

proof fn lemma_find_level(t: HierarchyTree, i: int, l: int) -> (li: int)
    requires
        t.wf(),
        0 <= l < t.level_seq().len(),
        t.start(l) <= i < t.node_seq().len(),
    ensures
        l <= li < t.level_seq().len(),
        t.start(li) <= i < t.start(li + 1),
    decreases t.level_seq().len() - l,
{
    if i < t.start(l + 1) {
        l
    } else {
        lemma_find_level(t, i, l + 1)
    }
}

/// Every node lies in the segment of exactly its own level, and is that
/// level's node for its labels.
#[verifier::rlimit(40)]
pub proof fn lemma_node_level(t: HierarchyTree, i: int) -> (li: int)
    requires
        t.wf(),
        0 <= i < t.node_seq().len(),
    ensures
        0 <= li < t.level_seq().len(),
        t.start(li) <= i < t.start(li + 1),
        t.node_seq()[i] == t.segment(li)[i - t.start(li)],
        node_matches(t.node_seq()[i], t.bottom_rows(), t.all_cols(), t.level_seq()[li], li),
{
    let li = lemma_find_level(t, i, 0);
    lemma_tree_starts_mono(t, li + 1, t.level_seq().len() as int);
    let seg = t.segment(li);
    assert(seg[i - t.start(li)] == t.node_seq()[i]);
    assert(level_segment_ok(seg, t.bottom_rows(), t.all_cols(), t.level_seq()[li], li));
    assert(node_matches(seg[i - t.start(li)], t.bottom_rows(), t.all_cols(), t.level_seq()[li], li));
    li
}

/// Bottom row `j` is a member of some node of level `li`.
pub open spec fn covered_in_level(t: HierarchyTree, li: int, j: int) -> bool {
    exists|a: int| 0 <= a < t.segment(li).len() && #[trigger] t.segment(li)[a].aggregates_from@.contains(j as usize)
}

/// Within each level, every bottom row is a member of exactly one node:
/// the members of two distinct nodes of one level never overlap, and the
/// nodes of a level together cover every bottom row.
pub proof fn lemma_level_partition(t: HierarchyTree, li: int)
    requires
        t.wf(),
        0 <= li < t.level_seq().len(),
    ensures
        forall|a: int, b: int, j: usize| 0 <= a < b < t.segment(li).len() ==>
            !(#[trigger] t.segment(li)[a].aggregates_from@.contains(j) && #[trigger] t.segment(li)[b].aggregates_from@.contains(j)),
        forall|j: int| 0 <= j < t.bottom_rows().len() ==> #[trigger] covered_in_level(t, li, j),
{
    let seg = t.segment(li);
    let bv = t.bottom_rows();
    let av = t.all_cols();
    let lv = t.level_seq()[li];
    assert(level_segment_ok(seg, bv, av, lv, li));
    crate::order::lemma_row_order();
    assert forall|a: int, b: int, j: usize| 0 <= a < b < seg.len() implies
        !(#[trigger] seg[a].aggregates_from@.contains(j) && #[trigger] seg[b].aggregates_from@.contains(j)) by {
        if seg[a].aggregates_from@.contains(j) && seg[b].aggregates_from@.contains(j) {
            assert(node_matches(seg[a], bv, av, lv, li));
            assert(node_matches(seg[b], bv, av, lv, li));
            let qa = choose|q: int| 0 <= q < seg[a].aggregates_from@.len() && seg[a].aggregates_from@[q] == j;
            assert(j < bv.len());
            assert(project(bv[j as int], av, lv) == key_of(seg[a]));
            assert(project(bv[j as int], av, lv) == key_of(seg[b]));
            let keys = seg.map_values(|n: Node| key_of(n));
            assert(keys[a] == key_of(seg[a]) && keys[b] == key_of(seg[b]));
        }
    }
    assert forall|j: int| 0 <= j < bv.len() implies #[trigger] covered_in_level(t, li, j) by {
        let p = project(bv[j], av, lv);
        if lv.len() == 0 {
            assert(node_matches(seg[0], bv, av, lv, li));
            assert(key_of(seg[0]) =~= Seq::<Seq<char>>::empty());
            assert(p =~= Seq::<Seq<char>>::empty());
            assert(seg[0].aggregates_from@.contains(j as usize));
        } else {
            let keys = seg.map_values(|n: Node| key_of(n));
            assert(bv.map_values(|r: Seq<Seq<char>>| project(r, av, lv))[j] == p);
            assert(level_keys(bv, av, lv).contains(p));
            assert(keys.to_set().contains(p));
            let a = choose|a: int| 0 <= a < keys.len() && keys[a] == p;
            assert(node_matches(seg[a], bv, av, lv, li));
            assert(seg[a].aggregates_from@.contains(j as usize));
        }
    }
}

proof fn lemma_min_index(s: Seq<Seq<char>>, x: Seq<char>, k: int) -> (m: int)
    requires
        0 <= k < s.len(),
        s[k] == x,
    ensures
        0 <= m <= k,
        s[m] == x,
        forall|j: int| 0 <= j < m ==> s[j] != x,
    decreases k,
{
    if exists|j: int| 0 <= j < k && s[j] == x {
        let j = choose|j: int| 0 <= j < k && s[j] == x;
        lemma_min_index(s, x, j)
    } else {
        k
    }
}

proof fn lemma_first_index(s: Seq<Seq<char>>, x: Seq<char>, k: int)
    requires
        0 <= k < s.len(),
        s[k] == x,
    ensures
        0 <= crate::table::first_index(s, x) <= k,
        s[crate::table::first_index(s, x)] == x,
{
    let m = lemma_min_index(s, x, k);
    let f = crate::table::first_index(s, x);
    assert(0 <= m < s.len() && s[m] == x && forall|j: int| 0 <= j < m ==> s[j] != x);
    assert(0 <= f < s.len() && s[f] == x && forall|j: int| 0 <= j < f ==> s[j] != x);
    if f < m {
        assert(s[f] != x);
    } else if f > m {
        assert(s[m] != x);
    }
}

proof fn lemma_bottom_self_project(
    t: HierarchyTree,
    cols: Seq<Seq<char>>,
    cells: Seq<Seq<Seq<char>>>,
    h: Seq<Seq<char>>,
    g: Seq<Seq<char>>,
    j: int,
)
    requires
        t.built_from(cols, cells, h, g),
        0 <= j < t.bottom_rows().len(),
    ensures
        project(t.bottom_rows()[j], h + g, h + g) == t.bottom_rows()[j],
{
    let all = h + g;
    let r = t.bottom_rows()[j];
    let pc = cells.map_values(|c: Seq<Seq<char>>| project(c, cols, all));
    assert(t.bottom_rows().to_set().contains(r));
    assert(pc.to_set().contains(r));
    let a = choose|a: int| 0 <= a < pc.len() && pc[a] == r;
    assert(r == project(cells[a], cols, all));
    assert forall|i: int| 0 <= i < all.len() implies #[trigger] project(r, all, all)[i] == r[i] by {
        lemma_first_index(all, all[i], i);
        let fi = crate::table::first_index(all, all[i]);
        assert(r[fi] == cells[a][crate::table::first_index(cols, all[fi])]);
    }
    assert(project(r, all, all) =~= r);
}

/// The bottom level comes last. Its first nodes are the bottom rows, in the
/// same order, each the sum of its own row alone, and any node after them
/// has no member; with at least one column there is none after them. There
/// are as many bottom rows as distinct combinations of the spec's columns in
/// the table.
pub proof fn lemma_bottom_level_identity(
    t: HierarchyTree,
    cols: Seq<Seq<char>>,
    cells: Seq<Seq<Seq<char>>>,
    h: Seq<Seq<char>>,
    g: Seq<Seq<char>>,
)
    requires
        t.built_from(cols, cells, h, g),
    ensures
        t.level_seq().last() == h + g,
        t.bottom_rows().len() <= t.segment(t.level_seq().len() - 1).len(),
        h.len() + g.len() > 0 ==> t.segment(t.level_seq().len() - 1).len() == t.bottom_rows().len(),
        t.bottom_rows().len() == cells.map_values(|c: Seq<Seq<char>>| project(c, cols, h + g)).to_set().len(),
        forall|k: int| 0 <= k < t.bottom_rows().len() ==>
            key_of(#[trigger] t.segment(t.level_seq().len() - 1)[k]) == t.bottom_rows()[k]
            && t.segment(t.level_seq().len() - 1)[k].aggregates_from@ == seq![k as usize],
        forall|k: int| t.bottom_rows().len() <= k < t.segment(t.level_seq().len() - 1).len() ==>
            (#[trigger] t.segment(t.level_seq().len() - 1)[k]).aggregates_from@.len() == 0,
{
    let all = h + g;
    let bv = t.bottom_rows();
    let last = t.level_seq().len() - 1;
    lemma_bottom_last(h, g);
    let seg = t.segment(last);
    assert(level_segment_ok(seg, bv, all, all, last));
    crate::order::lemma_row_order();
    assert forall|j: int| 0 <= j < bv.len() implies #[trigger] project(bv[j], all, all) == bv[j] by {
        lemma_bottom_self_project(t, cols, cells, h, g, j);
    }
    let keys = seg.map_values(|n: Node| key_of(n));
    if all.len() == 0 {
        assert(seg.len() == 1);
        assert(node_matches(seg[0], bv, all, all, last));
        assert(keys[0] =~= Seq::<Seq<char>>::empty());
        if bv.len() >= 2 {
            assert(project(bv[0], all, all) =~= Seq::<Seq<char>>::empty());
            assert(project(bv[1], all, all) =~= Seq::<Seq<char>>::empty());
            assert(row_lt(bv[0], bv[1]));
        }
        if bv.len() == 1 {
            assert(project(bv[0], all, all) =~= Seq::<Seq<char>>::empty());
        } else {
            let ms = seg[0].aggregates_from@;
            if ms.len() > 0 {
                assert(ms[0] < bv.len());
            }
        }
    } else {
        assert(bv.map_values(|r: Seq<Seq<char>>| project(r, all, all)) =~= bv);
        crate::order::lemma_sorted_same_rows_equal(keys, bv);
    }
    assert forall|k: int| 0 <= k < bv.len() implies
        key_of(#[trigger] seg[k]) == bv[k] && seg[k].aggregates_from@ == seq![k as usize] by {
        assert(keys[k] == key_of(seg[k]));
        assert(keys[k] == bv[k]);
        assert(node_matches(seg[k], bv, all, all, last));
        let ms = seg[k].aggregates_from@;
        assert forall|i: int| 0 <= i < ms.len() implies ms[i] == k as usize by {
            let j = ms[i] as int;
            assert(ms.contains(ms[i]));
            assert(project(bv[j], all, all) == bv[k]);
            if j < k {
                assert(row_lt(bv[j], bv[k]));
            } else if j > k {
                assert(row_lt(bv[k], bv[j]));
            }
        }
        assert(project(bv[k], all, all) == bv[k]);
        assert(ms.contains(k as usize));
        if ms.len() > 1 {
            assert(ms[0] < ms[1]);
        }
        assert(ms =~= seq![k as usize]);
    }
    assert(bv.no_duplicates()) by {
        assert forall|i: int, j: int| 0 <= i < bv.len() && 0 <= j < bv.len() && i != j implies bv[i] != bv[j] by {
            if i < j {
                assert(row_lt(bv[i], bv[j]));
            } else {
                assert(row_lt(bv[j], bv[i]));
            }
        }
    }
    bv.unique_seq_to_set();
}

/// What a node holds, as plain values: id, level, labels and members.
pub open spec fn node_view(n: Node) -> (Seq<char>, nat, Seq<(Seq<char>, Seq<char>)>, Seq<usize>) {
    (
        n.id@,
        n.level as nat,
        n.labels@.map_values(|p: (String, String)| (p.0@, p.1@)),
        n.aggregates_from@,
    )
}

proof fn lemma_same_members(a: Seq<usize>, b: Seq<usize>)
    requires
        forall|i: int, j: int| 0 <= i < j < a.len() ==> a[i] < a[j],
        forall|i: int, j: int| 0 <= i < j < b.len() ==> b[i] < b[j],
        forall|x: usize| a.contains(x) <==> b.contains(x),
    ensures
        a == b,
    decreases a.len(),
{
    if a.len() == 0 {
        if b.len() > 0 {
            assert(b.contains(b[0]));
        }
        assert(a =~= b);
    } else {
        assert(a.contains(a[0]));
        assert(b.len() > 0);
        assert(b.contains(b[0]));
        let p = choose|p: int| 0 <= p < a.len() && a[p] == b[0];
        let q = choose|q: int| 0 <= q < b.len() && b[q] == a[0];
        if p > 0 {
            assert(a[0] < a[p]);
            if q > 0 {
                assert(b[0] < b[q]);
            }
        }
        assert(a[0] == b[0]);
        let a1 = a.skip(1);
        let b1 = b.skip(1);
        assert forall|x: usize| a1.contains(x) <==> b1.contains(x) by {
            if a1.contains(x) {
                let k = choose|k: int| 0 <= k < a1.len() && a1[k] == x;
                assert(a[0] < a[k + 1]);
                assert(a.contains(x));
                let k2 = choose|k2: int| 0 <= k2 < b.len() && b[k2] == x;
                assert(k2 != 0);
                assert(b1[k2 - 1] == x);
            }
            if b1.contains(x) {
                let k = choose|k: int| 0 <= k < b1.len() && b1[k] == x;
                assert(b[0] < b[k + 1]);
                assert(b.contains(x));
                let k2 = choose|k2: int| 0 <= k2 < a.len() && a[k2] == x;
                assert(k2 != 0);
                assert(a1[k2 - 1] == x);
            }
        }
        lemma_same_members(a1, b1);
        assert(a.len() == b.len());
        assert forall|i: int| 0 <= i < a.len() implies a[i] == b[i] by {
            if i > 0 {
                assert(a[i] == a1[i - 1] && b[i] == b1[i - 1]);
            }
        }
        assert(a =~= b);
    }
}

proof fn lemma_same_node(
    n1: Node,
    n2: Node,
    bottom: Seq<Seq<Seq<char>>>,
    all: Seq<Seq<char>>,
    level: Seq<Seq<char>>,
    li: int,
)
    requires
        node_matches(n1, bottom, all, level, li),
        node_matches(n2, bottom, all, level, li),
        key_of(n1) == key_of(n2),
    ensures
        node_view(n1) == node_view(n2),
{
    let m1 = n1.aggregates_from@;
    let m2 = n2.aggregates_from@;
    assert forall|x: usize| m1.contains(x) <==> m2.contains(x) by {
        if m1.contains(x) {
            let k = choose|k: int| 0 <= k < m1.len() && m1[k] == x;
            assert(project(bottom[x as int], all, level) == key_of(n1));
        }
        if m2.contains(x) {
            let k = choose|k: int| 0 <= k < m2.len() && m2[k] == x;
            assert(project(bottom[x as int], all, level) == key_of(n2));
        }
    }
    lemma_same_members(m1, m2);
    let l1 = n1.labels@.map_values(|p: (String, String)| (p.0@, p.1@));
    let l2 = n2.labels@.map_values(|p: (String, String)| (p.0@, p.1@));
    assert forall|k: int| 0 <= k < l1.len() implies l1[k] == l2[k] by {
        assert(key_of(n1)[k] == key_of(n2)[k]);
    }
    assert(l1 =~= l2);
}

proof fn lemma_same_segment(
    s1: Seq<Node>,
    s2: Seq<Node>,
    bottom: Seq<Seq<Seq<char>>>,
    all: Seq<Seq<char>>,
    level: Seq<Seq<char>>,
    li: int,
)
    requires
        level_segment_ok(s1, bottom, all, level, li),
        level_segment_ok(s2, bottom, all, level, li),
    ensures
        s1.len() == s2.len(),
        forall|k: int| 0 <= k < s1.len() ==> node_view(#[trigger] s1[k]) == node_view(s2[k]),
{
    let k1 = s1.map_values(|n: Node| key_of(n));
    let k2 = s2.map_values(|n: Node| key_of(n));
    if level.len() == 0 {
        assert(node_matches(s1[0], bottom, all, level, li));
        assert(node_matches(s2[0], bottom, all, level, li));
        assert(key_of(s1[0]) =~= key_of(s2[0]));
        lemma_same_node(s1[0], s2[0], bottom, all, level, li);
    } else {
        crate::order::lemma_sorted_same_rows_equal(k1, k2);
        assert(k1.len() == k2.len());
        assert forall|k: int| 0 <= k < s1.len() implies node_view(#[trigger] s1[k]) == node_view(s2[k]) by {
            assert(k1[k] == k2[k]);
            lemma_same_node(s1[k], s2[k], bottom, all, level, li);
        }
    }
}

/// Building twice from the same table and spec gives the same bottom rows,
/// the same levels and the same nodes in the same order: same ids, levels,
/// labels and members.
pub proof fn lemma_build_deterministic(
    t1: HierarchyTree,
    t2: HierarchyTree,
    cols: Seq<Seq<char>>,
    cells: Seq<Seq<Seq<char>>>,
    h: Seq<Seq<char>>,
    g: Seq<Seq<char>>,
)
    requires
        t1.built_from(cols, cells, h, g),
        t2.built_from(cols, cells, h, g),
    ensures
        t1.bottom_rows() == t2.bottom_rows(),
        t1.level_seq() == t2.level_seq(),
        t1.node_seq().len() == t2.node_seq().len(),
        forall|i: int| 0 <= i < t1.node_seq().len() ==> node_view(#[trigger] t1.node_seq()[i]) == node_view(t2.node_seq()[i]),
{
    crate::order::lemma_sorted_same_rows_equal(t1.bottom_rows(), t2.bottom_rows());
    let nl = t1.level_seq().len() as int;
    lemma_same_starts(t1, t2, nl);
    assert forall|i: int| 0 <= i < t1.node_seq().len() implies node_view(#[trigger] t1.node_seq()[i]) == node_view(t2.node_seq()[i]) by {
        let li = lemma_node_level(t1, i);
        lemma_same_starts(t1, t2, li + 1);
        lemma_level_starts_bounded(t2, li + 1);
        lemma_level_starts_bounded(t2, li);
        let off = i - t1.start(li);
        assert(level_segment_ok(t1.segment(li), t1.bottom_rows(), t1.all_cols(), t1.level_seq()[li], li));
        assert(level_segment_ok(t2.segment(li), t2.bottom_rows(), t2.all_cols(), t2.level_seq()[li], li));
        lemma_same_segment(t1.segment(li), t2.segment(li), t1.bottom_rows(), h + g, t1.level_seq()[li], li);
        assert(t1.segment(li)[off] == t1.node_seq()[i]);
        assert(t2.segment(li)[off] == t2.node_seq()[i]);
    }
}

proof fn lemma_same_starts(t1: HierarchyTree, t2: HierarchyTree, l: int)
    requires
        t1.wf(),
        t2.wf(),
        t1.bottom_rows() == t2.bottom_rows(),
        t1.all_cols() == t2.all_cols(),
        t1.level_seq() == t2.level_seq(),
        0 <= l <= t1.level_seq().len(),
    ensures
        t1.start(l) == t2.start(l),
    decreases l,
{
    if l > 0 {
        lemma_same_starts(t1, t2, l - 1);
        assert(level_segment_ok(t1.segment(l - 1), t1.bottom_rows(), t1.all_cols(), t1.level_seq()[l - 1], l - 1));
        assert(level_segment_ok(t2.segment(l - 1), t2.bottom_rows(), t2.all_cols(), t2.level_seq()[l - 1], l - 1));
        lemma_same_segment(t1.segment(l - 1), t2.segment(l - 1), t1.bottom_rows(), t1.all_cols(), t1.level_seq()[l - 1], l - 1);
        lemma_level_starts_bounded(t1, l);
        lemma_level_starts_bounded(t2, l);
        assert(t1.start(l - 1) <= t1.start(l));
        assert(t2.start(l - 1) <= t2.start(l));
    }
}

/// Two trees built from the same table and spec start each level at the
/// same node.
pub proof fn lemma_level_starts_agree(
    t1: HierarchyTree,
    t2: HierarchyTree,
    cols: Seq<Seq<char>>,
    cells: Seq<Seq<Seq<char>>>,
    h: Seq<Seq<char>>,
    g: Seq<Seq<char>>,
    l: int,
)
    requires
        t1.built_from(cols, cells, h, g),
        t2.built_from(cols, cells, h, g),
        0 <= l <= t1.level_seq().len(),
    ensures
        t1.start(l) == t2.start(l),
{
    crate::order::lemma_sorted_same_rows_equal(t1.bottom_rows(), t2.bottom_rows());
    lemma_same_starts(t1, t2, l);
}

proof fn lemma_filter_prefix(s: Seq<Node>, m: int)
    requires
        0 <= m <= s.len(),
        forall|i: int| 0 <= i < s.len() ==> (single()(#[trigger] s[i]) <==> i < m),
    ensures
        s.filter(single()) == s.take(m),
    decreases s.len(),
{
    if s.len() == 0 {
        assert(s.filter(single()) =~= s) by {
            reveal(Seq::filter);
        }
        assert(s.take(m) =~= s);
    } else {
        let d = s.drop_last();
        assert(s =~= d.push(s.last()));
        d.lemma_filter_push(s.last(), single());
        if m == s.len() {
            lemma_filter_prefix(d, m - 1);
            assert(d.take(m - 1) =~= d);
            assert(s.take(m) =~= s);
        } else {
            assert(!single()(s[s.len() - 1]));
            lemma_filter_prefix(d, m);
            assert(d.take(m) =~= s.take(m));
        }
    }
}

/// A tree built from a table has one bottom-level node per bottom row, the
/// `j`-th aggregating bottom row `j` alone.
pub proof fn lemma_bottom_ok(
    t: HierarchyTree,
    cols: Seq<Seq<char>>,
    cells: Seq<Seq<Seq<char>>>,
    h: Seq<Seq<char>>,
    g: Seq<Seq<char>>,
)
    requires
        t.built_from(cols, cells, h, g),
    ensures
        t.bottom_ok(),
        t.bottom_nodes() == t.segment(t.level_seq().len() - 1).take(t.bottom_rows().len() as int),
{
    lemma_bottom_level_identity(t, cols, cells, h, g);
    let seg = t.segment(t.level_seq().len() - 1);
    let m = t.bottom_rows().len() as int;
    assert forall|i: int| 0 <= i < seg.len() implies (single()(#[trigger] seg[i]) <==> i < m) by {
        if i < m {
            assert(seg[i].aggregates_from@ == seq![i as usize]);
        }
    }
    lemma_filter_prefix(seg, m);
    assert forall|j: int| 0 <= j < t.bottom_nodes().len() implies (#[trigger] t.bottom_nodes()[j]).aggregates_from@ == seq![j as usize] by {
        assert(t.bottom_nodes()[j] == seg[j]);
    }
}

} // verus!
