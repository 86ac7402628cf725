use hts_core::{HierarchySpec, HierarchyTree, SummationMatrix, Table};

fn strings(v: &[&str]) -> Vec<String> {
    v.iter().map(|s| s.to_string()).collect()
}

fn table(columns: &[&str], rows: &[&[&str]]) -> Table {
    Table::new(strings(columns), rows.iter().map(|r| strings(r)).collect()).unwrap()
}

fn state_region() -> Table {
    table(
        &["State", "Region", "Value"],
        &[
            &["A", "A1", "1.0"],
            &["A", "A2", "2.0"],
            &["B", "B1", "3.0"],
            &["B", "B2", "4.0"],
        ],
    )
}

fn gdp_matrix() -> SummationMatrix {
    let mut rows: Vec<Vec<String>> = Vec::new();
    for (state, city) in [
        ("Rio de Janeiro", "Rio de Janeiro"),
        ("Rio de Janeiro", "Duque de Caxias"),
        ("São Paulo", "São Paulo"),
        ("São Paulo", "Campinas"),
    ] {
        for sector in ["Industry", "Agriculture"] {
            rows.push(strings(&[state, city, sector, "2024 Q1", "1"]));
        }
    }
    let df = Table::new(strings(&["State", "City", "Sector", "Quarter", "GDP"]), rows).unwrap();
    let spec = HierarchySpec::new(strings(&["State", "City"]), strings(&["Sector"]));
    let tree = HierarchyTree::from_dataframe(&df, &spec).unwrap();
    SummationMatrix::from_hierarchy(&tree)
}

#[test]
fn summation_matrix_test_summation_matrix_shape() {
    let df = state_region();
    let spec = HierarchySpec::hierarchical(vec!["State".into(), "Region".into()]);
    let tree = HierarchyTree::from_dataframe(&df, &spec).unwrap();
    let s = SummationMatrix::from_hierarchy(&tree);

    assert_eq!(s.n_bottom(), 4);
    assert!(s.n_series() >= 4);

    let (n, m) = s.shape();
    assert_eq!(m, 4);
    assert!(n >= 4);
}

#[test]
fn test_summation_matrix_aggregate() {
    let df = state_region();
    let spec = HierarchySpec::hierarchical(vec!["State".into(), "Region".into()]);
    let tree = HierarchyTree::from_dataframe(&df, &spec).unwrap();
    let s = SummationMatrix::from_hierarchy(&tree);

    let bottom = vec![1, 2, 3, 4];
    let all = s.aggregate(&bottom);

    let total_idx = s.row_labels().iter().position(|l| l == "Total").unwrap();
    assert_eq!(all[total_idx], 10);
}

#[test]
fn test_identity_at_bottom() {
    let df = table(&["Region", "Value"], &[&["A", "1.0"], &["B", "2.0"], &["C", "3.0"]]);
    let spec = HierarchySpec::hierarchical(vec!["Region".into()]);
    let tree = HierarchyTree::from_dataframe(&df, &spec).unwrap();
    let s = SummationMatrix::from_hierarchy(&tree);

    let mat = s.to_vec();
    assert_eq!(mat, vec![vec![1, 1, 1], vec![1, 0, 0], vec![0, 1, 0], vec![0, 0, 1]]);

    for node in tree.nodes() {
        if node.is_bottom() {
            assert_eq!(node.aggregates_from.len(), 1);
        }
    }
}

#[test]
fn mixed_scenario_shape_and_total() {
    let s = gdp_matrix();
    assert_eq!(s.shape(), (21, 8));
    let y = s.aggregate(&[1; 8]);
    assert_eq!(y[0], 8);
    assert_eq!(s.row_labels()[0], "Total");
    assert_eq!(s.col_labels().len(), 8);
    assert_eq!(s.col_labels()[0], "Rio de Janeiro/Duque de Caxias/Agriculture");
    assert_eq!(s.col_labels()[7], "São Paulo/São Paulo/Industry");
    let mat = s.to_vec();
    assert_eq!(mat[1], vec![1, 0, 1, 0, 1, 0, 1, 0]);
    assert_eq!(mat[3], vec![1, 1, 1, 1, 0, 0, 0, 0]);
    assert_eq!(mat[9], vec![1, 1, 0, 0, 0, 0, 0, 0]);
    for k in 0..8 {
        for j in 0..8 {
            assert_eq!(s.get(13 + k, j), if k == j { 1 } else { 0 });
        }
    }
}

#[test]
fn aggregate_sums_members() {
    let df = state_region();
    let spec = HierarchySpec::hierarchical(strings(&["State", "Region"]));
    let tree = HierarchyTree::from_dataframe(&df, &spec).unwrap();
    let s = SummationMatrix::from_hierarchy(&tree);
    let b = vec![5, -7, 11, 100];
    let y = s.aggregate(&b);
    assert_eq!(y, vec![109, -2, 111, 5, -7, 11, 100]);
    for (i, node) in tree.nodes().iter().enumerate() {
        let sum: i128 = node.aggregates_from.iter().map(|&j| b[j] as i128).sum();
        assert_eq!(y[i], sum);
    }
}

#[test]
fn aggregate_is_exact_at_the_extremes() {
    let df = state_region();
    let spec = HierarchySpec::hierarchical(strings(&["State", "Region"]));
    let tree = HierarchyTree::from_dataframe(&df, &spec).unwrap();
    let s = SummationMatrix::from_hierarchy(&tree);
    let y = s.aggregate(&[i64::MAX, i64::MAX, i64::MIN, i64::MIN]);
    assert_eq!(y[0], -2);
    assert_eq!(y[1], 2 * (i64::MAX as i128));
}

#[test]
fn rebuilt_matrix_is_identical() {
    let a = gdp_matrix();
    let b = gdp_matrix();
    assert_eq!(a.to_vec(), b.to_vec());
    assert_eq!(a.row_labels(), b.row_labels());
    assert_eq!(a.col_labels(), b.col_labels());
}

#[test]
fn empty_table_and_spec_have_no_columns() {
    let df = table(&["V"], &[]);
    let spec = HierarchySpec::new(vec![], vec![]);
    let tree = HierarchyTree::from_dataframe(&df, &spec).unwrap();
    assert_eq!(tree.n_bottom(), 0);
    assert!(tree.bottom_level_nodes().is_empty());
    let s = SummationMatrix::from_hierarchy(&tree);
    assert_eq!(s.shape(), (1, 0));
    assert!(s.col_labels().is_empty());
    assert_eq!(s.row_labels()[0], "Total");
}

#[test]
fn empty_spec_on_rows_is_one_bottom_total() {
    let df = table(&["V"], &[&["1"], &["2"]]);
    let tree = HierarchyTree::from_dataframe(&df, &HierarchySpec::new(vec![], vec![])).unwrap();
    let s = SummationMatrix::from_hierarchy(&tree);
    assert_eq!(s.shape(), (1, 1));
    assert_eq!(s.col_labels(), &["Total".to_string()]);
    assert_eq!(s.aggregate(&[7]), vec![7]);
}

#[test]
fn single_child_parent_is_not_a_column() {
    let df = table(&["S", "C"], &[&["a", "a1"], &["b", "b1"], &["b", "b2"]]);
    let spec = HierarchySpec::hierarchical(strings(&["S", "C"]));
    let tree = HierarchyTree::from_dataframe(&df, &spec).unwrap();
    let s = SummationMatrix::from_hierarchy(&tree);
    assert_eq!(s.col_labels(), &strings(&["a/a1", "b/b1", "b/b2"])[..]);
    let bottom: Vec<&str> = tree.bottom_level_nodes().iter().map(|n| n.id.as_str()).collect();
    assert_eq!(bottom, vec!["a/a1", "b/b1", "b/b2"]);
}
