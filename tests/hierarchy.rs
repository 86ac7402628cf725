use hts_core::{HierarchySpec, HierarchyTree, HtsError, Table};

fn strings(v: &[&str]) -> Vec<String> {
    v.iter().map(|s| s.to_string()).collect()
}

fn table(columns: &[&str], rows: &[&[&str]]) -> Table {
    Table::new(strings(columns), rows.iter().map(|r| strings(r)).collect()).unwrap()
}

fn sample_df() -> Table {
    table(
        &["State", "Region", "Purpose", "Value"],
        &[
            &["A", "A1", "X", "1.0"],
            &["A", "A2", "X", "2.0"],
            &["B", "B1", "X", "3.0"],
            &["B", "B2", "X", "4.0"],
        ],
    )
}

fn gdp_table() -> Table {
    let mut rows: Vec<Vec<String>> = Vec::new();
    for (state, city) in [
        ("Rio de Janeiro", "Rio de Janeiro"),
        ("Rio de Janeiro", "Duque de Caxias"),
        ("São Paulo", "São Paulo"),
        ("São Paulo", "Campinas"),
    ] {
        for sector in ["Industry", "Agriculture"] {
            for quarter in ["2024 Q1", "2024 Q2"] {
                rows.push(strings(&[state, city, sector, quarter, "1"]));
            }
        }
    }
    Table::new(strings(&["State", "City", "Sector", "Quarter", "GDP"]), rows).unwrap()
}

#[test]
fn test_hierarchy_spec_validate() {
    let df = sample_df();
    let spec = HierarchySpec::new(
        vec!["State".into(), "Region".into()],
        vec!["Purpose".into()],
    );
    assert!(spec.validate(&df).is_ok());

    let bad_spec = HierarchySpec::new(vec!["NonExistent".into()], vec![]);
    assert!(bad_spec.validate(&df).is_err());
}

#[test]
fn test_hierarchy_tree_simple() {
    let df = table(
        &["State", "Region", "Value"],
        &[
            &["A", "A1", "1.0"],
            &["A", "A2", "2.0"],
            &["B", "B1", "3.0"],
            &["B", "B2", "4.0"],
        ],
    );

    let spec = HierarchySpec::hierarchical(vec!["State".into(), "Region".into()]);
    let tree = HierarchyTree::from_dataframe(&df, &spec).unwrap();

    assert_eq!(tree.n_bottom(), 4);
    assert!(tree.n_series() >= 4);

    let total = tree.get_node("Total").unwrap();
    assert_eq!(total.aggregates_from.len(), 4);
}

#[test]
fn hierarchical_tree_has_seven_nodes_in_order() {
    let df = sample_df();
    let spec = HierarchySpec::hierarchical(vec!["State".into(), "Region".into()]);
    let tree = HierarchyTree::from_dataframe(&df, &spec).unwrap();
    let ids: Vec<&str> = tree.nodes().iter().map(|n| n.id.as_str()).collect();
    assert_eq!(ids, vec!["Total", "A", "B", "A/A1", "A/A2", "B/B1", "B/B2"]);
    assert_eq!(tree.n_levels(), 3);
    assert_eq!(tree.get_node("A").unwrap().aggregates_from, vec![0, 1]);
    assert_eq!(tree.get_node("B/B1").unwrap().aggregates_from, vec![2]);
    assert_eq!(tree.get_node("B").unwrap().labels, vec![("State".to_string(), "B".to_string())]);
    assert!(tree.get_node("C").is_none());
}

#[test]
fn level_combinations_mixed() {
    let spec = HierarchySpec::new(vec!["State".into(), "City".into()], vec!["Sector".into()]);
    let levels = spec.level_combinations();
    let expected: Vec<Vec<String>> = vec![
        vec![],
        strings(&["Sector"]),
        strings(&["State"]),
        strings(&["State", "Sector"]),
        strings(&["State", "City"]),
        strings(&["State", "City", "Sector"]),
    ];
    assert_eq!(levels, expected);
}

#[test]
fn level_combinations_edge_cases() {
    let empty = HierarchySpec::new(vec![], vec![]);
    assert_eq!(empty.level_combinations(), vec![Vec::<String>::new()]);

    let grouped = HierarchySpec::grouped(strings(&["Purpose", "Sector"]));
    assert_eq!(
        grouped.level_combinations(),
        vec![vec![], strings(&["Purpose", "Sector"])]
    );

    let deep = HierarchySpec::new(strings(&["A", "B", "C"]), strings(&["G"]));
    assert_eq!(
        deep.level_combinations(),
        vec![
            vec![],
            strings(&["G"]),
            strings(&["A"]),
            strings(&["A", "G"]),
            strings(&["A", "B"]),
            strings(&["A", "B", "G"]),
            strings(&["A", "B", "C"]),
            strings(&["A", "B", "C", "G"]),
        ]
    );

    let repeated = HierarchySpec::new(strings(&["G"]), strings(&["G"]));
    assert_eq!(
        repeated.level_combinations(),
        vec![vec![], strings(&["G"]), strings(&["G", "G"])]
    );
}

#[test]
fn all_columns_is_hierarchy_then_groups() {
    let spec = HierarchySpec::new(strings(&["State", "City"]), strings(&["Sector"]));
    assert_eq!(spec.all_columns(), strings(&["State", "City", "Sector"]));
}

#[test]
fn unknown_column_is_reported_before_building() {
    let df = sample_df();
    let spec = HierarchySpec::new(strings(&["State", "Nope", "Other"]), vec![]);
    match HierarchyTree::from_dataframe(&df, &spec) {
        Err(HtsError::ColumnNotFound(c)) => assert_eq!(c, "Nope"),
        other => panic!("unexpected {:?}", other.map(|t| t.n_series())),
    }
}

#[test]
fn colliding_ids_are_rejected() {
    let df = table(&["P", "Q"], &[&["a/b", "c"], &["a", "b"]]);
    let spec = HierarchySpec::new(strings(&["P"]), strings(&["Q"]));
    match HierarchyTree::from_dataframe(&df, &spec) {
        Err(HtsError::Hierarchy(id)) => assert_eq!(id, "a/b"),
        other => panic!("unexpected {:?}", other.map(|t| t.n_series())),
    }
}

#[test]
fn mixed_scenario_has_twenty_one_nodes() {
    let df = gdp_table();
    let spec = HierarchySpec::new(strings(&["State", "City"]), strings(&["Sector"]));
    let tree = HierarchyTree::from_dataframe(&df, &spec).unwrap();
    assert_eq!(tree.n_series(), 21);
    assert_eq!(tree.n_bottom(), 8);
    let ids: Vec<&str> = tree.nodes().iter().map(|n| n.id.as_str()).collect();
    assert_eq!(ids[0], "Total");
    assert_eq!(ids[1], "Agriculture");
    assert_eq!(ids[5], "Rio de Janeiro/Agriculture");
    assert_eq!(ids[9], "Rio de Janeiro/Duque de Caxias");
    assert_eq!(ids[13], "Rio de Janeiro/Duque de Caxias/Agriculture");
    assert_eq!(ids[20], "São Paulo/São Paulo/Industry");
    let bottom: Vec<&str> = tree.bottom_level_nodes().iter().map(|n| n.id.as_str()).collect();
    assert_eq!(bottom.len(), 8);
    assert_eq!(bottom[0], "Rio de Janeiro/Duque de Caxias/Agriculture");
}

#[test]
fn levels_partition_bottom_rows() {
    let df = gdp_table();
    let spec = HierarchySpec::new(strings(&["State", "City"]), strings(&["Sector"]));
    let tree = HierarchyTree::from_dataframe(&df, &spec).unwrap();
    let starts = tree.level_starts();
    for l in 0..tree.n_levels() {
        let mut seen = vec![0usize; tree.n_bottom()];
        for node in &tree.nodes()[starts[l]..starts[l + 1]] {
            assert_eq!(node.level, l);
            for &j in &node.aggregates_from {
                seen[j] += 1;
            }
        }
        assert!(seen.iter().all(|&c| c == 1));
    }
}

#[test]
fn rebuilding_gives_the_same_tree() {
    let df = gdp_table();
    let spec = HierarchySpec::new(strings(&["State", "City"]), strings(&["Sector"]));
    let a = HierarchyTree::from_dataframe(&df, &spec).unwrap();
    let b = HierarchyTree::from_dataframe(&df, &spec).unwrap();
    assert_eq!(a.n_series(), b.n_series());
    for (x, y) in a.nodes().iter().zip(b.nodes().iter()) {
        assert_eq!(x.id, y.id);
        assert_eq!(x.level, y.level);
        assert_eq!(x.aggregates_from, y.aggregates_from);
    }
}

#[test]
fn bottom_count_is_distinct_combinations() {
    let df = table(
        &["R", "C", "T"],
        &[&["x", "1", "q1"], &["x", "1", "q2"], &["x", "2", "q1"], &["y", "1", "q1"]],
    );
    let spec = HierarchySpec::hierarchical(strings(&["R", "C"]));
    let tree = HierarchyTree::from_dataframe(&df, &spec).unwrap();
    assert_eq!(tree.n_bottom(), 3);
    assert_eq!(tree.bottom_values(), &vec![strings(&["x", "1"]), strings(&["x", "2"]), strings(&["y", "1"])]);
    for (k, node) in tree.bottom_level_nodes().iter().enumerate() {
        assert_eq!(node.aggregates_from, vec![k]);
        assert!(node.is_bottom());
    }
}

#[test]
fn empty_table_keeps_the_total() {
    let df = table(&["R"], &[]);
    let spec = HierarchySpec::hierarchical(strings(&["R"]));
    let tree = HierarchyTree::from_dataframe(&df, &spec).unwrap();
    assert_eq!(tree.n_series(), 1);
    assert_eq!(tree.n_bottom(), 0);
    assert!(tree.get_node("Total").unwrap().aggregates_from.is_empty());
}

#[test]
fn table_rejects_ragged_rows() {
    assert!(Table::new(strings(&["a", "b"]), vec![strings(&["1"])]).is_none());
    let t = Table::new(strings(&["a", "b"]), vec![strings(&["1", "2"])]).unwrap();
    assert_eq!(t.height(), 1);
    assert_eq!(t.column_index(&"b".to_string()), Some(1));
    assert_eq!(t.column_index(&"c".to_string()), None);
}

#[test]
fn rows_sort_by_code_point() {
    let df = table(&["K"], &[&["b"], &["B"], &["a"], &["ab"], &["é"], &["a"]]);
    let spec = HierarchySpec::hierarchical(strings(&["K"]));
    let tree = HierarchyTree::from_dataframe(&df, &spec).unwrap();
    let ids: Vec<&str> = tree.nodes().iter().map(|n| n.id.as_str()).collect();
    assert_eq!(ids, vec!["Total", "B", "a", "ab", "b", "é"]);
}
