use hts_core::hts::HierarchicalTimeSeries;
use hts_core::{HierarchySpec, HtsError, Period, Table};

fn strings(v: &[&str]) -> Vec<String> {
    v.iter().map(|s| s.to_string()).collect()
}

fn table(columns: &[&str], rows: &[&[&str]]) -> Table {
    Table::new(strings(columns), rows.iter().map(|r| strings(r)).collect()).unwrap()
}

#[test]
fn test_hts_from_dataframe() {
    let df = table(
        &["Quarter", "State", "Region", "Value"],
        &[
            &["1998 Q1", "A", "AA", "1.0"],
            &["1998 Q2", "A", "AA", "2.0"],
            &["1998 Q1", "B", "BA", "3.0"],
            &["1998 Q2", "B", "BA", "4.0"],
        ],
    );

    let spec = HierarchySpec::hierarchical(vec!["State".into(), "Region".into()]);
    let hts = HierarchicalTimeSeries::new(df, spec, "Quarter", "Value").unwrap();

    let summary = hts.summary();
    println!("{:?}", summary);

    assert_eq!(hts.n_periods(), 2);
    assert!(hts.n_series() >= 2);
}

#[test]
fn test_hts_summary() {
    let mut rows: Vec<Vec<String>> = Vec::new();
    let states = ["A", "A", "A", "A", "B", "B", "B", "B"];
    let regions = ["AA", "AA", "AB", "AB", "BA", "BA", "BB", "BB"];
    let purposes = ["X", "Y", "X", "Y", "X", "Y", "X", "Y"];
    let values = ["1.0", "2.0", "3.0", "4.0", "5.0", "6.0", "7.0", "8.0"];
    for i in 0..8 {
        rows.push(strings(&["2024 M01", states[i], regions[i], purposes[i], values[i]]));
    }
    let df = Table::new(strings(&["Quarter", "State", "Region", "Purpose", "Value"]), rows).unwrap();

    let spec = HierarchySpec::new(
        vec!["State".into(), "Region".into()],
        vec!["Purpose".into()],
    );
    let hts = HierarchicalTimeSeries::new(df, spec, "Quarter", "Value").unwrap();

    let summary = hts.summary();
    println!("{:?}", summary);

    assert!(summary.n_series >= 1);
    assert!(summary.n_bottom >= 1);
}

#[test]
fn periods_are_distinct_and_sorted() {
    let df = table(
        &["T", "K", "V"],
        &[&["2001", "a", "1"], &["1999", "a", "1"], &["2001", "b", "1"], &["2000", "b", "1"]],
    );
    let hts = HierarchicalTimeSeries::new(df, HierarchySpec::hierarchical(strings(&["K"])), "T", "V").unwrap();
    assert_eq!(hts.periods(), &[Period::Annual(1999), Period::Annual(2000), Period::Annual(2001)]);
    let s = hts.summary();
    assert_eq!(s.s_matrix_shape, (3, 2));
    assert_eq!(s.hierarchy_cols, strings(&["K"]));
}

#[test]
fn missing_time_or_value_column() {
    let df = table(&["T", "K"], &[&["2001", "a"]]);
    match HierarchicalTimeSeries::new(df.clone(), HierarchySpec::hierarchical(strings(&["K"])), "Time", "V") {
        Err(HtsError::ColumnNotFound(c)) => assert_eq!(c, "Time"),
        _ => panic!("expected a missing time column"),
    }
    match HierarchicalTimeSeries::new(df, HierarchySpec::hierarchical(strings(&["K"])), "T", "V") {
        Err(HtsError::ColumnNotFound(c)) => assert_eq!(c, "V"),
        _ => panic!("expected a missing value column"),
    }
}

#[test]
fn bad_period_text_fails() {
    let df = table(&["T", "K", "V"], &[&["1998 Q5", "a", "1"]]);
    let r = HierarchicalTimeSeries::new(df, HierarchySpec::hierarchical(strings(&["K"])), "T", "V");
    assert!(matches!(r, Err(HtsError::InvalidPeriod(_))));
}

#[test]
fn equal_periods_from_different_texts_appear_once() {
    let df = table(
        &["T", "K", "V"],
        &[&["1998 q1", "a", "1"], &["1998 Q1", "b", "1"], &["1997 Q4", "a", "1"]],
    );
    let hts = HierarchicalTimeSeries::new(df, HierarchySpec::hierarchical(strings(&["K"])), "T", "V").unwrap();
    assert_eq!(hts.periods(), &[Period::Quarterly(1997, 4), Period::Quarterly(1998, 1)]);
    assert_eq!(hts.n_periods(), 2);
}
