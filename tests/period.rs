use hts_core::{Date, HtsError, Period};

#[test]
fn test_parse_annual() {
    assert_eq!(Period::parse("1998").unwrap(), Period::Annual(1998));
}

#[test]
fn test_parse_quarterly() {
    assert_eq!(Period::parse("1998 Q1").unwrap(), Period::Quarterly(1998, 1));
    assert_eq!(Period::parse("2024 q4").unwrap(), Period::Quarterly(2024, 4));
}

#[test]
fn test_parse_monthly() {
    assert_eq!(Period::parse("1998 M01").unwrap(), Period::Monthly(1998, 1));
    assert_eq!(Period::parse("2024 m12").unwrap(), Period::Monthly(2024, 12));
}

#[test]
fn test_parse_weekly() {
    assert_eq!(Period::parse("1998 W01").unwrap(), Period::Weekly(1998, 1));
}

#[test]
fn test_parse_daily() {
    assert_eq!(
        Period::parse("1998-01-01").unwrap(),
        Period::Daily(Date::from_ymd_opt(1998, 1, 1).unwrap())
    );
}

#[test]
fn test_ordering() {
    let p1 = Period::Quarterly(1998, 1);
    let p2 = Period::Quarterly(1998, 2);
    assert!(p1 < p2);

    let m1 = Period::Monthly(1998, 1);
    let m2 = Period::Monthly(1998, 2);
    assert!(m1 < m2);
}

#[test]
fn test_display() {
    assert_eq!(Period::Quarterly(1998, 1).to_string(), "1998 Q1");
    assert_eq!(Period::Monthly(1998, 1).to_string(), "1998 M01");
    assert_eq!(Period::Annual(1998).to_string(), "1998");
}

#[test]
fn display_of_other_shapes() {
    assert_eq!(Period::Weekly(2020, 7).to_string(), "2020 W07");
    assert_eq!(Period::Monthly(2020, 11).to_string(), "2020 M11");
    assert_eq!(Period::Annual(-42).to_string(), "-42");
    assert_eq!(Period::Annual(i32::MIN).to_string(), "-2147483648");
    let d = Date::from_ymd_opt(1998, 3, 9).unwrap();
    assert_eq!(Period::Daily(d).to_string(), "1998-03-09");
}

#[test]
fn parse_rejects_out_of_range_and_unknown() {
    for bad in ["1998 Q5", "1998 Q0", "1998 M13", "1998 W54", "1998 X1", "1998 Q", "abc", "", "1998 Q1 x", "1998-02-30", "99999999999", "1998 Q-1"] {
        assert!(matches!(Period::parse(bad), Err(HtsError::InvalidPeriod(_))), "{bad}");
    }
}

#[test]
fn parse_accepts_signs_and_space() {
    assert_eq!(Period::parse("  -12  ").unwrap(), Period::Annual(-12));
    assert_eq!(Period::parse("+7").unwrap(), Period::Annual(7));
    assert_eq!(Period::parse("2024\tw53").unwrap(), Period::Weekly(2024, 53));
    assert_eq!(Period::parse("2024   M+3").unwrap(), Period::Monthly(2024, 3));
    assert_eq!(Period::parse("2147483647").unwrap(), Period::Annual(i32::MAX));
    assert!(Period::parse("2147483648").is_err());
    assert_eq!(Period::parse("-2147483648").unwrap(), Period::Annual(i32::MIN));
}

#[test]
fn start_dates() {
    assert_eq!(Period::Quarterly(1998, 3).to_naive_date(), Date::from_ymd_opt(1998, 7, 1).unwrap());
    assert_eq!(Period::Annual(2000).to_naive_date(), Date::from_ymd_opt(2000, 1, 1).unwrap());
    assert_eq!(Period::Monthly(2000, 2).to_naive_date(), Date::from_ymd_opt(2000, 2, 1).unwrap());
    assert_eq!(Period::Weekly(2015, 1).to_naive_date(), Date::from_ymd_opt(2014, 12, 29).unwrap());
    assert_eq!(Period::Weekly(2014, 53).to_naive_date(), Date::from_ymd_opt(2014, 1, 1).unwrap());
}

#[test]
fn calendar_dates() {
    assert!(Date::from_ymd_opt(2000, 2, 29).is_some());
    assert!(Date::from_ymd_opt(1900, 2, 29).is_none());
    assert!(Date::from_ymd_opt(2015, 4, 31).is_none());
    assert!(Date::from_ymd_opt(2015, 0, 1).is_none());
}

#[test]
fn from_str_forwards_to_parse() {
    let p: Period = "2024 m3".parse().unwrap();
    assert_eq!(p, Period::Monthly(2024, 3));
    assert!("2024 m13".parse::<Period>().is_err());
}

#[test]
fn text_without_a_date_reads_by_words() {
    assert_eq!(Period::from_text("1998 Q2", None).unwrap(), Period::Quarterly(1998, 2));
    assert_eq!(
        Period::from_text("anything", Some((2001, 2, 3))).unwrap(),
        Period::Daily(Date::from_ymd_opt(2001, 2, 3).unwrap())
    );
    assert!(Period::from_text("1998-01-01", None).is_err());
}

#[test]
fn out_of_range_numbers_still_display() {
    assert_eq!(Period::Quarterly(1998, 9).to_string(), "1998 Q9");
    assert_eq!(Period::Weekly(1998, 0).to_string(), "1998 W00");
}

#[test]
fn date_years_are_padded_and_signed() {
    assert_eq!(Period::Daily(Date::from_ymd_opt(5, 1, 2).unwrap()).to_string(), "0005-01-02");
    assert_eq!(Period::Daily(Date::from_ymd_opt(-5, 12, 31).unwrap()).to_string(), "-0005-12-31");
    assert_eq!(Period::Daily(Date::from_ymd_opt(12345, 6, 7).unwrap()).to_string(), "+12345-06-07");
}
