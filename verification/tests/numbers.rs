use notesynth::fixed::parse_fixed;

#[test]
fn integers_parse_to_thousandths() {
    assert_eq!(parse_fixed("0"), Some(0));
    assert_eq!(parse_fixed("1"), Some(1_000));
    assert_eq!(parse_fixed("120"), Some(120_000));
    assert_eq!(parse_fixed("-3"), Some(-3_000));
    assert_eq!(parse_fixed("+7"), Some(7_000));
}

#[test]
fn decimals_keep_three_places() {
    assert_eq!(parse_fixed("1.5"), Some(1_500));
    assert_eq!(parse_fixed("0.125"), Some(125));
    assert_eq!(parse_fixed("2.0006"), Some(2_000));
    assert_eq!(parse_fixed(".5"), Some(500));
    assert_eq!(parse_fixed("12."), Some(12_000));
}

#[test]
fn malformed_numbers_fail() {
    assert_eq!(parse_fixed(""), None);
    assert_eq!(parse_fixed("."), None);
    assert_eq!(parse_fixed("-"), None);
    assert_eq!(parse_fixed("1.2.3"), None);
    assert_eq!(parse_fixed("1x"), None);
    assert_eq!(parse_fixed("99999999999999999999999"), None);
}
