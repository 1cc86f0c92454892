use currency_rates::decimal::{parse_decimal, parse_number, format_micro_2dp};
use currency_rates::calendar::{format_date, format_datetime};
use currency_rates::strutil::{lower_ascii, upper_ascii, str_eq, str_lt};
use currency_rates::rates::RateMap;

#[test]
fn parse_plain_numbers() {
    assert_eq!(parse_decimal("1.08"), Some(1_080_000));
    assert_eq!(parse_decimal("160"), Some(160_000_000));
    assert_eq!(parse_decimal("160.0"), Some(160_000_000));
    assert_eq!(parse_decimal("0.85"), Some(850_000));
    assert_eq!(parse_decimal("-0.5"), Some(-500_000));
    assert_eq!(parse_decimal("0"), Some(0));
    assert_eq!(parse_decimal("42.5"), Some(42_500_000));
}

#[test]
fn parse_truncates_beyond_six_places() {
    assert_eq!(parse_decimal("0.1234567"), Some(123_456));
    assert_eq!(parse_decimal("0.000001"), Some(1));
    assert_eq!(parse_decimal("0.0000001"), Some(0));
}

#[test]
fn parse_rejects_malformed() {
    assert_eq!(parse_decimal(""), None);
    assert_eq!(parse_decimal("-"), None);
    assert_eq!(parse_decimal("1."), None);
    assert_eq!(parse_decimal(".5"), None);
    assert_eq!(parse_decimal("1.2.3"), None);
    assert_eq!(parse_decimal("abc"), None);
    assert_eq!(parse_decimal("1e3"), None);
    assert_eq!(parse_decimal("1,5"), None);
    assert_eq!(parse_decimal(" 1"), None);
}

#[test]
fn parse_range_edges() {
    assert_eq!(parse_decimal("9223372036854.775807"), Some(i64::MAX));
    assert_eq!(parse_decimal("-9223372036854.775808"), Some(i64::MIN));
    assert_eq!(parse_decimal("9223372036854.775808"), None);
    assert_eq!(parse_decimal("99999999999999999999"), None);
}

#[test]
fn parse_number_plain_forms() {
    assert_eq!(parse_number("1.08"), Some(1_080_000));
    assert_eq!(parse_number("-0.5"), Some(-500_000));
    assert_eq!(parse_number("160"), Some(160_000_000));
    assert_eq!(parse_number(""), None);
    assert_eq!(parse_number("abc"), None);
}

#[test]
fn parse_number_scientific_forms() {
    assert_eq!(parse_number("1e3"), Some(1_000_000_000));
    assert_eq!(parse_number("1.5e2"), Some(150_000_000));
    assert_eq!(parse_number("-2.5e1"), Some(-25_000_000));
    assert_eq!(parse_number("1E2"), Some(100_000_000));
    assert_eq!(parse_number("1e+2"), Some(100_000_000));
    assert_eq!(parse_number("2e-6"), Some(2));
    assert_eq!(parse_number("1e-30"), Some(0));
    assert_eq!(parse_number("0e30"), Some(0));
    assert_eq!(parse_number("9.2e12"), Some(9_200_000_000_000_000_000));
}

#[test]
fn parse_number_rejects_malformed_or_huge() {
    assert_eq!(parse_number("1e30"), None);
    assert_eq!(parse_number("-1e30"), None);
    assert_eq!(parse_number("e3"), None);
    assert_eq!(parse_number("1e"), None);
    assert_eq!(parse_number("1e-"), None);
    assert_eq!(parse_number("1e--3"), None);
    assert_eq!(parse_number("1e3.5"), None);
    assert_eq!(parse_number("1e3e4"), None);
}

#[test]
fn format_two_places_half_away() {
    assert_eq!(format_micro_2dp(1_080_000), "1.08");
    assert_eq!(format_micro_2dp(0), "0.00");
    assert_eq!(format_micro_2dp(925_925), "0.93");
    assert_eq!(format_micro_2dp(5_000), "0.01");
    assert_eq!(format_micro_2dp(-5_000), "-0.01");
    assert_eq!(format_micro_2dp(4_999), "0.00");
    assert_eq!(format_micro_2dp(-4_999), "0.00");
    assert_eq!(format_micro_2dp(123_456_789), "123.46");
    assert_eq!(format_micro_2dp(108_000_000), "108.00");
}

#[test]
fn date_rendering() {
    assert_eq!(format_date(0), "1970-01-01");
    assert_eq!(format_date(1_700_000_000), "2023-11-14");
    assert_eq!(format_datetime(0), "1970-01-01 00:00:00 UTC");
    assert_eq!(format_datetime(1_700_000_000), "2023-11-14 22:13:20 UTC");
    // Leap day.
    assert_eq!(format_date(951_782_400), "2000-02-29");
}

#[test]
fn ascii_case_mapping() {
    assert_eq!(lower_ascii("EUR"), "eur");
    assert_eq!(upper_ascii("usd"), "USD");
    assert_eq!(lower_ascii("AbC-9"), "abc-9");
    assert_eq!(upper_ascii("aBc-9"), "ABC-9");
}

#[test]
fn string_comparisons() {
    assert!(str_eq("abc", "abc"));
    assert!(!str_eq("abc", "abd"));
    assert!(str_lt("AUD", "CAD"));
    assert!(!str_lt("USD", "AUD"));
    assert!(str_lt("AU", "AUD"));
    assert!(!str_lt("AUD", "AUD"));
}

#[test]
fn rate_map_insert_replaces() {
    let mut m = RateMap::new();
    m.insert("USD".to_string(), 1);
    m.insert("USD".to_string(), 2);
    assert_eq!(m.len(), 1);
    assert_eq!(m.get("USD"), Some(2));
    assert_eq!(m.get("EUR"), None);
}
