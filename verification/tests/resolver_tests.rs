use currency_rates::resolver::{mock_table, resolve_with_responses, source_url};

#[test]
fn mock_table_eur_exact_rates() {
    let t = mock_table("EUR", 0);
    assert!(t.success);
    assert_eq!(t.rates.get("USD"), Some(1_080_000));
    assert_eq!(t.rates.get("EUR"), Some(1_000_000));
    assert_eq!(t.rates.get("JPY"), Some(160_000_000));
    assert_eq!(t.rates.len(), 10);
}

#[test]
fn mock_table_usd_rebase_law() {
    let t = mock_table("USD", 0);
    // Self-rate is exactly one.
    assert_eq!(t.rates.get("USD"), Some(1_000_000));
    // EUR = 1.0 / 1.08, within fixed-point tolerance.
    let eur = t.rates.get("EUR").unwrap();
    assert_eq!(eur, 925_925);
    let expected = 1.0_f64 / 1.08_f64;
    assert!((eur as f64 / 1e6 - expected).abs() < 1e-4);
}

#[test]
fn mock_table_unknown_base_keeps_rates() {
    // A base outside the built-in table divides by 1.0.
    let t = mock_table("XYZ", 0);
    assert_eq!(t.rates.get("USD"), Some(1_080_000));
    assert_eq!(t.rates.get("EUR"), Some(1_000_000));
}

#[test]
fn resolve_unreachable_network_returns_mock() {
    for base in ["EUR", "USD", "GBP", "XYZ"] {
        let responses: Vec<Option<String>> = vec![None, None, None, None];
        let t = resolve_with_responses(base, "", &responses, 1_000);
        assert!(t.success);
        assert!(t.rates.len() > 0);
        assert_eq!(t.base.as_deref(), Some(base));
        assert_eq!(t.timestamp, Some(1_000));
    }
}

#[test]
fn resolve_malformed_bodies_fall_back_to_mock() {
    let responses: Vec<Option<String>> = vec![
        Some("not json at all".to_string()),
        Some("{\"unexpected\": 1}".to_string()),
        Some("[1, 2, 3]".to_string()),
        None,
    ];
    let t = resolve_with_responses("EUR", "", &responses, 42);
    assert_eq!(t.rates.get("USD"), Some(1_080_000));
    assert_eq!(t.timestamp, Some(42));
}

#[test]
fn source_priority_first_success_wins() {
    let responses: Vec<Option<String>> = vec![
        Some(
            "{\"rates\":{\"USD\":2.0,\"GBP\":3.5},\"time_last_update_unix\":123,\"time_last_update_utc\":\"Tue\"}"
                .to_string(),
        ),
        Some("{\"eur\":{\"usd\":9.9}}".to_string()),
        Some("{\"rates\":{\"USD\":7.7},\"date\":\"2024-01-01\"}".to_string()),
        Some("{\"success\":true,\"rates\":{\"USD\":5.5}}".to_string()),
    ];
    let t = resolve_with_responses("EUR", "some-key", &responses, 7);
    // Source A's data exclusively: no merging, nothing from B, C or D.
    assert_eq!(t.rates.get("USD"), Some(2_000_000));
    assert_eq!(t.rates.get("GBP"), Some(3_500_000));
    assert_eq!(t.rates.len(), 2);
    assert_eq!(t.timestamp, Some(123));
    assert_eq!(t.date.as_deref(), Some("Tue"));
}

#[test]
fn source_b_uppercases_codes() {
    let responses: Vec<Option<String>> = vec![
        None,
        Some("{\"eur\":{\"usd\":1.5,\"gbp\":0.9}}".to_string()),
        Some("{\"rates\":{\"USD\":7.7}}".to_string()),
        None,
    ];
    let t = resolve_with_responses("EUR", "", &responses, 86_400);
    assert_eq!(t.rates.get("USD"), Some(1_500_000));
    assert_eq!(t.rates.get("GBP"), Some(900_000));
    assert_eq!(t.timestamp, Some(86_400));
    assert_eq!(t.date.as_deref(), Some("1970-01-02"));
}

#[test]
fn source_c_consumed_when_earlier_fail() {
    let responses: Vec<Option<String>> = vec![
        None,
        Some("{\"wrong_key\":{}}".to_string()),
        Some("{\"rates\":{\"USD\":7.75},\"date\":\"2024-06-30\"}".to_string()),
        None,
    ];
    let t = resolve_with_responses("EUR", "", &responses, 5);
    assert_eq!(t.rates.get("USD"), Some(7_750_000));
    assert_eq!(t.date.as_deref(), Some("2024-06-30"));
}

#[test]
fn source_d_requires_success_true() {
    let responses: Vec<Option<String>> = vec![
        None,
        None,
        None,
        Some("{\"success\":false,\"rates\":{\"USD\":5.5}}".to_string()),
    ];
    let t = resolve_with_responses("EUR", "key", &responses, 9);
    // The envelope is rejected, so the mock table answers.
    assert_eq!(t.rates.get("USD"), Some(1_080_000));
}

#[test]
fn source_d_skipped_without_key() {
    let responses: Vec<Option<String>> = vec![
        None,
        None,
        None,
        Some("{\"success\":true,\"rates\":{\"USD\":5.5}}".to_string()),
    ];
    let t = resolve_with_responses("EUR", "", &responses, 9);
    assert_eq!(t.rates.get("USD"), Some(1_080_000));
}

#[test]
fn source_d_accepted_with_key() {
    let responses: Vec<Option<String>> = vec![
        None,
        None,
        None,
        Some("{\"success\":true,\"rates\":{\"USD\":5.5},\"base\":\"EUR\",\"timestamp\":77}".to_string()),
    ];
    let t = resolve_with_responses("EUR", "key", &responses, 9);
    assert_eq!(t.rates.get("USD"), Some(5_500_000));
    assert_eq!(t.base.as_deref(), Some("EUR"));
    assert_eq!(t.timestamp, Some(77));
}

#[test]
fn source_a_without_upstream_time_uses_clock() {
    let responses: Vec<Option<String>> = vec![
        Some("{\"rates\":{\"USD\":1.0}}".to_string()),
        None,
        None,
        None,
    ];
    let t = resolve_with_responses("EUR", "", &responses, 5);
    assert_eq!(t.rates.get("USD"), Some(1_000_000));
    // No upstream update time: the retrieval time is the clock reading.
    assert_eq!(t.timestamp, Some(5));
    assert_eq!(t.date, None);
}

#[test]
fn source_d_without_timestamp_uses_clock() {
    let responses: Vec<Option<String>> = vec![
        None,
        None,
        None,
        Some("{\"success\":true,\"rates\":{\"USD\":5.5}}".to_string()),
    ];
    let t = resolve_with_responses("EUR", "key", &responses, 9);
    assert_eq!(t.rates.get("USD"), Some(5_500_000));
    assert_eq!(t.timestamp, Some(9));
}

#[test]
fn source_d_rejects_non_numeric_rates() {
    let responses: Vec<Option<String>> = vec![
        None,
        None,
        None,
        Some("{\"success\":true,\"rates\":{\"USD\":\"not a number\"}}".to_string()),
    ];
    let t = resolve_with_responses("EUR", "key", &responses, 9);
    // The envelope is rejected, so the mock table answers.
    assert_eq!(t.rates.get("USD"), Some(1_080_000));
}

#[test]
fn tiny_and_huge_rates() {
    // A sub-micro rate survives in exponent notation; a rate beyond the
    // fixed-point range is dropped.
    let responses: Vec<Option<String>> = vec![
        Some("{\"rates\":{\"AAA\":2e-6,\"BBB\":1e30,\"USD\":1.08}}".to_string()),
        None,
        None,
        None,
    ];
    let t = resolve_with_responses("EUR", "", &responses, 9);
    assert_eq!(t.rates.get("AAA"), Some(2));
    assert_eq!(t.rates.get("BBB"), None);
    assert_eq!(t.rates.get("USD"), Some(1_080_000));
}

#[test]
fn empty_rates_object_is_a_success() {
    let responses: Vec<Option<String>> = vec![
        Some("{\"rates\":{}}".to_string()),
        None,
        None,
        None,
    ];
    let t = resolve_with_responses("EUR", "", &responses, 9);
    assert!(t.success);
    assert_eq!(t.rates.len(), 0);
}

#[test]
fn source_urls() {
    assert_eq!(
        source_url(0, "EUR", "").as_deref(),
        Some("https://open.er-api.com/v6/latest/EUR")
    );
    assert_eq!(
        source_url(1, "EUR", "").as_deref(),
        Some("https://cdn.jsdelivr.net/gh/fawazahmed0/currency-api@1/latest/currencies/eur.json")
    );
    assert_eq!(
        source_url(2, "USD", "").as_deref(),
        Some("https://api.frankfurter.app/latest?from=USD")
    );
    assert_eq!(source_url(3, "EUR", ""), None);
    assert_eq!(
        source_url(3, "EUR", "abc").as_deref(),
        Some("https://api.exchangerate.host/latest?base=EUR&access_key=abc")
    );
    assert_eq!(source_url(4, "EUR", "abc"), None);
}
