use currency_rates::convert::{convert_currency, get_currencies, ConvertError};
use currency_rates::resolver::{mock_table, resolve_with_responses};

#[test]
fn convert_100_eur_to_usd_on_mock() {
    let t = mock_table("EUR", 0);
    let c = convert_currency(&t, 100_000_000, "EUR", "USD", 0).unwrap();
    assert_eq!(c.amount, "100.00");
    assert_eq!(c.result, "108.00");
    assert_eq!(c.rate, "1.08");
    assert_eq!(c.from, "EUR");
    assert_eq!(c.to, "USD");
    assert_eq!(c.timestamp, "1970-01-01 00:00:00 UTC");
}

#[test]
fn convert_unknown_target_fails() {
    // Whichever source answered, an absent code is the one failure.
    let t = mock_table("EUR", 0);
    let e = convert_currency(&t, 1_000_000, "EUR", "ZZZ", 0).unwrap_err();
    let ConvertError::CurrencyNotFound(code) = &e;
    assert_eq!(code, "ZZZ");
    assert_eq!(e.message(), "Currency ZZZ not found");

    let responses: Vec<Option<String>> = vec![
        Some("{\"rates\":{\"USD\":2.0}}".to_string()),
        None,
        None,
        None,
    ];
    let live = resolve_with_responses("EUR", "", &responses, 0);
    assert!(convert_currency(&live, 1_000_000, "EUR", "ZZZ", 0).is_err());
}

#[test]
fn convert_renders_timestamp() {
    let t = mock_table("EUR", 1_700_000_000);
    let c = convert_currency(&t, 1_000_000, "EUR", "USD", 1_700_000_000).unwrap();
    assert_eq!(c.timestamp, "2023-11-14 22:13:20 UTC");
}

#[test]
fn convert_rounds_half_away_from_zero() {
    let t = mock_table("EUR", 0);
    // 0.005 EUR at rate 1.0 displays as 0.01.
    let c = convert_currency(&t, 5_000, "EUR", "EUR", 0).unwrap();
    assert_eq!(c.result, "0.01");
    let c = convert_currency(&t, -5_000, "EUR", "EUR", 0).unwrap();
    assert_eq!(c.result, "-0.01");
    let c = convert_currency(&t, 4_999, "EUR", "EUR", 0).unwrap();
    assert_eq!(c.result, "0.00");
}

#[test]
fn list_currencies_sorted() {
    let t = mock_table("EUR", 0);
    let l = get_currencies(&t);
    assert_eq!(
        l,
        vec!["AUD", "CAD", "CHF", "CNY", "EUR", "GBP", "JPY", "PLN", "UAH", "USD"]
    );
}

#[test]
fn list_currencies_idempotent() {
    // Two sequential listings over one resolved table agree.
    let responses: Vec<Option<String>> = vec![
        Some("{\"rates\":{\"GBP\":0.9,\"AUD\":1.6,\"USD\":1.1}}".to_string()),
        None,
        None,
        None,
    ];
    let t = resolve_with_responses("EUR", "", &responses, 0);
    let l1 = get_currencies(&t);
    let l2 = get_currencies(&t);
    assert_eq!(l1, l2);
    assert_eq!(l1, vec!["AUD", "GBP", "USD"]);
}
