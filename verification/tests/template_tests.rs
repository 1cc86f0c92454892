use currency_rates::convert::{convert_currency, ConversionResult};
use currency_rates::resolver::mock_table;
use currency_rates::templates::{render_index, render_conversion_result, render_error};

#[test]
fn index_is_a_page() {
    let page = render_index();
    assert!(page.starts_with("<!DOCTYPE html>"));
    assert!(page.contains("action=\"/convert\""));
}

#[test]
fn error_fragment() {
    assert_eq!(
        render_error("boom".to_string()),
        "<div class=\"error\"><p>boom</p></div>"
    );
}

#[test]
fn conversion_fragment_from_fields() {
    let r = ConversionResult {
        amount: "100.00".to_string(),
        from: "EUR".to_string(),
        to: "USD".to_string(),
        result: "108.00".to_string(),
        rate: "1.08".to_string(),
        timestamp: "1970-01-01 00:00:00 UTC".to_string(),
    };
    let html = render_conversion_result(r);
    assert_eq!(
        html,
        "<div class=\"result\"><p>100.00 EUR = 108.00 USD</p><p>Rate: 1.08</p><p>As of 1970-01-01 00:00:00 UTC</p></div>"
    );
}

#[test]
fn conversion_fragment_end_to_end() {
    let t = mock_table("EUR", 0);
    let c = convert_currency(&t, 100_000_000, "EUR", "USD", 0).unwrap();
    let html = render_conversion_result(c);
    assert!(html.contains("100.00 EUR = 108.00 USD"));
    assert!(html.contains("Rate: 1.08"));
}
