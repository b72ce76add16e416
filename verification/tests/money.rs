use lumen::money::{format_money, parse_amount_to_cents};

#[test]
fn parse_then_format_reproduces_value() {
    assert_eq!(parse_amount_to_cents("12.5"), Some(1250));
    assert_eq!(format_money(1250), "12.50");
    assert_eq!(parse_amount_to_cents("12.50"), Some(1250));
    assert_eq!(parse_amount_to_cents("0.07"), Some(7));
    assert_eq!(format_money(7), "0.07");
    assert_eq!(parse_amount_to_cents("100"), Some(10000));
    assert_eq!(format_money(10000), "100.00");
}

#[test]
fn round_trip_samples() {
    for v in [0i64, 1, 99, 100, 101, 12345, 99999999, i64::MAX] {
        let shown = format_money(v);
        assert_eq!(parse_amount_to_cents(&shown), Some(v), "value {v} shown as {shown}");
    }
}

#[test]
fn rejects_malformed_input() {
    assert_eq!(parse_amount_to_cents(""), None);
    assert_eq!(parse_amount_to_cents("-5"), None);
    assert_eq!(parse_amount_to_cents("1.2.3"), None);
    assert_eq!(parse_amount_to_cents("1.234"), None);
    assert_eq!(parse_amount_to_cents("abc"), None);
}

#[test]
fn rejects_signs_and_stray_characters() {
    assert_eq!(parse_amount_to_cents("   "), None);
    assert_eq!(parse_amount_to_cents(" -5 "), None);
    assert_eq!(parse_amount_to_cents("+5"), None);
    assert_eq!(parse_amount_to_cents("5x"), None);
    assert_eq!(parse_amount_to_cents("1.-1"), None);
    assert_eq!(parse_amount_to_cents(".5"), None);
}

#[test]
fn comma_is_a_separator_too() {
    assert_eq!(parse_amount_to_cents("3,7"), Some(370));
    assert_eq!(parse_amount_to_cents("3,70"), Some(370));
    assert_eq!(parse_amount_to_cents("1,2,3"), None);
}

#[test]
fn trims_and_pads() {
    assert_eq!(parse_amount_to_cents(" 5 "), Some(500));
    assert_eq!(parse_amount_to_cents("5."), Some(500));
    assert_eq!(parse_amount_to_cents("5.9"), Some(590));
    assert_eq!(parse_amount_to_cents("\u{00a0}8\u{00a0}"), Some(800));
}

#[test]
fn rejects_values_beyond_the_machine_range() {
    assert_eq!(parse_amount_to_cents("92233720368547758.07"), Some(i64::MAX));
    assert_eq!(parse_amount_to_cents("92233720368547758.08"), None);
    assert_eq!(parse_amount_to_cents("99999999999999999999999999"), None);
}

#[test]
fn formats_signs_and_padding() {
    assert_eq!(format_money(-150), "-1.50");
    assert_eq!(format_money(0), "0.00");
    assert_eq!(format_money(-1), "-0.01");
    assert_eq!(format_money(205), "2.05");
    assert_eq!(format_money(i64::MIN), "-92233720368547758.08");
}
