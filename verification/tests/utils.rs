use invoice_printer::utils::{decimal_string, fmt_amount, to_cents};

/// An amount in yuan, carried in millionths of a yuan.
fn fmt(amount: f64) -> String {
    fmt_amount((amount * 1_000_000.0).round() as i64)
}

#[test]
fn grouping() {
    assert_eq!(fmt(11051.5), "11,051.50");
    assert_eq!(fmt(10096.0), "10,096.00");
    assert_eq!(fmt(388.5), "388.50");
    assert_eq!(fmt(0.0), "0.00");
    assert_eq!(fmt(1000000.0), "1,000,000.00");
}

#[test]
fn negative_and_extremes() {
    assert_eq!(fmt_amount(-1_050_000), "-1.05");
    assert_eq!(fmt_amount(-1_234_567_890_000), "-1,234,567.89");
    assert_eq!(fmt_amount(i64::MAX), "9,223,372,036,854.78");
    assert_eq!(fmt_amount(i64::MIN), "-9,223,372,036,854.78");
    assert_eq!(fmt_amount(70_000), "0.07");
    assert_eq!(fmt_amount(999_990_000), "999.99");
    assert_eq!(fmt_amount(1_000_000_000), "1,000.00");
    // the sign is that of the amount, the digits those of its rounded magnitude
    assert_eq!(fmt_amount(-1), "-0.00");
    assert_eq!(fmt_amount(4_999), "0.00");
    assert_eq!(fmt_amount(5_000), "0.01");
    assert_eq!(fmt_amount(12_345_678), "12.35");
}

#[test]
fn cents_are_rounded_half_away_from_zero() {
    assert_eq!(to_cents(0), 0);
    assert_eq!(to_cents(4_999), 0);
    assert_eq!(to_cents(5_000), 1);
    assert_eq!(to_cents(-4_999), 0);
    assert_eq!(to_cents(-5_000), -1);
    assert_eq!(to_cents(12_345_678), 1235);
    assert_eq!(to_cents(i64::MAX), 922_337_203_685_478);
    assert_eq!(to_cents(i64::MIN), -922_337_203_685_478);
    // two amounts of 0.004 yuan are one fen together, none apiece
    assert_eq!(to_cents(4_000), 0);
    assert_eq!(to_cents(4_000 + 4_000), 1);
}

#[test]
fn commas_only_separate_digits() {
    for c in [0i64, 1, 4_999, 5_000, 990_000, 1_000_000, 999_990_000, 123_456_789_012_345, -987_654_321] {
        let s = fmt_amount(c);
        let cents = (c.unsigned_abs() + 5_000) / 10_000;
        let sign = if c < 0 { "-" } else { "" };
        let plain = format!("{sign}{}.{:02}", cents / 100, cents % 100);
        assert_eq!(s.replace(',', ""), plain);
    }
}

#[test]
fn decimal_text() {
    assert_eq!(decimal_string(0), "0");
    assert_eq!(decimal_string(22), "22");
    assert_eq!(decimal_string(u64::MAX), u64::MAX.to_string());
}
