use invoice_printer::extractor::{amount_in_text, classify, extract, has_enough_text, parse_amount};
use invoice_printer::text::is_unicode_whitespace;
use invoice_printer::invoice::Kind;
use std::path::PathBuf;

/// An amount in yuan, in millionths of a yuan.
fn units(yuan: f64) -> i64 {
    (yuan * 1_000_000.0).round() as i64
}

#[test]
fn classify_samples() {
    assert_eq!(classify("电子发票（铁路电子客票）票价"), Kind::Train);
    assert_eq!(classify("电子发票（普通发票）客运服务费 滴滴"), Kind::Taxi);
    assert_eq!(classify("电子发票 住宿服务 长沙酒店"), Kind::Hotel);
    assert_eq!(classify("随便一张发票"), Kind::Other);
}

#[test]
fn parse_train_amount() {
    assert_eq!(parse_amount(Kind::Train, "票价:￥642.00"), Some(units(642.0)));
    assert_eq!(parse_amount(Kind::Train, "票价：￥620.00 元"), Some(units(620.0)));
}

#[test]
fn parse_jiaoshui_with_wrapped_number() {
    let t = "价税合计（大写）壹佰圆整（小写）¥189.\n00";
    assert_eq!(parse_amount(Kind::Hotel, t), Some(units(189.0)));
}

#[test]
fn parse_taxi_amount() {
    let t = "（ 小 写 ） ¥129.50";
    assert_eq!(parse_amount(Kind::Taxi, t), Some(units(129.5)));
}

#[test]
fn classification_priority_and_wrapping() {
    assert_eq!(classify("铁路电子客票 住宿 滴滴"), Kind::Train);
    assert_eq!(classify("住宿 客运服务费"), Kind::Hotel);
    assert_eq!(classify("客运服\n务费"), Kind::Taxi);
    assert_eq!(classify("交通运输服务"), Kind::Taxi);
    assert_eq!(classify("滴滴出行"), Kind::Taxi);
    assert_eq!(classify("客运服务"), Kind::Other);
    assert_eq!(classify("旅客运输"), Kind::Other);
    assert_eq!(classify("旅客运输服务"), Kind::Other);
    assert_eq!(classify("铁 路\t电子\r\n客票"), Kind::Train);
    assert_eq!(classify("酒\u{3000}店"), Kind::Hotel);
    assert_eq!(classify(""), Kind::Other);
}

#[test]
fn train_price_forms() {
    assert_eq!(parse_amount(Kind::Train, "票价：¥ 53"), Some(53_000_000));
    assert_eq!(parse_amount(Kind::Train, "票价：￥53.5"), Some(53_500_000));
    assert_eq!(parse_amount(Kind::Train, "票价：￥53.125"), Some(53_125_000));
    assert_eq!(parse_amount(Kind::Train, "票价：￥53.124"), Some(53_124_000));
    assert_eq!(parse_amount(Kind::Train, "票价：￥53.1234565"), Some(53_123_457));
    assert_eq!(parse_amount(Kind::Train, "票价：￥53.1234564"), Some(53_123_456));
    assert_eq!(parse_amount(Kind::Train, "票价：￥0.004"), Some(4_000));
    assert_eq!(parse_amount(Kind::Train, "票价￥53.00"), None);
    assert_eq!(parse_amount(Kind::Train, "合计 ￥53.00"), None);
    assert_eq!(parse_amount(Kind::Train, "票价：￥10.00 票价：￥20.00"), Some(10_000_000));
    assert_eq!(parse_amount(Kind::Train, "票价：￥12."), Some(12_000_000));
}

#[test]
fn largest_amount_wins() {
    let t = "金额 ￥100.00 税额 ￥6.00 价税合计 ￥106.00";
    assert_eq!(parse_amount(Kind::Other, t), Some(106_000_000));
    assert_eq!(parse_amount(Kind::Taxi, "¥12 ¥3"), None);
    assert_eq!(parse_amount(Kind::Taxi, "没有金额"), None);
    assert_eq!(parse_amount(Kind::Hotel, "¥1.5 ¥.5 ¥0.25"), Some(1_500_000));
    assert_eq!(parse_amount(Kind::Hotel, "¥0.0041 ¥0.004"), Some(4_100));
}

#[test]
fn unicode_digits_do_not_parse() {
    // `\d` matches the fullwidth digit, and the number does not parse as a float.
    assert_eq!(parse_amount(Kind::Train, "票价：￥６42.00 票价：￥1.00"), None);
    assert_eq!(parse_amount(Kind::Hotel, "¥٣.00 ¥2.00"), Some(2_000_000));
    assert_eq!(parse_amount(Kind::Hotel, "¥1٣.00"), None);
}

#[test]
fn huge_amounts_are_dropped() {
    assert_eq!(parse_amount(Kind::Hotel, "¥999999999999999999999.00 ¥1.00"), Some(1_000_000));
    assert_eq!(parse_amount(Kind::Train, "票价：￥9223372036854.775807"), Some(i64::MAX));
    assert_eq!(parse_amount(Kind::Train, "票价：￥9223372036854.7758065"), Some(i64::MAX));
    assert_eq!(parse_amount(Kind::Train, "票价：￥9223372036854.7758075"), None);
    assert_eq!(parse_amount(Kind::Train, "票价：￥9223372036854.775808"), None);
}

#[test]
fn extract_fills_the_invoice() {
    let inv = extract(PathBuf::from("a/b.pdf"), "电子发票（铁路电子客票）票价：￥642.00");
    assert_eq!(inv.path, PathBuf::from("a/b.pdf"));
    assert_eq!(inv.kind, Kind::Train);
    assert_eq!(inv.amount, 642_000_000);
    assert!(inv.amount_known);
    let inv = extract(PathBuf::from("x.pdf"), "住宿 无金额");
    assert_eq!(inv.kind, Kind::Hotel);
    assert_eq!(inv.amount, 0);
    assert!(!inv.amount_known);
}

#[test]
fn enough_text() {
    assert!(!has_enough_text("  12345678  "));
    assert!(has_enough_text("  123456789  "));
    assert!(!has_enough_text("\n\t "));
    assert!(has_enough_text("发票 号码 12345"));
}

#[test]
fn whitespace_matches_std() {
    for u in 0u32..=0x10FFFF {
        if let Some(c) = char::from_u32(u) {
            assert_eq!(is_unicode_whitespace(c), c.is_whitespace(), "{u:#x}");
        }
    }
}

/// The amounts agree with the patterns as the `regex` crate runs them.
#[test]
fn amounts_match_regex() {
    let train = regex::Regex::new(r"票价[：:]\s*[￥¥]\s*(\d+(?:\.\d+)?)").unwrap();
    let any = regex::Regex::new(r"[￥¥]\s*(\d+\.\d+)").unwrap();
    let texts = [
        "票价:￥642.00",
        "票价：￥620.00 元 票价：￥1.00",
        "价税合计（大写）壹佰圆整（小写）¥189.\n00",
        "（ 小 写 ） ¥129.50 ¥3.2 ¥44.444",
        "¥1.5 ¥.5 ¥0.25 ￥12 ￥１.00",
        "票价：￥６42.00",
        "票价：￥12.5.6 ¥7.7.7",
    ];
    for t in texts {
        let compact: String = t.chars().filter(|c| !c.is_whitespace()).collect();
        let expect_train = train
            .captures(&compact)
            .and_then(|c| c.get(1)?.as_str().parse::<f64>().ok())
            .map(units);
        assert_eq!(parse_amount(Kind::Train, t), expect_train, "{t}");
        let expect_any = any
            .captures_iter(&compact)
            .filter_map(|c| c.get(1)?.as_str().parse::<f64>().ok())
            .fold(None::<f64>, |acc, v| Some(acc.map_or(v, |m| m.max(v))))
            .map(units);
        assert_eq!(parse_amount(Kind::Other, t), expect_any, "{t}");
    }
}

/// The amount computed from given digit classes, without the regex crate.
#[test]
fn amounts_from_given_digit_classes() {
    let t: Vec<char> = "票价：￥642.00".chars().collect();
    let ascii: Vec<bool> = t.iter().map(|c| c.is_ascii_digit()).collect();
    assert_eq!(amount_in_text(Kind::Train, &t, &ascii), Some(642_000_000));
    // a class that does not hold '6' finds no price
    let no_six: Vec<bool> = t.iter().map(|c| c.is_ascii_digit() && *c != '6').collect();
    assert_eq!(amount_in_text(Kind::Train, &t, &no_six), None);
    let t: Vec<char> = "¥1.00¥x.50".chars().collect();
    // a class that holds 'x' reads a number there that does not parse
    let with_x: Vec<bool> = t.iter().map(|c| c.is_ascii_digit() || *c == 'x').collect();
    assert_eq!(amount_in_text(Kind::Hotel, &t, &with_x), Some(1_000_000));
    let t: Vec<char> = "¥1.00¥9.50".chars().collect();
    let flags: Vec<bool> = t.iter().map(|c| c.is_ascii_digit()).collect();
    assert_eq!(amount_in_text(Kind::Taxi, &t, &flags), Some(9_500_000));
}

#[test]
fn whitespace_does_not_change_the_amount() {
    assert_eq!(parse_amount(Kind::Train, "票 价：￥6 4\n2 .00"), Some(642_000_000));
    assert_eq!(
        parse_amount(Kind::Hotel, "¥ 1\u{3000}2.5 0 ¥3.00"),
        parse_amount(Kind::Hotel, "¥12.50¥3.00")
    );
}
