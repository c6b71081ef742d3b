use invoice_printer::chinese_yuan::{integer_to_chinese, to_chinese_yuan};

/// An amount in yuan, carried in millionths of a yuan.
fn f(amount: f64) -> String {
    to_chinese_yuan((amount * 1_000_000.0).round() as i64)
}

#[test]
fn train_amounts() {
    assert_eq!(f(642.00), "陆佰肆拾贰圆整");
    assert_eq!(f(620.00), "陆佰贰拾圆整");
    assert_eq!(f(10096.00), "壹万零玖拾陆圆整");
}

#[test]
fn taxi_and_hotel() {
    assert_eq!(f(129.50), "壹佰贰拾玖圆伍角整");
    assert_eq!(f(189.00), "壹佰捌拾玖圆整");
    assert_eq!(f(388.50), "叁佰捌拾捌圆伍角整");
    assert_eq!(f(567.00), "伍佰陆拾柒圆整");
}

#[test]
fn total() {
    assert_eq!(f(11051.50), "壹万壹仟零伍拾壹圆伍角整");
}

#[test]
fn with_fen() {
    assert_eq!(f(1009.05), "壹仟零玖圆零伍分");
    assert_eq!(f(0.05), "零圆零伍分");
    assert_eq!(f(0.50), "零圆伍角整");
}

#[test]
fn large_and_zero() {
    assert_eq!(f(0.0), "零圆整");
    assert_eq!(f(100000000.0), "壹亿圆整");
    assert_eq!(f(100010009.0), "壹亿零壹万零玖圆整");
    assert_eq!(f(11051.5), "壹万壹仟零伍拾壹圆伍角整");
}

#[test]
fn negative_amounts() {
    assert_eq!(to_chinese_yuan(-129_500_000), "负壹佰贰拾玖圆伍角整");
    assert_eq!(to_chinese_yuan(-50_000), "负零圆零伍分");
    assert_eq!(to_chinese_yuan(i64::MIN), format!("负{}圆柒角捌分", integer_to_chinese(9223372036854)));
    assert_eq!(to_chinese_yuan(i64::MAX), format!("{}圆柒角捌分", integer_to_chinese(9223372036854)));
}

#[test]
fn jiao_and_fen() {
    assert_eq!(to_chinese_yuan(12_340_000), "壹拾贰圆叁角肆分");
    assert_eq!(to_chinese_yuan(12_300_000), "壹拾贰圆叁角整");
    assert_eq!(to_chinese_yuan(12_040_000), "壹拾贰圆零肆分");
}

/// Amounts are rounded to the cent, half away from zero, only when written.
#[test]
fn rounded_when_written() {
    assert_eq!(to_chinese_yuan(4_999), "零圆整");
    assert_eq!(to_chinese_yuan(5_000), "零圆零壹分");
    assert_eq!(to_chinese_yuan(-5_000), "负零圆零壹分");
    assert_eq!(to_chinese_yuan(-4_999), "零圆整");
    assert_eq!(to_chinese_yuan(12_345_678), "壹拾贰圆叁角伍分");
    // two amounts of 0.004 yuan make one fen together
    assert_eq!(to_chinese_yuan(4_000), "零圆整");
    assert_eq!(to_chinese_yuan(4_000 + 4_000), "零圆零壹分");
}

#[test]
fn integer_groups() {
    assert_eq!(integer_to_chinese(0), "");
    assert_eq!(integer_to_chinese(7), "柒");
    assert_eq!(integer_to_chinese(10), "壹拾");
    assert_eq!(integer_to_chinese(1001), "壹仟零壹");
    assert_eq!(integer_to_chinese(10000), "壹万");
    assert_eq!(integer_to_chinese(10010), "壹万零壹拾");
    assert_eq!(integer_to_chinese(100000001), "壹亿零壹");
    assert_eq!(integer_to_chinese(1_0000_0000_0000), "壹万亿");
    assert_eq!(integer_to_chinese(1_2345_6789), "壹亿贰仟叁佰肆拾伍万陆仟柒佰捌拾玖");
}

#[test]
fn zeros_are_merged() {
    for n in [1u64, 10, 100, 101, 1001, 10001, 100100, 1000001, 100010009, 200000000002, 9_0000_0000_0009] {
        let s = integer_to_chinese(n);
        assert!(!s.contains("零零"), "{n}: {s}");
        assert!(!s.ends_with('零'), "{n}: {s}");
        assert!(!s.starts_with('零'), "{n}: {s}");
    }
}

#[test]
fn yuan_endings() {
    for c in [0i64, 5, 50, 55, 100, 105, 12345, -7, -70] {
        let s = to_chinese_yuan(c * 10_000);
        if c.unsigned_abs() % 10 == 0 {
            assert!(s.ends_with('整'), "{c}: {s}");
        } else {
            assert!(s.ends_with('分'), "{c}: {s}");
        }
        if c < 0 {
            assert_eq!(s, format!("负{}", to_chinese_yuan(-c * 10_000)));
        }
    }
}

#[test]
fn distinct_numbers_distinct_numerals() {
    let numbers = [
        1u64, 10, 11, 100, 101, 110, 1000, 1001, 1010, 1100, 10000, 10001, 10010, 100000, 100001, 1000000,
        10000000, 100000000, 100000001, 100010000, 1_0000_0000_0000, 1_0000_0001_0000, 1_0001_0000_0000,
        1_0000_0000_0001, 9999_9999_9999_9999, 2, 20, 200, 2000, 20000, 200000000,
    ];
    let numerals: std::collections::HashSet<String> = numbers.iter().map(|&n| integer_to_chinese(n)).collect();
    assert_eq!(numerals.len(), numbers.len());
    assert_eq!(integer_to_chinese(1_0001_0000_0000), "壹万亿零壹亿");
    assert_eq!(integer_to_chinese(1_0000_0001_0000), "壹万亿零壹万");
}
