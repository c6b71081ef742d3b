use invoice_printer::invoice::{Kind, Stats};
use invoice_printer::report::{report_header, report_rows, summary_line};

fn sample() -> Stats {
    let mut s = Stats::default();
    for _ in 0..16 {
        s.add(Kind::Train, 631_000_000);
    }
    s.add(Kind::Taxi, 129_500_000);
    s.add(Kind::Taxi, 189_000_000);
    s.add(Kind::Taxi, 70_000_000);
    s.add(Kind::Hotel, 189_000_000);
    s.add(Kind::Hotel, 189_000_000);
    s.add(Kind::Hotel, 189_000_000);
    s
}

#[test]
fn table_text() {
    assert_eq!(report_header(), vec!["类别", "张数", "金额(小写)", "金额(大写)"]);
    let rows = report_rows(&sample());
    assert_eq!(rows[0], vec!["火车票", "16", "¥10,096.00", "壹万零玖拾陆圆整"]);
    assert_eq!(rows[1], vec!["打车费", "3", "¥388.50", "叁佰捌拾捌圆伍角整"]);
    assert_eq!(rows[2], vec!["住宿费", "3", "¥567.00", "伍佰陆拾柒圆整"]);
    assert_eq!(rows[3], vec!["其它", "0", "¥0.00", "零圆整"]);
    assert_eq!(rows[4], vec!["合计", "22", "¥11,051.50", "壹万壹仟零伍拾壹圆伍角整"]);
}

#[test]
fn summary_text() {
    assert_eq!(
        summary_line(&sample()),
        "总计：22 张，金额 ¥11,051.50 （壹万壹仟零伍拾壹圆伍角整）"
    );
    assert_eq!(summary_line(&Stats::default()), "总计：0 张，金额 ¥0.00 （零圆整）");
}

/// Totals are summed in millionths and rounded to the cent only when written.
#[test]
fn totals_rounded_when_written() {
    let mut s = Stats::default();
    s.add(Kind::Taxi, 4_000);
    s.add(Kind::Taxi, 4_000);
    let rows = report_rows(&s);
    assert_eq!(rows[1], vec!["打车费", "2", "¥0.01", "零圆零壹分"]);
    assert_eq!(rows[4], vec!["合计", "2", "¥0.01", "零圆零壹分"]);
    assert_eq!(summary_line(&s), "总计：2 张，金额 ¥0.01 （零圆零壹分）");
}
