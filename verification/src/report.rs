//! The text of the statistics table and of the closing summary line.

use vstd::prelude::*;
use crate::chinese_yuan::{chinese_yuan, to_chinese_yuan};
use crate::invoice::{kind_label, Category, Kind, Stats};
use crate::utils::{amount_text, decimal_string, decimal_text, fmt_amount, round_to_cents};

verus! {

/// The cells of a table row: label, count, amount in figures and amount in
/// capital numerals (the amount `total` in millionths of a yuan).
pub open spec fn row_text(label: Seq<char>, count: nat, total: int) -> Seq<Seq<char>> {
    seq![
        label,
        decimal_text(count),
        seq!['¥'] + amount_text(total),
        chinese_yuan(round_to_cents(total)),
    ]
}

pub open spec fn views(row: Seq<String>) -> Seq<Seq<char>> {
    row.map_values(|s: String| s@)
}

/// The header of the statistics table.
pub fn report_header() -> (r: Vec<String>)
    ensures
        views(r@) == seq![
            seq!['类', '别'],
            seq!['张', '数'],
            seq!['金', '额', '(', '小', '写', ')'],
            seq!['金', '额', '(', '大', '写', ')'],
        ],
{
    proof {
        reveal_strlit("类别");
        reveal_strlit("张数");
        reveal_strlit("金额(小写)");
        reveal_strlit("金额(大写)");
    }
    let mut r: Vec<String> = Vec::new();
    r.push(String::from_str("类别"));
    r.push(String::from_str("张数"));
    r.push(String::from_str("金额(小写)"));
    r.push(String::from_str("金额(大写)"));
    assert(views(r@) =~~= seq![
        seq!['类', '别'],
        seq!['张', '数'],
        seq!['金', '额', '(', '小', '写', ')'],
        seq!['金', '额', '(', '大', '写', ')'],
    ]);
    r
}

fn make_row(label: &str, count: usize, total: i64) -> (r: Vec<String>)
    ensures
        views(r@) == row_text(label@, count as nat, total as int),
{
    let mut r: Vec<String> = Vec::new();
    r.push(String::from_str(label));
    r.push(decimal_string(count as u64));
    let mut figures = String::new();
    proof {
        reveal_strlit("¥");
    }
    figures.append("¥");
    let amount = fmt_amount(total);
    figures.append(amount.as_str());
    r.push(figures);
    r.push(to_chinese_yuan(total));
    assert(views(r@) =~~= row_text(label@, count as nat, total as int));
    r
}

/// The rows of the statistics table: one per kind, in the order train, taxi,
/// hotel, other, then the grand total (合计).
pub fn report_rows(stats: &Stats) -> (r: Vec<Vec<String>>)
    requires
        i64::MIN <= stats.total_of() <= i64::MAX,
        stats.count_of() <= usize::MAX,
    ensures
        r@.len() == 5,
        views(r@[0]@) == row_text(kind_label(Kind::Train), stats.train.count as nat, stats.train.total as int),
        views(r@[1]@) == row_text(kind_label(Kind::Taxi), stats.taxi.count as nat, stats.taxi.total as int),
        views(r@[2]@) == row_text(kind_label(Kind::Hotel), stats.hotel.count as nat, stats.hotel.total as int),
        views(r@[3]@) == row_text(kind_label(Kind::Other), stats.other.count as nat, stats.other.total as int),
        views(r@[4]@) == row_text(seq!['合', '计'], stats.count_of() as nat, stats.total_of()),
{
    let rows = stats.rows();
    let mut r: Vec<Vec<String>> = Vec::new();
    let mut i: usize = 0;
    while i < 4
        invariant
            rows@ == seq![
                (Kind::Train, &stats.train),
                (Kind::Taxi, &stats.taxi),
                (Kind::Hotel, &stats.hotel),
                (Kind::Other, &stats.other),
            ],
            i <= 4,
            r@.len() == i,
            forall|j: int| 0 <= j < i ==> views(#[trigger] r@[j]@) == row_text(
                kind_label(rows@[j].0),
                rows@[j].1.count as nat,
                rows@[j].1.total as int,
            ),
        decreases 4 - i,
    {
        let (kind, cat): (Kind, &Category) = rows[i];
        let row = make_row(kind.label(), cat.count, cat.total);
        r.push(row);
        i = i + 1;
    }
    proof {
        reveal_strlit("合计");
        assert("合计"@ =~= seq!['合', '计']);
    }
    let total = make_row("合计", stats.grand_count(), stats.grand_total());
    r.push(total);
    assert(r@[4] == total);
    r
}

/// The summary line printed after the table (`total` in millionths of a yuan).
pub open spec fn summary_text(count: nat, total: int) -> Seq<char> {
    seq!['总', '计', '：'] + decimal_text(count) + seq![' ', '张', '，', '金', '额', ' ', '¥']
        + amount_text(total) + seq![' ', '（'] + chinese_yuan(round_to_cents(total)) + seq!['）']
}

/// "总计：<count> 张，金额 ¥<amount> （<capital numerals>）" for all invoices.
pub fn summary_line(stats: &Stats) -> (r: String)
    requires
        i64::MIN <= stats.total_of() <= i64::MAX,
        stats.count_of() <= usize::MAX,
    ensures
        r@ == summary_text(stats.count_of() as nat, stats.total_of()),
{
    let count = stats.grand_count();
    let total = stats.grand_total();
    proof {
        reveal_strlit("总计：");
        reveal_strlit(" 张，金额 ¥");
        reveal_strlit(" （");
        reveal_strlit("）");
    }
    let mut out = String::new();
    out.append("总计：");
    let c = decimal_string(count as u64);
    out.append(c.as_str());
    out.append(" 张，金额 ¥");
    let a = fmt_amount(total);
    out.append(a.as_str());
    out.append(" （");
    let y = to_chinese_yuan(total);
    out.append(y.as_str());
    out.append("）");
    assert(out@ =~= summary_text(count as nat, total as int));
    out
}

} // verus!
