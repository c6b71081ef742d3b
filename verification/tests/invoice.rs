use invoice_printer::invoice::{Category, Invoice, Kind, Stats};
use std::path::PathBuf;

#[test]
fn labels_and_layout() {
    assert_eq!(Kind::Train.label(), "火车票");
    assert_eq!(Kind::Taxi.label(), "打车费");
    assert_eq!(Kind::Hotel.label(), "住宿费");
    assert_eq!(Kind::Other.label(), "其它");
    assert!(Kind::Train.is_train());
    assert!(!Kind::Taxi.is_train());
    assert!(!Kind::Hotel.is_train());
    assert!(!Kind::Other.is_train());
}

#[test]
fn stats_accumulate_by_kind() {
    let mut s = Stats::default();
    assert_eq!(s.grand_count(), 0);
    assert_eq!(s.grand_total(), 0);
    for _ in 0..16 {
        s.add(Kind::Train, 631_000_000);
    }
    s.add(Kind::Taxi, 129_500_000);
    s.add(Kind::Taxi, 189_000_000);
    s.add(Kind::Taxi, 70_000_000);
    s.add(Kind::Hotel, 567_000_000);
    assert_eq!(s.train, Category { count: 16, total: 10_096_000_000 });
    assert_eq!(s.taxi, Category { count: 3, total: 388_500_000 });
    assert_eq!(s.hotel, Category { count: 1, total: 567_000_000 });
    assert_eq!(s.other, Category { count: 0, total: 0 });
    assert_eq!(s.grand_count(), 20);
    assert_eq!(s.grand_total(), 11_051_500_000);
}

#[test]
fn rows_in_table_order() {
    let mut s = Stats::default();
    s.add(Kind::Other, 1);
    s.add(Kind::Hotel, 2);
    s.add(Kind::Taxi, 3);
    s.add(Kind::Train, 4);
    let rows = s.rows();
    let kinds: Vec<Kind> = rows.iter().map(|r| r.0).collect();
    assert_eq!(kinds, vec![Kind::Train, Kind::Taxi, Kind::Hotel, Kind::Other]);
    let totals: Vec<i64> = rows.iter().map(|r| r.1.total).collect();
    assert_eq!(totals, vec![4, 3, 2, 1]);
}

#[test]
fn order_of_adding_does_not_matter() {
    let mut a = Stats::default();
    a.add(Kind::Taxi, 500);
    a.add(Kind::Hotel, 700);
    a.add(Kind::Taxi, -100);
    let mut b = Stats::default();
    b.add(Kind::Taxi, -100);
    b.add(Kind::Taxi, 500);
    b.add(Kind::Hotel, 700);
    assert_eq!(a, b);
    assert_eq!(a.grand_total(), 1100);
    assert_eq!(a.grand_count(), 3);
}

#[test]
fn unparsed_amounts_are_left_out() {
    let mut s = Stats::default();
    s.record(&Invoice { path: PathBuf::from("a.pdf"), kind: Kind::Taxi, amount: 129_500_000, amount_known: true });
    s.record(&Invoice { path: PathBuf::from("b.pdf"), kind: Kind::Taxi, amount: 0, amount_known: false });
    s.record(&Invoice { path: PathBuf::from("c.pdf"), kind: Kind::Hotel, amount: 0, amount_known: false });
    assert_eq!(s.taxi, Category { count: 1, total: 129_500_000 });
    assert_eq!(s.hotel, Category { count: 0, total: 0 });
    assert_eq!(s.grand_count(), 1);
}
