use invoice_printer::composer::{split_by_kind, train_slot, Slot};
use invoice_printer::invoice::{Invoice, Kind};
use std::path::PathBuf;

#[test]
fn ticket_cells() {
    assert_eq!(train_slot(0), Slot { page: 0, row: 0, col: 0 });
    assert_eq!(train_slot(1), Slot { page: 0, row: 0, col: 1 });
    assert_eq!(train_slot(2), Slot { page: 0, row: 1, col: 0 });
    assert_eq!(train_slot(7), Slot { page: 0, row: 3, col: 1 });
    assert_eq!(train_slot(8), Slot { page: 1, row: 0, col: 0 });
    assert_eq!(train_slot(15), Slot { page: 1, row: 3, col: 1 });
    let mut seen = std::collections::HashSet::new();
    for i in 0..40 {
        let s = train_slot(i);
        assert!(s.row < 4 && s.col < 2);
        assert!(seen.insert((s.page, s.row, s.col)));
    }
}

fn inv(kind: Kind) -> Invoice {
    Invoice { path: PathBuf::from("x.pdf"), kind, amount: 0, amount_known: true }
}

#[test]
fn split_keeps_order() {
    let invoices = vec![
        inv(Kind::Taxi),
        inv(Kind::Train),
        inv(Kind::Hotel),
        inv(Kind::Train),
        inv(Kind::Other),
    ];
    let (trains, regulars) = split_by_kind(&invoices);
    assert_eq!(trains, vec![1, 3]);
    assert_eq!(regulars, vec![0, 2, 4]);
    let (t, r) = split_by_kind(&[]);
    assert!(t.is_empty() && r.is_empty());
}
