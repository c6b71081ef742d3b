//! The layout of the composed PDF: railway tickets eight to a page (four rows
//! of two), every other invoice two to a page.

use vstd::prelude::*;
use crate::invoice::{Invoice, Kind};

verus! {

/// Rows of railway tickets on a page.
pub const TRAIN_ROWS: usize = 4;

/// Columns of railway tickets on a page.
pub const TRAIN_COLS: usize = 2;

/// Railway tickets on a page.
pub const TRAIN_PER_PAGE: usize = TRAIN_ROWS * TRAIN_COLS;

/// The cell of a railway ticket: its page among the ticket pages, and its row
/// (0 = top) and column (0 = left) on that page.
#[derive(Debug, Clone, Copy, PartialEq, Eq, Structural)]
pub struct Slot {
    pub page: usize,
    pub row: usize,
    pub col: usize,
}

/// The cell of the `i`-th railway ticket: the tickets fill the pages in
/// order, each page row by row from the top, left to right.
pub open spec fn slot_of(i: usize) -> Slot {
    Slot { page: i / TRAIN_PER_PAGE, row: (i % TRAIN_PER_PAGE) / TRAIN_COLS, col: i % TRAIN_COLS }
}

/// The cell of the `i`-th railway ticket on the ticket pages.
pub fn train_slot(i: usize) -> (s: Slot)
    ensures
        s == slot_of(i),
{
    Slot { page: i / TRAIN_PER_PAGE, row: (i % TRAIN_PER_PAGE) / TRAIN_COLS, col: i % TRAIN_COLS }
}

/// The positions among the first `k` kinds of those that are (when `train`)
/// or are not (otherwise) railway tickets, in order.
pub open spec fn positions_of(kinds: Seq<Kind>, train: bool, k: nat) -> Seq<usize>
    decreases k,
{
    if k == 0 {
        seq![]
    } else {
        let rest = positions_of(kinds, train, (k - 1) as nat);
        if (kinds[k - 1] == Kind::Train) == train {
            rest.push((k - 1) as usize)
        } else {
            rest
        }
    }
}

pub open spec fn kinds_of(invoices: Seq<Invoice>) -> Seq<Kind> {
    invoices.map_values(|inv: Invoice| inv.kind)
}

pub open spec fn strictly_increasing(s: Seq<usize>) -> bool {
    forall|a: int, b: int| 0 <= a < b < s.len() ==> s[a] < s[b]
}

/// The positions of the railway tickets, and those of the other invoices,
/// each in their order in `invoices`.
pub fn split_by_kind(invoices: &[Invoice]) -> (r: (Vec<usize>, Vec<usize>))
    ensures
        r.0@ == positions_of(kinds_of(invoices@), true, invoices@.len()),
        r.1@ == positions_of(kinds_of(invoices@), false, invoices@.len()),
        strictly_increasing(r.0@),
        strictly_increasing(r.1@),
        forall|j: int| 0 <= j < r.0@.len() ==> r.0@[j] < invoices@.len() && #[trigger] invoices@[r.0@[j] as int].kind == Kind::Train,
        forall|j: int| 0 <= j < r.1@.len() ==> r.1@[j] < invoices@.len() && #[trigger] invoices@[r.1@[j] as int].kind != Kind::Train,
        r.0@.len() + r.1@.len() == invoices@.len(),
{
    let ghost kinds = kinds_of(invoices@);
    let mut trains: Vec<usize> = Vec::new();
    let mut regulars: Vec<usize> = Vec::new();
    let mut i: usize = 0;
    while i < invoices.len()
        invariant
            kinds == kinds_of(invoices@),
            i <= invoices@.len(),
            trains@ == positions_of(kinds, true, i as nat),
            regulars@ == positions_of(kinds, false, i as nat),
            strictly_increasing(trains@),
            strictly_increasing(regulars@),
            forall|j: int| 0 <= j < trains@.len() ==> #[trigger] trains@[j] < i,
            forall|j: int| 0 <= j < regulars@.len() ==> #[trigger] regulars@[j] < i,
            forall|j: int| 0 <= j < trains@.len() ==> #[trigger] invoices@[trains@[j] as int].kind == Kind::Train,
            forall|j: int| 0 <= j < regulars@.len() ==> #[trigger] invoices@[regulars@[j] as int].kind != Kind::Train,
            trains@.len() + regulars@.len() == i,
        decreases invoices@.len() - i,
    {
        assert(kinds[i as int] == invoices@[i as int].kind);
        let ghost old_t = trains@;
        let ghost old_r = regulars@;
        if invoices[i].kind.is_train() {
            trains.push(i);
            assert forall|a: int, b: int| 0 <= a < b < trains@.len() implies trains@[a]
                < trains@[b] by {
                assert(trains@[a] == old_t[a]);
                if b < old_t.len() {
                    assert(trains@[b] == old_t[b]);
                }
            }
        } else {
            regulars.push(i);
            assert forall|a: int, b: int| 0 <= a < b < regulars@.len() implies regulars@[a]
                < regulars@[b] by {
                assert(regulars@[a] == old_r[a]);
                if b < old_r.len() {
                    assert(regulars@[b] == old_r[b]);
                }
            }
        }
        i = i + 1;
    }
    (trains, regulars)
}

/// Law: every ticket gets a cell of the four-by-two grid, and no two tickets share one.
pub proof fn law_slots_distinct(i: usize, j: usize)
    ensures
        slot_of(i).row < TRAIN_ROWS,
        slot_of(i).col < TRAIN_COLS,
        slot_of(i).page * TRAIN_PER_PAGE + slot_of(i).row * TRAIN_COLS + slot_of(i).col == i,
        i != j ==> slot_of(i) != slot_of(j),
{
    assert(i / 8 * 8 + (i % 8) / 2 * 2 + i % 2 == i) by (nonlinear_arith);
    assert(j / 8 * 8 + (j % 8) / 2 * 2 + j % 2 == j) by (nonlinear_arith);
    assert((i % 8) / 2 < 4) by (nonlinear_arith);
}

proof fn lemma_positions_of(kinds: Seq<Kind>, train: bool, k: nat)
    requires
        k <= kinds.len(),
        kinds.len() <= usize::MAX,
    ensures
        forall|i: int|
            0 <= i < k && ((kinds[i] == Kind::Train) == train) ==> #[trigger] positions_of(
                kinds,
                train,
                k,
            ).contains(i as usize),
        forall|j: int|
            0 <= j < positions_of(kinds, train, k).len() ==> #[trigger] positions_of(
                kinds,
                train,
                k,
            )[j] < k,
    decreases k,
{
    if k > 0 {
        lemma_positions_of(kinds, train, (k - 1) as nat);
        let rest = positions_of(kinds, train, (k - 1) as nat);
        let all = positions_of(kinds, train, k);
        assert forall|i: int|
            0 <= i < k && ((kinds[i] == Kind::Train) == train) implies #[trigger] all.contains(
            i as usize,
        ) by {
            if i < k - 1 {
                assert(rest.contains(i as usize));
                let j = choose|j: int| 0 <= j < rest.len() && rest[j] == i as usize;
                assert(all[j] == rest[j]);
            } else {
                assert(all[all.len() - 1] == (k - 1) as usize);
            }
        }
        assert forall|j: int| 0 <= j < all.len() implies #[trigger] all[j] < k by {
            if j < rest.len() {
                assert(all[j] == rest[j]);
            }
        }
    }
}

/// Law: every invoice is laid out exactly once: each position is in the list
/// of its kind, and in no other.
pub proof fn law_split_covers(kinds: Seq<Kind>)
    requires
        kinds.len() <= usize::MAX,
    ensures
        forall|i: int|
            0 <= i < kinds.len() && kinds[i] == Kind::Train ==> #[trigger] positions_of(
                kinds,
                true,
                kinds.len(),
            ).contains(i as usize) && !positions_of(kinds, false, kinds.len()).contains(i as usize),
        forall|i: int|
            0 <= i < kinds.len() && kinds[i] != Kind::Train ==> #[trigger] positions_of(
                kinds,
                false,
                kinds.len(),
            ).contains(i as usize) && !positions_of(kinds, true, kinds.len()).contains(i as usize),
{
    lemma_positions_of(kinds, true, kinds.len());
    lemma_positions_of(kinds, false, kinds.len());
    lemma_positions_kind(kinds, true, kinds.len());
    lemma_positions_kind(kinds, false, kinds.len());
}

proof fn lemma_positions_kind(kinds: Seq<Kind>, train: bool, k: nat)
    requires
        k <= kinds.len(),
        kinds.len() <= usize::MAX,
    ensures
        forall|j: int|
            0 <= j < positions_of(kinds, train, k).len() ==> ((kinds[#[trigger] positions_of(
                kinds,
                train,
                k,
            )[j] as int] == Kind::Train) == train),
    decreases k,
{
    if k > 0 {
        lemma_positions_kind(kinds, train, (k - 1) as nat);
        let rest = positions_of(kinds, train, (k - 1) as nat);
        let all = positions_of(kinds, train, k);
        assert forall|j: int| 0 <= j < all.len() implies ((kinds[#[trigger] all[j] as int]
            == Kind::Train) == train) by {
            if j < rest.len() {
                assert(all[j] == rest[j]);
            }
        }
    }
}

} // verus!
