//! Invoice kinds, parsed invoices and per-category statistics.

use std::path::PathBuf;
use vstd::prelude::*;

verus! {

/// `std::path::PathBuf`, which the library carries from the scan to the
/// layout without reading it.
#[verifier::external_type_specification]
#[verifier::external_body]
pub struct ExPathBuf(PathBuf);

/// Category of an invoice.
#[derive(Debug, Clone, Copy, PartialEq, Eq, Structural, Hash)]
pub enum Kind {
    /// Railway e-ticket.
    Train,
    /// Taxi / ride hailing.
    Taxi,
    /// Lodging.
    Hotel,
    /// Any other ordinary invoice.
    Other,
}

/// The label of a kind in the statistics table.
pub open spec fn kind_label(k: Kind) -> Seq<char> {
    match k {
        Kind::Train => seq!['火', '车', '票'],
        Kind::Taxi => seq!['打', '车', '费'],
        Kind::Hotel => seq!['住', '宿', '费'],
        Kind::Other => seq!['其', '它'],
    }
}

impl Kind {
    /// Chinese label used in the statistics table.
    pub fn label(self) -> (r: &'static str)
        ensures
            r@ == kind_label(self),
    {
        match self {
            Kind::Train => {
                proof {
                    reveal_strlit("火车票");
                }
                "火车票"
            },
            Kind::Taxi => {
                proof {
                    reveal_strlit("打车费");
                }
                "打车费"
            },
            Kind::Hotel => {
                proof {
                    reveal_strlit("住宿费");
                }
                "住宿费"
            },
            Kind::Other => {
                proof {
                    reveal_strlit("其它");
                }
                "其它"
            },
        }
    }

    /// Whether invoices of this kind are laid out four rows by two columns.
    pub fn is_train(self) -> (r: bool)
        ensures
            r <==> self == Kind::Train,
    {
        matches!(self, Kind::Train)
    }
}

/// One parsed invoice.
#[derive(Debug)]
pub struct Invoice {
    /// The PDF it was read from.
    pub path: PathBuf,
    pub kind: Kind,
    /// The amount in millionths of a yuan; 0 when it could not be parsed.
    pub amount: i64,
    /// Whether the amount was parsed; an invoice without one is still laid
    /// out but left out of the statistics.
    pub amount_known: bool,
}

/// The invoices of one kind: how many, and their total in millionths of a yuan.
#[derive(Debug, Clone, Copy, PartialEq, Eq, Structural)]
pub struct Category {
    pub count: usize,
    pub total: i64,
}

impl Default for Category {
    fn default() -> (r: Self)
        ensures
            r.count == 0,
            r.total == 0,
    {
        Category { count: 0, total: 0 }
    }
}

/// Statistics by kind.
#[derive(Debug, Clone, Copy, PartialEq, Eq, Structural)]
pub struct Stats {
    pub train: Category,
    pub taxi: Category,
    pub hotel: Category,
    pub other: Category,
}

impl Default for Stats {
    fn default() -> (r: Self)
        ensures
            r == Stats::empty(),
    {
        Stats {
            train: Category::default(),
            taxi: Category::default(),
            hotel: Category::default(),
            other: Category::default(),
        }
    }
}

impl Stats {
    /// No invoice of any kind.
    pub open spec fn empty() -> Stats {
        Stats {
            train: Category { count: 0, total: 0 },
            taxi: Category { count: 0, total: 0 },
            hotel: Category { count: 0, total: 0 },
            other: Category { count: 0, total: 0 },
        }
    }

    /// The category of invoices of kind `k`.
    pub open spec fn category(self, k: Kind) -> Category {
        match k {
            Kind::Train => self.train,
            Kind::Taxi => self.taxi,
            Kind::Hotel => self.hotel,
            Kind::Other => self.other,
        }
    }

    /// `self` with one more invoice of kind `k` and amount `amount`.
    pub open spec fn added(self, k: Kind, amount: int) -> Stats {
        let c = self.category(k);
        let n = Category { count: (c.count + 1) as usize, total: (c.total + amount) as i64 };
        match k {
            Kind::Train => Stats { train: n, ..self },
            Kind::Taxi => Stats { taxi: n, ..self },
            Kind::Hotel => Stats { hotel: n, ..self },
            Kind::Other => Stats { other: n, ..self },
        }
    }

    /// The total of all categories, in millionths of a yuan.
    pub open spec fn total_of(self) -> int {
        self.train.total + self.taxi.total + self.hotel.total + self.other.total
    }

    /// The number of invoices of all categories.
    pub open spec fn count_of(self) -> int {
        self.train.count + self.taxi.count + self.hotel.count + self.other.count
    }

    /// Counts one more invoice of kind `kind` with amount `amount` (millionths of a yuan).
    pub fn add(&mut self, kind: Kind, amount: i64)
        requires
            old(self).category(kind).count < usize::MAX,
            i64::MIN <= old(self).category(kind).total + amount <= i64::MAX,
        ensures
            *final(self) == old(self).added(kind, amount as int),
            final(self).category(kind).count == old(self).category(kind).count + 1,
            final(self).category(kind).total == old(self).category(kind).total + amount,
            forall|k: Kind| k != kind ==> #[trigger] final(self).category(k) == old(self).category(k),
    {
        match kind {
            Kind::Train => {
                self.train.count = self.train.count + 1;
                self.train.total = self.train.total + amount;
            },
            Kind::Taxi => {
                self.taxi.count = self.taxi.count + 1;
                self.taxi.total = self.taxi.total + amount;
            },
            Kind::Hotel => {
                self.hotel.count = self.hotel.count + 1;
                self.hotel.total = self.hotel.total + amount;
            },
            Kind::Other => {
                self.other.count = self.other.count + 1;
                self.other.total = self.other.total + amount;
            },
        }
    }

    /// Counts `inv` in the statistics when its amount is known; an invoice
    /// whose amount could not be parsed is left out.
    pub fn record(&mut self, inv: &Invoice)
        requires
            inv.amount_known ==> old(self).category(inv.kind).count < usize::MAX,
            inv.amount_known ==> i64::MIN <= old(self).category(inv.kind).total + inv.amount
                <= i64::MAX,
        ensures
            *final(self) == if inv.amount_known {
                old(self).added(inv.kind, inv.amount as int)
            } else {
                *old(self)
            },
    {
        if inv.amount_known {
            self.add(inv.kind, inv.amount);
        }
    }

    /// The total amount of all categories, in millionths of a yuan.
    pub fn grand_total(&self) -> (r: i64)
        requires
            i64::MIN <= self.total_of() <= i64::MAX,
        ensures
            r == self.total_of(),
    {
        let sum: i128 = self.train.total as i128 + self.taxi.total as i128 + self.hotel.total as i128
            + self.other.total as i128;
        sum as i64
    }

    /// The number of invoices of all categories.
    pub fn grand_count(&self) -> (r: usize)
        requires
            self.count_of() <= usize::MAX,
        ensures
            r == self.count_of(),
    {
        self.train.count + self.taxi.count + self.hotel.count + self.other.count
    }

    /// The categories in the order of the statistics table.
    pub fn rows(&self) -> (r: [(Kind, &Category); 4])
        ensures
            r@ == seq![
                (Kind::Train, &self.train),
                (Kind::Taxi, &self.taxi),
                (Kind::Hotel, &self.hotel),
                (Kind::Other, &self.other),
            ],
    {
        let r = [
            (Kind::Train, &self.train),
            (Kind::Taxi, &self.taxi),
            (Kind::Hotel, &self.hotel),
            (Kind::Other, &self.other),
        ];
        assert(r@ =~= seq![
            (Kind::Train, &self.train),
            (Kind::Taxi, &self.taxi),
            (Kind::Hotel, &self.hotel),
            (Kind::Other, &self.other),
        ]);
        r
    }
}

/// Law: counting an invoice raises the number of invoices by one and the
/// grand total by its amount.
pub proof fn law_add_grand(s: Stats, k: Kind, amount: int)
    requires
        s.category(k).count < usize::MAX,
        i64::MIN <= s.category(k).total + amount <= i64::MAX,
    ensures
        s.added(k, amount).count_of() == s.count_of() + 1,
        s.added(k, amount).total_of() == s.total_of() + amount,
        s.added(k, amount).category(k).count == s.category(k).count + 1,
        s.added(k, amount).category(k).total == s.category(k).total + amount,
{
}

/// Law: the statistics do not depend on the order in which two invoices are counted.
pub proof fn law_add_commutes(s: Stats, k1: Kind, a1: int, k2: Kind, a2: int)
    requires
        s.category(k1).count + 2 <= usize::MAX,
        s.category(k2).count + 2 <= usize::MAX,
        i64::MIN <= s.category(k1).total + a1 <= i64::MAX,
        i64::MIN <= s.category(k2).total + a2 <= i64::MAX,
        k1 == k2 ==> i64::MIN <= s.category(k1).total + a1 + a2 <= i64::MAX,
    ensures
        s.added(k1, a1).added(k2, a2) == s.added(k2, a2).added(k1, a1),
{
}

/// Statistics `s` with each invoice of `items` (kind, amount in millionths of a yuan) counted in turn.
pub open spec fn add_all(s: Stats, items: Seq<(Kind, int)>) -> Stats
    decreases items.len(),
{
    if items.len() == 0 {
        s
    } else {
        add_all(s, items.drop_last()).added(items.last().0, items.last().1)
    }
}

/// How many of `items` are of kind `k`.
pub open spec fn kind_count(items: Seq<(Kind, int)>, k: Kind) -> nat
    decreases items.len(),
{
    if items.len() == 0 {
        0
    } else {
        kind_count(items.drop_last(), k) + if items.last().0 == k {
            1nat
        } else {
            0nat
        }
    }
}

/// The sum of the amounts of the `items` of kind `k`.
pub open spec fn kind_total(items: Seq<(Kind, int)>, k: Kind) -> int
    decreases items.len(),
{
    if items.len() == 0 {
        0
    } else {
        kind_total(items.drop_last(), k) + if items.last().0 == k {
            items.last().1
        } else {
            0
        }
    }
}

/// Every item is of exactly one kind.
pub proof fn lemma_kind_counts_sum(items: Seq<(Kind, int)>)
    ensures
        kind_count(items, Kind::Train) + kind_count(items, Kind::Taxi) + kind_count(
            items,
            Kind::Hotel,
        ) + kind_count(items, Kind::Other) == items.len(),
    decreases items.len(),
{
    if items.len() > 0 {
        lemma_kind_counts_sum(items.drop_last());
    }
}

/// Law: counting invoices one by one from no invoice gives, for every kind,
/// the number of invoices of that kind and the sum of their amounts, and in
/// all as many invoices as were counted (as long as every partial count and
/// sum fits its type).
pub proof fn law_add_all(items: Seq<(Kind, int)>)
    requires
        forall|j: int, k: Kind|
            0 <= j <= items.len() ==> #[trigger] kind_count(items.take(j), k) <= usize::MAX,
        forall|j: int, k: Kind|
            0 <= j <= items.len() ==> i64::MIN <= #[trigger] kind_total(items.take(j), k)
                <= i64::MAX,
    ensures
        forall|k: Kind|
            #[trigger] add_all(Stats::empty(), items).category(k) == (Category {
                count: kind_count(items, k) as usize,
                total: kind_total(items, k) as i64,
            }),
        add_all(Stats::empty(), items).count_of() == items.len(),
    decreases items.len(),
{
    lemma_add_all_kinds(items);
    lemma_kind_counts_sum(items);
    assert(items.take(items.len() as int) =~= items);
    let s = add_all(Stats::empty(), items);
    assert(kind_count(items.take(items.len() as int), Kind::Train) <= usize::MAX);
    assert(kind_count(items.take(items.len() as int), Kind::Taxi) <= usize::MAX);
    assert(kind_count(items.take(items.len() as int), Kind::Hotel) <= usize::MAX);
    assert(kind_count(items.take(items.len() as int), Kind::Other) <= usize::MAX);
    assert(s.category(Kind::Train).count == kind_count(items, Kind::Train));
    assert(s.category(Kind::Taxi).count == kind_count(items, Kind::Taxi));
    assert(s.category(Kind::Hotel).count == kind_count(items, Kind::Hotel));
    assert(s.category(Kind::Other).count == kind_count(items, Kind::Other));
}

proof fn lemma_add_all_kinds(items: Seq<(Kind, int)>)
    requires
        forall|j: int, k: Kind|
            0 <= j <= items.len() ==> #[trigger] kind_count(items.take(j), k) <= usize::MAX,
        forall|j: int, k: Kind|
            0 <= j <= items.len() ==> i64::MIN <= #[trigger] kind_total(items.take(j), k)
                <= i64::MAX,
    ensures
        forall|k: Kind|
            #[trigger] add_all(Stats::empty(), items).category(k) == (Category {
                count: kind_count(items, k) as usize,
                total: kind_total(items, k) as i64,
            }),
    decreases items.len(),
{
    assert(items.take(items.len() as int) =~= items);
    if items.len() > 0 {
        let rest = items.drop_last();
        assert forall|j: int, k: Kind|
            0 <= j <= rest.len() implies #[trigger] kind_count(rest.take(j), k) <= usize::MAX by {
            assert(rest.take(j) =~= items.take(j));
            assert(kind_count(items.take(j), k) <= usize::MAX);
        }
        assert forall|j: int, k: Kind|
            0 <= j <= rest.len() implies i64::MIN <= #[trigger] kind_total(rest.take(j), k)
                <= i64::MAX by {
            assert(rest.take(j) =~= items.take(j));
            assert(i64::MIN <= kind_total(items.take(j), k) <= i64::MAX);
        }
        lemma_add_all_kinds(rest);
        let n = items.len() as int;
        assert forall|k: Kind| #[trigger] add_all(Stats::empty(), items).category(k) == (Category {
            count: kind_count(items, k) as usize,
            total: kind_total(items, k) as i64,
        }) by {
            assert(kind_count(items.take(n), k) <= usize::MAX);
            assert(i64::MIN <= kind_total(items.take(n), k) <= i64::MAX);
            assert(add_all(Stats::empty(), rest).category(k) == (Category {
                count: kind_count(rest, k) as usize,
                total: kind_total(rest, k) as i64,
            }));
            assert(kind_count(rest.take(rest.len() as int), k) <= usize::MAX);
            assert(rest.take(rest.len() as int) =~= rest);
            assert(i64::MIN <= kind_total(rest.take(rest.len() as int), k) <= i64::MAX);
        }
    }
}

} // verus!
