//! Reading a capital numeral back into the number it writes.
//!
//! A numeral is read left to right with a running total (what 亿 has
//! closed), a section (what 拾, 佰, 仟 and 万 have placed since) and the
//! last digit seen. The numeral of every number below 10^16 reads back as
//! that number, so distinct numbers have distinct numerals.

use vstd::prelude::*;
use crate::chinese_yuan::{chinese_integer, cn_digit, nonzero_in_group_from, numeral_piece, numeral_prefix, place_unit, section_unit};
use crate::extractor::pow_ten;
use crate::utils::{dec_digits, lemma_dec_digits};

verus! {

/// The value of a capital digit, 壹 to 玖; 0 for any other character.
pub open spec fn numeral_digit_value(c: char) -> int {
    if c == '壹' {
        1
    } else if c == '贰' {
        2
    } else if c == '叁' {
        3
    } else if c == '肆' {
        4
    } else if c == '伍' {
        5
    } else if c == '陆' {
        6
    } else if c == '柒' {
        7
    } else if c == '捌' {
        8
    } else if c == '玖' {
        9
    } else {
        0
    }
}

/// One character read into the running (total, section, digit): a digit is
/// kept, 拾 佰 仟 place it in the section, 万 shifts the section by four
/// places, 亿 moves it by eight places into the total; 零 reads as nothing.
pub open spec fn read_step(st: (int, int, int), c: char) -> (int, int, int) {
    let (total, section, digit) = st;
    if numeral_digit_value(c) != 0 {
        (total, section, numeral_digit_value(c))
    } else if c == '拾' {
        (total, section + digit * 10, 0)
    } else if c == '佰' {
        (total, section + digit * 100, 0)
    } else if c == '仟' {
        (total, section + digit * 1000, 0)
    } else if c == '万' {
        (total, (section + digit) * 10000, 0)
    } else if c == '亿' {
        (total + (section + digit) * 100000000, 0, 0)
    } else {
        st
    }
}

/// The running state after reading `s` from `st`.
pub open spec fn read_from(st: (int, int, int), s: Seq<char>) -> (int, int, int)
    decreases s.len(),
{
    if s.len() == 0 {
        st
    } else {
        read_step(read_from(st, s.drop_last()), s.last())
    }
}

/// The number a capital numeral writes.
pub open spec fn numeral_value(s: Seq<char>) -> int {
    let st = read_from((0, 0, 0), s);
    st.0 + st.1 + st.2
}

proof fn lemma_read_concat(st: (int, int, int), a: Seq<char>, b: Seq<char>)
    ensures
        read_from(st, a + b) == read_from(read_from(st, a), b),
    decreases b.len(),
{
    if b.len() == 0 {
        assert(a + b =~= a);
    } else {
        lemma_read_concat(st, a, b.drop_last());
        assert((a + b).drop_last() =~= a + b.drop_last());
        assert((a + b).last() == b.last());
    }
}

proof fn lemma_read_one(st: (int, int, int), c: char)
    ensures
        read_from(st, seq![c]) == read_step(st, c),
{
    assert(seq![c].drop_last() =~= Seq::<char>::empty());
    assert(read_from(st, Seq::<char>::empty()) == st);
}

proof fn lemma_read_empty(st: (int, int, int))
    ensures
        read_from(st, Seq::<char>::empty()) == st,
{
}

/// The digit at position `j`, 0 beyond the digits.
spec fn dg(ds: Seq<u8>, j: int) -> int {
    if 0 <= j < ds.len() {
        ds[j] as int
    } else {
        0
    }
}

/// The digits of `p`'s group of four from `p` up, in units of the group.
spec fn gsum(ds: Seq<u8>, p: int) -> int {
    let w = p % 4;
    let b = p - w;
    (if w == 0 {
        dg(ds, b)
    } else {
        0
    }) + (if w <= 1 {
        dg(ds, b + 1) * 10
    } else {
        0
    }) + (if w <= 2 {
        dg(ds, b + 2) * 100
    } else {
        0
    }) + dg(ds, b + 3) * 1000
}

/// The `g`-th group of four digits.
spec fn grp(ds: Seq<u8>, g: int) -> int {
    gsum(ds, 4 * g)
}

/// The running state after reading the pieces of the digits from position
/// `p` up.
spec fn expected(ds: Seq<u8>, p: int) -> (int, int, int) {
    let g = p / 4;
    let w = p % 4;
    let closed = (if g <= 2 {
        grp(ds, 3) * 1_000_000_000_000
    } else {
        0
    }) + (if g <= 1 {
        grp(ds, 2) * 100000000
    } else {
        0
    });
    if p >= 16 {
        (0, 0, 0)
    } else if w != 0 {
        (closed, (if g == 0 {
            grp(ds, 1) * 10000
        } else {
            0
        }) + gsum(ds, p), 0)
    } else if g == 0 {
        (closed, grp(ds, 1) * 10000 + gsum(ds, 1), dg(ds, 0))
    } else if g == 1 {
        (closed, grp(ds, 1) * 10000, 0)
    } else {
        (grp(ds, 3) * 1_000_000_000_000 + (if g == 2 {
            grp(ds, 2) * 100000000
        } else {
            0
        }), 0, 0)
    }
}

proof fn lemma_digit_read_back(d: u8)
    requires
        1 <= d <= 9,
    ensures
        numeral_digit_value(cn_digit(d)) == d,
{
}

proof fn lemma_group_nonzero(ds: Seq<u8>, p: int)
    requires
        0 <= p,
        p % 4 == 0,
    ensures
        nonzero_in_group_from(ds, p) <==> gsum(ds, p) != 0,
{
    if nonzero_in_group_from(ds, p) {
        let j = choose|j: int| p <= j < p - p % 4 + 4 && j < ds.len() && ds[j] != 0;
        assert(dg(ds, j) > 0);
        assert(j == p || j == p + 1 || j == p + 2 || j == p + 3);
    } else {
        assert(!(p < ds.len() && ds[p] != 0));
        assert(!(p + 1 < ds.len() && ds[p + 1] != 0));
        assert(!(p + 2 < ds.len() && ds[p + 2] != 0));
        assert(!(p + 3 < ds.len() && ds[p + 3] != 0));
    }
    if gsum(ds, p) != 0 {
        if dg(ds, p) != 0 {
            assert(p <= p < p - p % 4 + 4 && p < ds.len() && ds[p] != 0);
        } else if dg(ds, p + 1) != 0 {
            assert(p <= p + 1 < p - p % 4 + 4 && p + 1 < ds.len() && ds[p + 1] != 0);
        } else if dg(ds, p + 2) != 0 {
            assert(p <= p + 2 < p - p % 4 + 4 && p + 2 < ds.len() && ds[p + 2] != 0);
        } else {
            assert(p <= p + 3 < p - p % 4 + 4 && p + 3 < ds.len() && ds[p + 3] != 0);
        }
    }
}

/// Reading the piece of the digit at `p` after those above it.
#[verifier::spinoff_prover]
#[verifier::rlimit(60)]
proof fn lemma_read_piece(ds: Seq<u8>, p: int)
    requires
        0 <= p < ds.len() <= 16,
        forall|i: int| 0 <= i < ds.len() ==> #[trigger] ds[i] < 10,
    ensures
        read_from(expected(ds, p + 1), numeral_piece(ds, p)) == expected(ds, p),
{
    let d = ds[p];
    let g = p / 4;
    let w = p % 4;
    let st = expected(ds, p + 1);
    let zero = if p + 1 < ds.len() && ds[p + 1] == 0 {
        seq!['零']
    } else {
        seq![]
    };
    let body = if d == 0 {
        seq![]
    } else {
        zero + seq![cn_digit(d)] + place_unit(w)
    };
    let unit = if w == 0 && nonzero_in_group_from(ds, p) {
        section_unit(g)
    } else {
        seq![]
    };
    assert(numeral_piece(ds, p) == body + unit);
    lemma_read_concat(st, body, unit);
    lemma_group_nonzero(ds, p - w);
    assert(p + 1 < 16 ==> st.2 == 0);
    let mid = read_from(st, body);
    if d == 0 {
        lemma_read_empty(st);
        assert(mid == st);
    } else {
        lemma_digit_read_back(d);
        lemma_read_concat(st, zero + seq![cn_digit(d)], place_unit(w));
        lemma_read_concat(st, zero, seq![cn_digit(d)]);
        if zero.len() == 0 {
            lemma_read_empty(st);
        } else {
            lemma_read_one(st, '零');
        }
        assert(read_from(st, zero) == st);
        lemma_read_one(st, cn_digit(d));
        let after = read_step(st, cn_digit(d));
        assert(after == (st.0, st.1, d as int));
        if w == 0 {
            lemma_read_empty(after);
            assert(mid == after);
        } else {
            lemma_read_one(after, place_unit(w)[0]);
            assert(place_unit(w) =~= seq![place_unit(w)[0]]);
        }
    }
    if unit.len() == 0 {
        lemma_read_empty(mid);
    } else if g == 3 {
        assert(unit =~= seq!['万'] + seq!['亿']);
        lemma_read_concat(mid, seq!['万'], seq!['亿']);
        lemma_read_one(mid, '万');
        lemma_read_one(read_step(mid, '万'), '亿');
    } else {
        assert(unit =~= seq![unit[0]]);
        lemma_read_one(mid, unit[0]);
    }
}

/// Reading the pieces of the top `k` digits.
proof fn lemma_read_prefix(ds: Seq<u8>, k: nat)
    requires
        k <= ds.len() <= 16,
        forall|i: int| 0 <= i < ds.len() ==> #[trigger] ds[i] < 10,
    ensures
        read_from((0, 0, 0), numeral_prefix(ds, k)) == expected(ds, ds.len() - k),
    decreases k,
{
    if k == 0 {
        lemma_read_empty((0, 0, 0));
        assert(numeral_prefix(ds, 0) =~= Seq::<char>::empty());
    } else {
        lemma_read_prefix(ds, (k - 1) as nat);
        let p = ds.len() - k;
        lemma_read_concat((0, 0, 0), numeral_prefix(ds, (k - 1) as nat), numeral_piece(ds, p));
        lemma_read_piece(ds, p);
    }
}

/// The value of digits written least significant first.
spec fn digits_number(s: Seq<u8>) -> int
    decreases s.len(),
{
    if s.len() == 0 {
        0
    } else {
        s[0] + 10 * digits_number(s.drop_first())
    }
}

/// The value of the digits from position `p` up to the sixteenth.
spec fn value_from(ds: Seq<u8>, p: int) -> int
    decreases 16 - p,
{
    if p >= 16 {
        0
    } else {
        dg(ds, p) + 10 * value_from(ds, p + 1)
    }
}

proof fn lemma_digits_number(n: nat)
    ensures
        digits_number(dec_digits(n)) == n,
    decreases n,
{
    if n > 0 {
        lemma_digits_number(n / 10);
        assert(dec_digits(n).drop_first() =~= dec_digits(n / 10));
    }
}

proof fn lemma_value_beyond(ds: Seq<u8>, p: int)
    requires
        ds.len() <= p <= 16,
    ensures
        value_from(ds, p) == 0,
    decreases 16 - p,
{
    if p < 16 {
        lemma_value_beyond(ds, p + 1);
    }
}

proof fn lemma_value_from(ds: Seq<u8>, p: int)
    requires
        0 <= p <= ds.len() <= 16,
    ensures
        value_from(ds, p) == digits_number(ds.skip(p)),
    decreases ds.len() - p,
{
    if p < ds.len() {
        lemma_value_from(ds, p + 1);
        assert(ds.skip(p).drop_first() =~= ds.skip(p + 1));
        assert(ds.skip(p)[0] == ds[p]);
    } else {
        lemma_value_beyond(ds, p);
        assert(ds.skip(p).len() == 0);
    }
}

proof fn lemma_value_by_group(ds: Seq<u8>, g: int)
    requires
        0 <= g <= 3,
    ensures
        value_from(ds, 4 * g) == grp(ds, g) + 10000 * value_from(ds, 4 * g + 4),
{
    let p = 4 * g;
    assert(p % 4 == 0);
    assert(value_from(ds, p) == dg(ds, p) + 10 * value_from(ds, p + 1));
    assert(value_from(ds, p + 1) == dg(ds, p + 1) + 10 * value_from(ds, p + 2));
    assert(value_from(ds, p + 2) == dg(ds, p + 2) + 10 * value_from(ds, p + 3));
    assert(value_from(ds, p + 3) == dg(ds, p + 3) + 10 * value_from(ds, p + 4));
}

proof fn lemma_digit_count(n: nat, k: nat)
    requires
        n < pow_ten(k),
    ensures
        dec_digits(n).len() <= k,
    decreases k,
{
    if n > 0 {
        assert(k > 0);
        lemma_digit_count(n / 10, (k - 1) as nat);
    }
}

/// Law: the numeral of a whole number below 10^16 (the last group of four
/// with a unit of its own is 万亿) reads back as that number.
pub proof fn law_integer_read_back(n: nat)
    requires
        n < 10_000_000_000_000_000,
    ensures
        numeral_value(chinese_integer(n)) == n,
{
    reveal_with_fuel(pow_ten, 17);
    lemma_digit_count(n, 16);
    lemma_dec_digits(n);
    let ds = dec_digits(n);
    lemma_read_prefix(ds, ds.len());
    lemma_digits_number(n);
    lemma_value_from(ds, 0);
    assert(ds.skip(0) =~= ds);
    lemma_value_by_group(ds, 0);
    lemma_value_by_group(ds, 1);
    lemma_value_by_group(ds, 2);
    lemma_value_by_group(ds, 3);
    assert(value_from(ds, 16) == 0);
    assert(gsum(ds, 0) == dg(ds, 0) + gsum(ds, 1));
}

/// Law: distinct whole numbers below 10^16 have distinct numerals.
pub proof fn law_integer_numerals_distinct(a: nat, b: nat)
    requires
        a < 10_000_000_000_000_000,
        b < 10_000_000_000_000_000,
        a != b,
    ensures
        chinese_integer(a) != chinese_integer(b),
{
    law_integer_read_back(a);
    law_integer_read_back(b);
}

/// How many times `c` occurs in `s`.
pub open spec fn count_char(s: Seq<char>, c: char) -> nat
    decreases s.len(),
{
    if s.len() == 0 {
        0
    } else {
        count_char(s.drop_last(), c) + if s.last() == c {
            1nat
        } else {
            0nat
        }
    }
}

/// How many capital digits (壹 to 玖) `s` holds.
pub open spec fn count_capital_digits(s: Seq<char>) -> nat
    decreases s.len(),
{
    if s.len() == 0 {
        0
    } else {
        count_capital_digits(s.drop_last()) + if numeral_digit_value(s.last()) != 0 {
            1nat
        } else {
            0nat
        }
    }
}

/// How many of the digits `ds` (least significant first) from position `p`
/// up are nonzero.
pub open spec fn nonzero_digits_from(ds: Seq<u8>, p: int) -> nat
    decreases ds.len() - p,
{
    if p < 0 || p >= ds.len() {
        0
    } else {
        nonzero_digits_from(ds, p + 1) + if ds[p] != 0 {
            1nat
        } else {
            0nat
        }
    }
}

/// How many positions from `p` up hold a nonzero digit with a zero just
/// above it: the runs of zeros between nonzero digits.
pub open spec fn zero_gaps_from(ds: Seq<u8>, p: int) -> nat
    decreases ds.len() - p,
{
    if p < 0 || p + 1 >= ds.len() {
        0
    } else {
        zero_gaps_from(ds, p + 1) + if ds[p] != 0 && ds[p + 1] == 0 {
            1nat
        } else {
            0nat
        }
    }
}

/// `s` is `x`, 零, the capital digit `c`, then `y`.
pub open spec fn zero_then_digit(s: Seq<char>, x: Seq<char>, c: char, y: Seq<char>) -> bool {
    s == x + seq!['零', c] + y
}

proof fn lemma_counts_concat(a: Seq<char>, b: Seq<char>)
    ensures
        count_char(a + b, '零') == count_char(a, '零') + count_char(b, '零'),
        count_capital_digits(a + b) == count_capital_digits(a) + count_capital_digits(b),
    decreases b.len(),
{
    if b.len() == 0 {
        assert(a + b =~= a);
    } else {
        lemma_counts_concat(a, b.drop_last());
        assert((a + b).drop_last() =~= a + b.drop_last());
        assert((a + b).last() == b.last());
    }
}

proof fn lemma_counts_one(c: char)
    ensures
        count_char(seq![c], '零') == (if c == '零' {
            1nat
        } else {
            0nat
        }),
        count_capital_digits(seq![c]) == (if numeral_digit_value(c) != 0 {
            1nat
        } else {
            0nat
        }),
{
    assert(seq![c].drop_last() =~= Seq::<char>::empty());
    assert(count_char(Seq::<char>::empty(), '零') == 0);
    assert(count_capital_digits(Seq::<char>::empty()) == 0);
    assert(seq![c].last() == c);
}

proof fn lemma_counts_units(ds: Seq<u8>, p: int)
    ensures
        count_char(place_unit(p % 4), '零') == 0,
        count_capital_digits(place_unit(p % 4)) == 0,
        count_char(section_unit(p / 4), '零') == 0,
        count_capital_digits(section_unit(p / 4)) == 0,
{
    let w = p % 4;
    if w == 1 || w == 2 || w == 3 {
        assert(place_unit(w) =~= seq![place_unit(w)[0]]);
        lemma_counts_one(place_unit(w)[0]);
    } else {
        assert(place_unit(w) =~= Seq::<char>::empty());
    }
    let g = p / 4;
    if g == 1 || g == 2 {
        assert(section_unit(g) =~= seq![section_unit(g)[0]]);
        lemma_counts_one(section_unit(g)[0]);
    } else if g == 3 {
        assert(section_unit(g) =~= seq!['万'] + seq!['亿']);
        lemma_counts_one('万');
        lemma_counts_one('亿');
        lemma_counts_concat(seq!['万'], seq!['亿']);
    } else {
        assert(section_unit(g) =~= Seq::<char>::empty());
    }
}

proof fn lemma_piece_counts(ds: Seq<u8>, p: int)
    requires
        0 <= p < ds.len(),
        forall|i: int| 0 <= i < ds.len() ==> #[trigger] ds[i] < 10,
    ensures
        count_char(numeral_piece(ds, p), '零') == (if ds[p] != 0 && p + 1 < ds.len() && ds[p + 1] == 0 {
            1nat
        } else {
            0nat
        }),
        count_capital_digits(numeral_piece(ds, p)) == (if ds[p] != 0 {
            1nat
        } else {
            0nat
        }),
{
    let d = ds[p];
    let w = p % 4;
    let zero = if p + 1 < ds.len() && ds[p + 1] == 0 {
        seq!['零']
    } else {
        seq![]
    };
    let body = if d == 0 {
        seq![]
    } else {
        zero + seq![cn_digit(d)] + place_unit(w)
    };
    let unit = if w == 0 && nonzero_in_group_from(ds, p) {
        section_unit(p / 4)
    } else {
        seq![]
    };
    assert(numeral_piece(ds, p) == body + unit);
    lemma_counts_units(ds, p);
    lemma_counts_concat(body, unit);
    lemma_counts_one('零');
    assert(count_char(Seq::<char>::empty(), '零') == 0);
    assert(count_capital_digits(Seq::<char>::empty()) == 0);
    if d != 0 {
        lemma_digit_read_back(d);
        lemma_counts_one(cn_digit(d));
        lemma_counts_concat(zero + seq![cn_digit(d)], place_unit(w));
        lemma_counts_concat(zero, seq![cn_digit(d)]);
    }
}

proof fn lemma_prefix_counts(ds: Seq<u8>, k: nat)
    requires
        k <= ds.len(),
        forall|i: int| 0 <= i < ds.len() ==> #[trigger] ds[i] < 10,
    ensures
        count_char(numeral_prefix(ds, k), '零') == zero_gaps_from(ds, ds.len() - k),
        count_capital_digits(numeral_prefix(ds, k)) == nonzero_digits_from(ds, ds.len() - k),
    decreases k,
{
    if k == 0 {
        assert(numeral_prefix(ds, 0) =~= Seq::<char>::empty());
    } else {
        lemma_prefix_counts(ds, (k - 1) as nat);
        let p = ds.len() - k;
        lemma_piece_counts(ds, p);
        lemma_counts_concat(numeral_prefix(ds, (k - 1) as nat), numeral_piece(ds, p));
    }
}

/// The pieces of the digits below the top `k`, down to the top `m`.
spec fn pieces_between(ds: Seq<u8>, k: nat, m: nat) -> Seq<char>
    decreases m,
{
    if m <= k {
        Seq::<char>::empty()
    } else {
        pieces_between(ds, k, (m - 1) as nat) + numeral_piece(ds, ds.len() - m)
    }
}

proof fn lemma_prefix_split(ds: Seq<u8>, k: nat, m: nat)
    requires
        k <= m,
    ensures
        numeral_prefix(ds, m) == numeral_prefix(ds, k) + pieces_between(ds, k, m),
    decreases m,
{
    if m == k {
        assert(numeral_prefix(ds, k) + Seq::<char>::empty() =~= numeral_prefix(ds, k));
    } else {
        lemma_prefix_split(ds, k, (m - 1) as nat);
        assert(numeral_prefix(ds, k) + pieces_between(ds, k, m) =~= numeral_prefix(ds, k)
            + pieces_between(ds, k, (m - 1) as nat) + numeral_piece(ds, ds.len() - m));
    }
}

/// Law: in the numeral of a whole number each nonzero digit is written by
/// one capital digit, and a run of zeros between nonzero digits by exactly
/// one 零, right before the capital digit of the nonzero digit below the
/// run; there is no other 零.
pub proof fn law_integer_zero_runs(n: nat)
    ensures
        ({
            let ds = dec_digits(n);
            let s = chinese_integer(n);
            &&& count_capital_digits(s) == nonzero_digits_from(ds, 0)
            &&& count_char(s, '零') == zero_gaps_from(ds, 0)
            &&& forall|p: int|
                0 <= p && p + 1 < ds.len() && #[trigger] ds[p] != 0 && ds[p + 1] == 0 ==> exists|
                    x: Seq<char>,
                    y: Seq<char>,
                | #[trigger] zero_then_digit(s, x, cn_digit(ds[p]), y) && count_capital_digits(x)
                    == nonzero_digits_from(ds, p + 1)
        }),
{
    lemma_dec_digits(n);
    let ds = dec_digits(n);
    let s = chinese_integer(n);
    let len = ds.len();
    lemma_prefix_counts(ds, len);
    assert forall|p: int|
        0 <= p && p + 1 < ds.len() && #[trigger] ds[p] != 0 && ds[p + 1] == 0 implies exists|
            x: Seq<char>,
            y: Seq<char>,
        | #[trigger] zero_then_digit(s, x, cn_digit(ds[p]), y) && count_capital_digits(x)
            == nonzero_digits_from(ds, p + 1) by {
        let k = (len - 1 - p) as nat;
        let x = numeral_prefix(ds, k);
        lemma_prefix_counts(ds, k);
        lemma_prefix_split(ds, k + 1, len);
        let d = ds[p];
        let unit = if p % 4 == 0 && nonzero_in_group_from(ds, p) {
            section_unit(p / 4)
        } else {
            seq![]
        };
        let rest = place_unit(p % 4) + unit + pieces_between(ds, k + 1, len);
        assert(numeral_piece(ds, p) =~= seq!['零', cn_digit(d)] + place_unit(p % 4) + unit);
        assert(numeral_prefix(ds, k + 1) == x + numeral_piece(ds, p));
        assert(s =~= x + seq!['零', cn_digit(d)] + rest);
        assert(zero_then_digit(s, x, cn_digit(d), rest));
    }
}

} // verus!
