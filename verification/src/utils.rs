//! Decimal digits of integers and the grouped rendering of amounts.

use vstd::prelude::*;

verus! {

/// Decimal digits of `n`, least significant first; zero has none.
pub open spec fn dec_digits(n: nat) -> Seq<u8>
    decreases n,
{
    if n == 0 {
        seq![]
    } else {
        seq![(n % 10) as u8] + dec_digits(n / 10)
    }
}

/// The ASCII character of a decimal digit.
pub open spec fn digit_char(d: u8) -> char {
    match d {
        0 => '0',
        1 => '1',
        2 => '2',
        3 => '3',
        4 => '4',
        5 => '5',
        6 => '6',
        7 => '7',
        8 => '8',
        _ => '9',
    }
}

/// The usual decimal text of `n`, most significant digit first ("0" for zero).
pub open spec fn decimal_text(n: nat) -> Seq<char> {
    if n == 0 {
        seq!['0']
    } else {
        let ds = dec_digits(n);
        Seq::new(ds.len(), |i: int| digit_char(ds[ds.len() - 1 - i]))
    }
}

/// The first `k` characters of `s` with a comma inserted before every
/// character whose distance to the end of `s` is a positive multiple of three.
pub open spec fn grouped_prefix(s: Seq<char>, k: nat) -> Seq<char>
    decreases k,
{
    if k == 0 {
        seq![]
    } else {
        let i = k - 1;
        grouped_prefix(s, (k - 1) as nat) + (if i > 0 && (s.len() - i) % 3 == 0 {
            seq![',']
        } else {
            seq![]
        }) + seq![s[i]]
    }
}

/// `s` with thousands separators.
pub open spec fn group_thousands(s: Seq<char>) -> Seq<char> {
    grouped_prefix(s, s.len())
}

pub open spec fn abs_int(x: int) -> nat {
    if x < 0 {
        (-x) as nat
    } else {
        x as nat
    }
}

/// Two decimal digits of `n` (`n < 100`), with a leading zero.
pub open spec fn two_digit_text(n: nat) -> Seq<char> {
    seq![digit_char((n / 10) as u8), digit_char((n % 10) as u8)]
}

/// Amounts are carried in millionths of a yuan; this many make a cent.
pub const UNITS_PER_CENT: i64 = 10000;

/// An amount of `units` millionths of a yuan in whole cents, rounded half
/// away from zero.
pub open spec fn round_to_cents(units: int) -> int {
    if units >= 0 {
        (units + 5000) / 10000
    } else {
        -((-units + 5000) / 10000)
    }
}

/// An amount of `units` millionths of a yuan as yuan with thousands
/// separators and two decimals: the magnitude rounded to cents, e.g.
/// 11051500000 is "11,051.50", with a minus sign before a negative amount.
pub open spec fn amount_text(units: int) -> Seq<char> {
    let a = round_to_cents(abs_int(units) as int) as nat;
    (if units < 0 {
        seq!['-']
    } else {
        seq![]
    }) + group_thousands(decimal_text(a / 100)) + seq!['.'] + two_digit_text(a % 100)
}

/// Every digit is below ten, and a nonzero number's most significant digit is nonzero.
pub proof fn lemma_dec_digits(n: nat)
    ensures
        forall|i: int| 0 <= i < dec_digits(n).len() ==> dec_digits(n)[i] < 10,
        n > 0 ==> dec_digits(n).len() > 0 && dec_digits(n).last() != 0,
        n == 0 ==> dec_digits(n).len() == 0,
    decreases n,
{
    if n > 0 {
        lemma_dec_digits(n / 10);
        let rest = dec_digits(n / 10);
        assert(dec_digits(n) == seq![(n % 10) as u8] + rest);
        if n / 10 == 0 {
            assert(n % 10 != 0);
        }
    }
}

/// The decimal digits of `n`, least significant first.
pub fn decimal_digits(n: u64) -> (ds: Vec<u8>)
    ensures
        ds@ == dec_digits(n as nat),
        forall|i: int| 0 <= i < ds@.len() ==> ds@[i] < 10,
{
    let mut ds: Vec<u8> = Vec::new();
    let mut rem: u64 = n;
    while rem > 0
        invariant
            ds@ + dec_digits(rem as nat) == dec_digits(n as nat),
        decreases rem,
    {
        let d: u8 = (rem % 10) as u8;
        let ghost old_ds = ds@;
        assert(dec_digits(rem as nat) == seq![d] + dec_digits((rem / 10) as nat));
        ds.push(d);
        rem = rem / 10;
        assert(ds@ + dec_digits(rem as nat) =~= old_ds + (seq![d] + dec_digits(rem as nat)));
    }
    assert(ds@ + dec_digits(0) =~= ds@);
    proof {
        lemma_dec_digits(n as nat);
    }
    ds
}

fn digit_str(d: u8) -> (r: &'static str)
    requires
        d < 10,
    ensures
        r@ == seq![digit_char(d)],
{
    match d {
        0 => {
            proof {
                reveal_strlit("0");
            }
            "0"
        },
        1 => {
            proof {
                reveal_strlit("1");
            }
            "1"
        },
        2 => {
            proof {
                reveal_strlit("2");
            }
            "2"
        },
        3 => {
            proof {
                reveal_strlit("3");
            }
            "3"
        },
        4 => {
            proof {
                reveal_strlit("4");
            }
            "4"
        },
        5 => {
            proof {
                reveal_strlit("5");
            }
            "5"
        },
        6 => {
            proof {
                reveal_strlit("6");
            }
            "6"
        },
        7 => {
            proof {
                reveal_strlit("7");
            }
            "7"
        },
        8 => {
            proof {
                reveal_strlit("8");
            }
            "8"
        },
        _ => {
            proof {
                reveal_strlit("9");
            }
            "9"
        },
    }
}

/// Appends `n` in decimal to `out`, with thousands separators when `grouped`.
fn append_decimal(out: &mut String, n: u64, grouped: bool)
    ensures
        final(out)@ == old(out)@ + (if grouped {
            group_thousands(decimal_text(n as nat))
        } else {
            decimal_text(n as nat)
        }),
{
    let ds = decimal_digits(n);
    let len = ds.len();
    let ghost txt = decimal_text(n as nat);
    let ghost start = out@;
    if len == 0 {
        proof {
            lemma_dec_digits(n as nat);
            reveal_strlit("0");
            assert(grouped_prefix(txt, 0) =~= seq![]);
            assert(group_thousands(txt) =~= seq!['0']);
        }
        out.append("0");
        return;
    }
    proof {
        lemma_dec_digits(n as nat);
    }
    assert(txt.len() == len);
    let mut i: usize = 0;
    while i < len
        invariant
            ds@ == dec_digits(n as nat),
            len == ds@.len(),
            len > 0,
            forall|j: int| 0 <= j < len ==> ds@[j] < 10,
            txt == decimal_text(n as nat),
            txt.len() == len,
            i <= len,
            out@ == start + (if grouped {
                grouped_prefix(txt, i as nat)
            } else {
                txt.take(i as int)
            }),
        decreases len - i,
    {
        let ghost before = out@;
        if grouped && i > 0 && (len - i) % 3 == 0 {
            proof {
                reveal_strlit(",");
            }
            out.append(",");
        }
        out.append(digit_str(ds[len - 1 - i]));
        assert(txt[i as int] == digit_char(ds@[len - 1 - i]));
        assert(txt.take(i + 1) =~= txt.take(i as int).push(txt[i as int]));
        i = i + 1;
        assert(out@ =~= start + (if grouped {
            grouped_prefix(txt, i as nat)
        } else {
            txt.take(i as int)
        }));
    }
    assert(txt.take(len as int) =~= txt);
}

/// The decimal text of `n`.
pub fn decimal_string(n: u64) -> (r: String)
    ensures
        r@ == decimal_text(n as nat),
{
    let mut out = String::new();
    append_decimal(&mut out, n, false);
    assert(out@ =~= decimal_text(n as nat));
    out
}

/// The magnitude of `amount` in whole cents, rounded half up, and whether
/// `amount` is negative.
fn magnitude_cents(amount: i64) -> (r: (u64, bool))
    ensures
        r.0 == round_to_cents(abs_int(amount as int) as int),
        r.1 == (amount < 0),
{
    let negative = amount < 0;
    let a: u64 = if negative {
        (0i128 - amount as i128) as u64
    } else {
        amount as u64
    };
    assert(a as nat == abs_int(amount as int));
    ((a + 5000) / 10000, negative)
}

/// An amount of `amount` millionths of a yuan rounded to whole cents, half
/// away from zero.
pub fn to_cents(amount: i64) -> (r: i64)
    ensures
        r == round_to_cents(amount as int),
{
    let (c, negative) = magnitude_cents(amount);
    if negative {
        0 - (c as i64)
    } else {
        c as i64
    }
}

/// An amount of `amount` millionths of a yuan as yuan with thousands
/// separators and two decimals, e.g. 11051500000 is "11,051.50".
pub fn fmt_amount(amount: i64) -> (r: String)
    ensures
        r@ == amount_text(amount as int),
{
    let (a, negative) = magnitude_cents(amount);
    let mut out = String::new();
    if negative {
        proof {
            reveal_strlit("-");
        }
        out.append("-");
    }
    append_decimal(&mut out, a / 100, true);
    proof {
        reveal_strlit(".");
    }
    out.append(".");
    let r = a % 100;
    out.append(digit_str((r / 10) as u8));
    out.append(digit_str((r % 10) as u8));
    assert(out@ =~= amount_text(amount as int));
    out
}

proof fn lemma_grouped_prefix_shorter(s: Seq<char>, t: Seq<char>, k: nat)
    requires
        t.len() + 3 == s.len(),
        t == s.take(t.len() as int),
        k <= t.len(),
    ensures
        grouped_prefix(s, k) == grouped_prefix(t, k),
    decreases k,
{
    if k > 0 {
        lemma_grouped_prefix_shorter(s, t, (k - 1) as nat);
        let i = k - 1;
        assert((s.len() - i) % 3 == 0 <==> (t.len() - i) % 3 == 0);
        assert(s[i] == t[i]);
    }
}

/// Law: digits are grouped in threes from the right: a text of at most three
/// digits is left alone, and a longer one is the grouping of all but its last
/// three digits, a comma, and those three digits.
pub proof fn law_group_thousands(s: Seq<char>)
    ensures
        s.len() <= 3 ==> group_thousands(s) == s,
        s.len() > 3 ==> group_thousands(s) == group_thousands(s.take(s.len() - 3)) + seq![',']
            + s.skip(s.len() - 3),
{
    let n = s.len();
    if n <= 3 {
        assert(grouped_prefix(s, 0) =~= s.take(0));
        if n >= 1 {
            assert(grouped_prefix(s, 1) =~= s.take(1));
        }
        if n >= 2 {
            assert(grouped_prefix(s, 2) =~= s.take(2));
        }
        if n >= 3 {
            assert(grouped_prefix(s, 3) =~= s.take(3));
        }
        assert(s.take(n as int) =~= s);
    } else {
        let t = s.take(n - 3);
        lemma_grouped_prefix_shorter(s, t, t.len());
        let g = grouped_prefix(t, t.len());
        assert(grouped_prefix(s, (n - 2) as nat) =~= g + seq![','] + seq![s[n - 3]]);
        assert(grouped_prefix(s, (n - 1) as nat) =~= g + seq![','] + seq![s[n - 3], s[n - 2]]);
        assert(grouped_prefix(s, n) =~= g + seq![','] + seq![s[n - 3], s[n - 2], s[n - 1]]);
        assert(s.skip(n - 3) =~= seq![s[n - 3], s[n - 2], s[n - 1]]);
    }
}

/// `s` without its commas.
pub open spec fn strip_commas(s: Seq<char>) -> Seq<char> {
    s.filter(|c: char| c != ',')
}

proof fn lemma_strip_grouped_prefix(s: Seq<char>, k: nat)
    requires
        k <= s.len(),
        forall|i: int| 0 <= i < s.len() ==> s[i] != ',',
    ensures
        strip_commas(grouped_prefix(s, k)) == s.take(k as int),
    decreases k,
{
    broadcast use vstd::seq::Seq::filter_distributes_over_add;

    if k == 0 {
        assert(grouped_prefix(s, 0) =~= seq![]);
        assert(s.take(0) =~= seq![]);
        reveal_with_fuel(Seq::filter, 1);
    } else {
        let i = k - 1;
        lemma_strip_grouped_prefix(s, (k - 1) as nat);
        let sep: Seq<char> = if i > 0 && (s.len() - i) % 3 == 0 {
            seq![',']
        } else {
            seq![]
        };
        let p = grouped_prefix(s, (k - 1) as nat);
        assert(strip_commas(sep) =~= seq![]) by {
            reveal_with_fuel(Seq::filter, 2);
        }
        assert(strip_commas(seq![s[i]]) =~= seq![s[i]]) by {
            reveal_with_fuel(Seq::filter, 2);
        }
        assert(strip_commas(p + sep + seq![s[i]]) == strip_commas(p + sep) + strip_commas(
            seq![s[i]],
        ));
        assert(strip_commas(p + sep) == strip_commas(p) + strip_commas(sep));
        assert(s.take(k as int) =~= s.take(i) + seq![s[i]]);
    }
}

proof fn lemma_decimal_text_digits(n: nat)
    ensures
        forall|i: int| 0 <= i < decimal_text(n).len() ==> decimal_text(n)[i] != ','
            && decimal_text(n)[i] != '.' && decimal_text(n)[i] != '-',
{
}

/// Law: removing the thousands separators from an amount's text leaves the
/// sign, all digits of the yuan, the point and the two digits of the cents.
pub proof fn law_amount_digits(units: int)
    ensures
        ({
            let a = round_to_cents(abs_int(units) as int) as nat;
            strip_commas(amount_text(units)) == (if units < 0 {
                seq!['-']
            } else {
                seq![]
            }) + decimal_text(a / 100) + seq!['.'] + two_digit_text(a % 100)
        }),
{
    broadcast use vstd::seq::Seq::filter_distributes_over_add;

    let a = round_to_cents(abs_int(units) as int) as nat;
    let t = decimal_text(a / 100);
    lemma_decimal_text_digits(a / 100);
    lemma_strip_grouped_prefix(t, t.len());
    assert(t.take(t.len() as int) =~= t);
    let sign: Seq<char> = if units < 0 {
        seq!['-']
    } else {
        seq![]
    };
    let tail = seq!['.'] + two_digit_text(a % 100);
    assert(strip_commas(sign) =~= sign) by {
        reveal_with_fuel(Seq::filter, 2);
    }
    assert(strip_commas(tail) =~= tail) by {
        reveal_with_fuel(Seq::filter, 4);
    }
    let g = group_thousands(t);
    let two = two_digit_text(a % 100);
    assert(amount_text(units) == sign + g + seq!['.'] + two);
    vstd::seq_lib::lemma_concat_associative(sign + g, seq!['.'], two);
    assert(strip_commas(sign + group_thousands(t) + tail) == strip_commas(sign + group_thousands(t))
        + strip_commas(tail));
    assert(strip_commas(sign + group_thousands(t)) == strip_commas(sign) + strip_commas(
        group_thousands(t),
    ));
    vstd::seq_lib::lemma_concat_associative(sign + t, seq!['.'], two);
}

/// Law: an amount is rounded to the nearest cent, a half cent away from
/// zero: the cents times ten thousand lie within half a cent of the amount,
/// above it only by less than half a cent for a positive amount, and below
/// it only by less than half a cent for a negative one.
pub proof fn law_round_to_cents(units: int)
    ensures
        units >= 0 ==> round_to_cents(units) * 10000 - 5000 <= units < round_to_cents(units) * 10000
            + 5000,
        units < 0 ==> round_to_cents(units) * 10000 - 5000 < units <= round_to_cents(units) * 10000
            + 5000,
{
}

} // verus!
