//! Amounts in Chinese capital numerals, as written on invoices.
//!
//! The integer part is read in groups of four digits (万, 亿, 万亿), a run of
//! zeros between nonzero digits is read as a single 零, and it is followed by
//! 圆; then come 角 and 分, and 整 closes an amount without 分.

use vstd::prelude::*;
use crate::utils::{abs_int, dec_digits, decimal_digits, lemma_dec_digits, round_to_cents, to_cents};

verus! {

/// The capital numeral of a decimal digit.
pub open spec fn cn_digit(d: u8) -> char {
    match d {
        0 => '零',
        1 => '壹',
        2 => '贰',
        3 => '叁',
        4 => '肆',
        5 => '伍',
        6 => '陆',
        7 => '柒',
        8 => '捌',
        _ => '玖',
    }
}

/// The unit of a digit by its place within a group of four (个, 拾, 佰, 仟).
pub open spec fn place_unit(w: int) -> Seq<char> {
    if w == 1 {
        seq!['拾']
    } else if w == 2 {
        seq!['佰']
    } else if w == 3 {
        seq!['仟']
    } else {
        seq![]
    }
}

/// The unit of the `s`-th group of four digits (counted from the units group).
pub open spec fn section_unit(s: int) -> Seq<char> {
    if s == 1 {
        seq!['万']
    } else if s == 2 {
        seq!['亿']
    } else if s == 3 {
        seq!['万', '亿']
    } else {
        seq![]
    }
}

/// Some digit at a position from `p` up to the top of `p`'s group of four is nonzero.
pub open spec fn nonzero_in_group_from(ds: Seq<u8>, p: int) -> bool {
    exists|j: int| p <= j < p - p % 4 + 4 && j < ds.len() && ds[j] != 0
}

/// What the digit at position `pos` (0 = units) contributes to the numeral:
/// its numeral and place unit if it is nonzero, preceded by 零 when the next
/// higher digit is a zero; and the group unit at the bottom of a group that
/// holds a nonzero digit.
pub open spec fn numeral_piece(ds: Seq<u8>, pos: int) -> Seq<char> {
    let d = ds[pos];
    (if d == 0 {
        seq![]
    } else {
        (if pos + 1 < ds.len() && ds[pos + 1] == 0 {
            seq!['零']
        } else {
            seq![]
        }) + seq![cn_digit(d)] + place_unit(pos as int % 4)
    }) + (if pos % 4 == 0 && nonzero_in_group_from(ds, pos) {
        section_unit(pos / 4)
    } else {
        seq![]
    })
}

/// The pieces of the `k` most significant digits, most significant first.
pub open spec fn numeral_prefix(ds: Seq<u8>, k: nat) -> Seq<char>
    decreases k,
{
    if k == 0 {
        seq![]
    } else {
        numeral_prefix(ds, (k - 1) as nat) + numeral_piece(ds, ds.len() - k)
    }
}

/// The capital numeral of a whole number (empty for zero).
pub open spec fn chinese_integer(n: nat) -> Seq<char> {
    numeral_prefix(dec_digits(n), dec_digits(n).len())
}

/// An amount of `cents` cents in capital numerals.
pub open spec fn chinese_yuan(cents: int) -> Seq<char> {
    let c = abs_int(cents);
    let yuan = c / 100;
    let jiao = ((c / 10) % 10) as u8;
    let fen = (c % 10) as u8;
    (if cents < 0 {
        seq!['负']
    } else {
        seq![]
    }) + (if yuan == 0 {
        seq!['零', '圆']
    } else {
        chinese_integer(yuan) + seq!['圆']
    }) + (if jiao == 0 && fen == 0 {
        seq!['整']
    } else {
        (if jiao == 0 {
            seq!['零']
        } else {
            seq![cn_digit(jiao), '角']
        }) + (if fen != 0 {
            seq![cn_digit(fen), '分']
        } else {
            seq!['整']
        })
    })
}

fn cn_digit_str(d: u8) -> (r: &'static str)
    requires
        d < 10,
    ensures
        r@ == seq![cn_digit(d)],
{
    match d {
        0 => {
            proof {
                reveal_strlit("零");
            }
            "零"
        },
        1 => {
            proof {
                reveal_strlit("壹");
            }
            "壹"
        },
        2 => {
            proof {
                reveal_strlit("贰");
            }
            "贰"
        },
        3 => {
            proof {
                reveal_strlit("叁");
            }
            "叁"
        },
        4 => {
            proof {
                reveal_strlit("肆");
            }
            "肆"
        },
        5 => {
            proof {
                reveal_strlit("伍");
            }
            "伍"
        },
        6 => {
            proof {
                reveal_strlit("陆");
            }
            "陆"
        },
        7 => {
            proof {
                reveal_strlit("柒");
            }
            "柒"
        },
        8 => {
            proof {
                reveal_strlit("捌");
            }
            "捌"
        },
        _ => {
            proof {
                reveal_strlit("玖");
            }
            "玖"
        },
    }
}

fn place_unit_str(w: usize) -> (r: &'static str)
    ensures
        r@ == place_unit(w as int),
{
    if w == 1 {
        proof {
            reveal_strlit("拾");
        }
        "拾"
    } else if w == 2 {
        proof {
            reveal_strlit("佰");
        }
        "佰"
    } else if w == 3 {
        proof {
            reveal_strlit("仟");
        }
        "仟"
    } else {
        proof {
            reveal_strlit("");
        }
        ""
    }
}

fn section_unit_str(s: usize) -> (r: &'static str)
    ensures
        r@ == section_unit(s as int),
{
    if s == 1 {
        proof {
            reveal_strlit("万");
        }
        "万"
    } else if s == 2 {
        proof {
            reveal_strlit("亿");
        }
        "亿"
    } else if s == 3 {
        proof {
            reveal_strlit("万亿");
        }
        "万亿"
    } else {
        proof {
            reveal_strlit("");
        }
        ""
    }
}

/// The capital numeral of the whole number `num`, without 圆; empty for zero.
pub fn integer_to_chinese(num: u64) -> (r: String)
    ensures
        r@ == chinese_integer(num as nat),
{
    let ds = decimal_digits(num);
    let n = ds.len();
    let mut out = String::new();
    let mut last_was_zero = false;
    let mut sec_has_nonzero = false;
    let mut i: usize = 0;
    while i < n
        invariant
            ds@ == dec_digits(num as nat),
            n == ds@.len(),
            forall|j: int| 0 <= j < n ==> ds@[j] < 10,
            i <= n,
            out@ == numeral_prefix(ds@, i as nat),
            last_was_zero == (i > 0 && ds@[n - i] == 0),
            sec_has_nonzero == (i > 0 && (n - i) % 4 != 0 && nonzero_in_group_from(ds@, n - i)),
        decreases n - i,
    {
        let pos = n - 1 - i;
        let d = ds[pos];
        let within = pos % 4;
        let section = pos / 4;
        let ghost old_out = out@;
        let ghost old_sec = sec_has_nonzero;
        let ghost dig: Seq<char> = if d == 0 {
            seq![]
        } else {
            (if pos + 1 < n && ds@[pos + 1] == 0 {
                seq!['零']
            } else {
                seq![]
            }) + seq![cn_digit(d)] + place_unit(pos as int % 4)
        };
        if d == 0 {
            last_was_zero = true;
        } else {
            if last_was_zero {
                proof {
                    reveal_strlit("零");
                }
                out.append("零");
                last_was_zero = false;
            }
            out.append(cn_digit_str(d));
            out.append(place_unit_str(within));
            sec_has_nonzero = true;
        }
        assert(out@ =~= old_out + dig);
        proof {
            let p = pos as int;
            if d != 0 {
                assert(nonzero_in_group_from(ds@, p));
            } else if p % 4 == 3 {
                assert(!nonzero_in_group_from(ds@, p)) by {
                    if nonzero_in_group_from(ds@, p) {
                        let j = choose|j: int|
                            p <= j < p - p % 4 + 4 && j < ds@.len() && ds@[j] != 0;
                        assert(j == p);
                    }
                }
            } else {
                assert(nonzero_in_group_from(ds@, p) == (i > 0 && nonzero_in_group_from(
                    ds@,
                    p + 1,
                ))) by {
                    if nonzero_in_group_from(ds@, p) {
                        let j = choose|j: int|
                            p <= j < p - p % 4 + 4 && j < ds@.len() && ds@[j] != 0;
                        assert(j != p);
                        assert(p + 1 <= j < (p + 1) - (p + 1) % 4 + 4);
                    }
                    if i > 0 && nonzero_in_group_from(ds@, p + 1) {
                        let j = choose|j: int|
                            p + 1 <= j < (p + 1) - (p + 1) % 4 + 4 && j < ds@.len() && ds@[j]
                                != 0;
                        assert(p <= j < p - p % 4 + 4);
                    }
                }
            }
            assert(sec_has_nonzero == nonzero_in_group_from(ds@, p));
        }
        let ghost mid = out@;
        if within == 0 {
            if sec_has_nonzero {
                out.append(section_unit_str(section));
                sec_has_nonzero = false;
            }
        }
        assert(out@ =~= old_out + numeral_piece(ds@, pos as int));
        i = i + 1;
        assert(numeral_prefix(ds@, i as nat) == numeral_prefix(ds@, (i - 1) as nat)
            + numeral_piece(ds@, n - i));
    }
    out
}

/// An amount of `amount` millionths of a yuan, rounded to whole cents (half
/// away from zero), in capital numerals, e.g. 11051500000 is
/// "壹万壹仟零伍拾壹圆伍角整"; 负 before negative amounts.
pub fn to_chinese_yuan(amount: i64) -> (r: String)
    ensures
        r@ == chinese_yuan(round_to_cents(amount as int)),
{
    let cents = to_cents(amount);
    let negative = cents < 0;
    let c: u64 = if negative {
        (0i128 - cents as i128) as u64
    } else {
        cents as u64
    };
    assert(c as nat == abs_int(cents as int));
    let yuan = c / 100;
    let jiao = ((c / 10) % 10) as u8;
    let fen = (c % 10) as u8;
    let mut out = String::new();
    let ghost sign: Seq<char> = if negative {
        seq!['负']
    } else {
        seq![]
    };
    if negative {
        proof {
            reveal_strlit("负");
        }
        out.append("负");
    }
    assert(out@ =~= sign);
    if yuan == 0 {
        proof {
            reveal_strlit("零圆");
        }
        out.append("零圆");
    } else {
        let int_part = integer_to_chinese(yuan);
        out.append(int_part.as_str());
        proof {
            reveal_strlit("圆");
        }
        out.append("圆");
    }
    let ghost head = out@;
    if jiao == 0 && fen == 0 {
        proof {
            reveal_strlit("整");
        }
        out.append("整");
    } else {
        if jiao == 0 {
            proof {
                reveal_strlit("零");
            }
            out.append("零");
        }
        if jiao != 0 {
            out.append(cn_digit_str(jiao));
            proof {
                reveal_strlit("角");
            }
            out.append("角");
        }
        if fen != 0 {
            out.append(cn_digit_str(fen));
            proof {
                reveal_strlit("分");
            }
            out.append("分");
        } else {
            proof {
                reveal_strlit("整");
            }
            out.append("整");
        }
    }
    assert(out@ =~= chinese_yuan(cents as int));
    out
}

/// Every 零 in `s` is followed by a character other than 零: runs of zeros are
/// read once, and nothing ends on 零.
pub open spec fn zeros_merged(s: Seq<char>) -> bool {
    forall|i: int| 0 <= i < s.len() && #[trigger] s[i] == '零' ==> i + 1 < s.len() && s[i + 1] != '零'
}

proof fn lemma_zeros_merged_concat(a: Seq<char>, b: Seq<char>)
    requires
        zeros_merged(a),
        zeros_merged(b),
    ensures
        zeros_merged(a + b),
{
    let s = a + b;
    assert forall|i: int| 0 <= i < s.len() && #[trigger] s[i] == '零' implies i + 1 < s.len() && s[i + 1]
        != '零' by {
        if i < a.len() {
            assert(s[i] == a[i]);
            assert(s[i + 1] == a[i + 1]);
        } else {
            assert(s[i] == b[i - a.len()]);
            assert(s[i + 1] == b[i + 1 - a.len()]);
        }
    }
}

proof fn lemma_piece_zeros_merged(ds: Seq<u8>, pos: int)
    requires
        0 <= pos < ds.len(),
    ensures
        zeros_merged(numeral_piece(ds, pos)),
{
    let d = ds[pos];
    let unit = if pos % 4 == 0 && nonzero_in_group_from(ds, pos) {
        section_unit(pos / 4)
    } else {
        seq![]
    };
    assert(zeros_merged(unit));
    if d != 0 {
        let body = seq![cn_digit(d)] + place_unit(pos % 4);
        assert(cn_digit(d) != '零');
        assert(zeros_merged(body));
        assert(zeros_merged(seq!['零'] + body));
        let lead = if pos + 1 < ds.len() && ds[pos + 1] == 0 {
            seq!['零']
        } else {
            seq![]
        };
        assert(lead + seq![cn_digit(d)] + place_unit(pos % 4) =~= lead + body);
        if lead.len() == 0 {
            assert(lead + body =~= body);
        }
        lemma_zeros_merged_concat(lead + body, unit);
    } else {
        assert(numeral_piece(ds, pos) =~= seq![] + unit);
        assert(seq![] + unit =~= unit);
    }
}

proof fn lemma_prefix_zeros_merged(ds: Seq<u8>, k: nat)
    requires
        k <= ds.len(),
    ensures
        zeros_merged(numeral_prefix(ds, k)),
    decreases k,
{
    if k > 0 {
        lemma_prefix_zeros_merged(ds, (k - 1) as nat);
        lemma_piece_zeros_merged(ds, ds.len() - k);
        lemma_zeros_merged_concat(
            numeral_prefix(ds, (k - 1) as nat),
            numeral_piece(ds, ds.len() - k),
        );
    }
}

proof fn lemma_prefix_starts_with_top(ds: Seq<u8>, k: nat)
    requires
        1 <= k <= ds.len(),
        ds.last() != 0,
    ensures
        numeral_prefix(ds, k).len() > 0,
        numeral_prefix(ds, k)[0] == cn_digit(ds.last()),
    decreases k,
{
    if k == 1 {
        let p = ds.len() - 1;
        assert(numeral_prefix(ds, 0) =~= seq![]);
        assert(numeral_piece(ds, p)[0] == cn_digit(ds[p]));
    } else {
        lemma_prefix_starts_with_top(ds, (k - 1) as nat);
    }
}

/// Law: in the numeral of a whole number every run of zeros is read as a
/// single 零, there is no trailing 零, and a positive number's numeral starts
/// with the numeral of its leading digit, never with 零.
pub proof fn law_integer_zeros_merged(n: nat)
    ensures
        zeros_merged(chinese_integer(n)),
        n > 0 ==> chinese_integer(n).len() > 0 && chinese_integer(n)[0] != '零',
        n == 0 ==> chinese_integer(n) == Seq::<char>::empty(),
{
    lemma_dec_digits(n);
    let ds = dec_digits(n);
    lemma_prefix_zeros_merged(ds, ds.len());
    if n > 0 {
        lemma_prefix_starts_with_top(ds, ds.len());
        assert(cn_digit(ds.last()) != '零');
    }
}

/// Law: an amount with no 分 ends with 整, and one with 分 ends with 分.
pub proof fn law_yuan_ending(cents: int)
    ensures
        chinese_yuan(cents).len() > 0,
        abs_int(cents) % 10 == 0 ==> chinese_yuan(cents).last() == '整',
        abs_int(cents) % 10 != 0 ==> chinese_yuan(cents).last() == '分',
{
}

/// Law: a negative amount reads as 负 followed by the reading of its magnitude.
pub proof fn law_yuan_negative(cents: int)
    requires
        cents < 0,
    ensures
        chinese_yuan(cents) == seq!['负'] + chinese_yuan(-cents),
{
    assert(chinese_yuan(cents) =~= seq!['负'] + chinese_yuan(-cents));
}

/// Law: the reading of an amount of `cents` cents is its yuan (零圆, or the
/// numeral of the whole yuan and 圆) followed by: 整 with neither 角 nor 分;
/// 零, the 分 digit and 分 when there is no 角 but 分 (whatever the yuan);
/// the 角 digit, 角 and 整 with no 分; the 角 digit, 角, the 分 digit and 分.
pub proof fn law_yuan_jiao_fen(cents: int)
    requires
        cents >= 0,
    ensures
        ({
            let yuan = cents / 100;
            let jiao = (cents / 10) % 10;
            let fen = cents % 10;
            let head = if yuan == 0 {
                seq!['零', '圆']
            } else {
                chinese_integer(yuan as nat) + seq!['圆']
            };
            &&& (jiao == 0 && fen == 0 ==> chinese_yuan(cents) == head + seq!['整'])
            &&& (jiao == 0 && fen != 0 ==> chinese_yuan(cents) == head + seq!['零', cn_digit(fen as u8), '分'])
            &&& (jiao != 0 && fen == 0 ==> chinese_yuan(cents) == head + seq![cn_digit(jiao as u8), '角', '整'])
            &&& (jiao != 0 && fen != 0 ==> chinese_yuan(cents) == head + seq![
                cn_digit(jiao as u8),
                '角',
                cn_digit(fen as u8),
                '分',
            ])
        }),
{
    let yuan = cents / 100;
    let jiao = (cents / 10) % 10;
    let fen = cents % 10;
    let head = if yuan == 0 {
        seq!['零', '圆']
    } else {
        chinese_integer(yuan as nat) + seq!['圆']
    };
    assert(abs_int(cents) == cents);
    assert(seq![] + head =~= head);
    if jiao == 0 && fen != 0 {
        assert(seq!['零'] + seq![cn_digit(fen as u8), '分'] =~= seq!['零', cn_digit(fen as u8), '分']);
        assert(chinese_yuan(cents) =~= head + seq!['零', cn_digit(fen as u8), '分']);
    } else if jiao != 0 && fen == 0 {
        assert(seq![cn_digit(jiao as u8), '角'] + seq!['整'] =~= seq![cn_digit(jiao as u8), '角', '整']);
        assert(chinese_yuan(cents) =~= head + seq![cn_digit(jiao as u8), '角', '整']);
    } else if jiao != 0 && fen != 0 {
        assert(seq![cn_digit(jiao as u8), '角'] + seq![cn_digit(fen as u8), '分'] =~= seq![
            cn_digit(jiao as u8),
            '角',
            cn_digit(fen as u8),
            '分',
        ]);
        assert(chinese_yuan(cents) =~= head + seq![cn_digit(jiao as u8), '角', cn_digit(fen as u8), '分']);
    } else {
        assert(chinese_yuan(cents) =~= head + seq!['整']);
    }
}

} // verus!
