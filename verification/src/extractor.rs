//! Classification of invoice text and extraction of the amount.

use vstd::prelude::*;
use std::path::PathBuf;
use crate::invoice::{Invoice, Kind};
use crate::text::{
    compact, compact_text, contains_chars, has_substring, is_unicode_whitespace, is_white_space,
    lemma_compact_blank,
    lemma_compact_concat, text_chars, trim_end, trim_start,
};

verus! {

/// The kind of an invoice by its text, ignoring whitespace, by priority:
/// a railway e-ticket (铁路电子客票); lodging (住宿, or a hotel 酒店 as seller);
/// passenger transport (客运服务费, 滴滴, or 交通运输服务); else other.
pub open spec fn kind_of(text: Seq<char>) -> Kind {
    let t = compact_text(text);
    if has_substring(t, seq!['铁', '路', '电', '子', '客', '票']) {
        Kind::Train
    } else if has_substring(t, seq!['住', '宿']) || has_substring(t, seq!['酒', '店']) {
        Kind::Hotel
    } else if has_substring(t, seq!['客', '运', '服', '务', '费']) || has_substring(
        t,
        seq!['滴', '滴'],
    ) || has_substring(t, seq!['交', '通', '运', '输', '服', '务']) {
        Kind::Taxi
    } else {
        Kind::Other
    }
}

/// Classifies an invoice by its text.
pub fn classify(text: &str) -> (k: Kind)
    ensures
        k == kind_of(text@),
{
    let t = compact(text);
    let railway: [char; 6] = ['铁', '路', '电', '子', '客', '票'];
    let lodging: [char; 2] = ['住', '宿'];
    let hotel: [char; 2] = ['酒', '店'];
    let passenger: [char; 5] = ['客', '运', '服', '务', '费'];
    let didi: [char; 2] = ['滴', '滴'];
    let transport: [char; 6] = ['交', '通', '运', '输', '服', '务'];
    assert(railway@ =~= seq!['铁', '路', '电', '子', '客', '票']);
    assert(lodging@ =~= seq!['住', '宿']);
    assert(hotel@ =~= seq!['酒', '店']);
    assert(passenger@ =~= seq!['客', '运', '服', '务', '费']);
    assert(didi@ =~= seq!['滴', '滴']);
    assert(transport@ =~= seq!['交', '通', '运', '输', '服', '务']);
    if contains_chars(&t, &railway) {
        Kind::Train
    } else if contains_chars(&t, &lodging) || contains_chars(&t, &hotel) {
        Kind::Hotel
    } else if contains_chars(&t, &passenger) || contains_chars(&t, &didi) || contains_chars(
        &t,
        &transport,
    ) {
        Kind::Taxi
    } else {
        Kind::Other
    }
}

/// The regex class `\d`: the characters of Unicode general category Nd.
pub uninterp spec fn regex_digit(c: char) -> bool;

pub open spec fn is_ascii_digit(c: char) -> bool {
    0x30 <= (c as u32) <= 0x39
}

/// Asks the `regex` crate, for each character of `t`, whether it is in the
/// class `\d` (`\p{Nd}`, the Unicode decimal digits): the pattern `^\d$`,
/// compiled once, matched with `Regex::is_match` against each character
/// alone. The contract claims one answer per character, each the class's
/// answer for that character alone (named `regex_digit`), and of the class
/// only what its ASCII part is: the digits `0`-`9` and no other ASCII
/// character; the rest of the Unicode table is left unsaid.
#[verifier::external_body]
fn regex_digit_flags(t: &[char]) -> (r: Vec<bool>)
    ensures
        r@.len() == t@.len(),
        forall|i: int| 0 <= i < t@.len() ==> #[trigger] r@[i] == regex_digit(t@[i]),
        forall|i: int| 0 <= i < t@.len() && is_ascii_digit(t@[i]) ==> #[trigger] r@[i],
        forall|i: int|
            0 <= i < t@.len() && (t@[i] as u32) < 0x80 && !is_ascii_digit(t@[i]) ==> !#[trigger] r@[i],
{
    let class = regex::Regex::new(r"^\d$").unwrap();
    t.iter().map(|c| class.is_match(c.encode_utf8(&mut [0u8; 4]))).collect()
}

pub open spec fn is_yuan_sign(c: char) -> bool {
    c == '￥' || c == '¥'
}

/// The end of the run of `\d` characters that starts at `i`.
pub open spec fn digit_run_end(d: Seq<bool>, i: int) -> int
    decreases d.len() - i,
{
    if 0 <= i < d.len() && d[i] {
        digit_run_end(d, i + 1)
    } else {
        i
    }
}

/// The end of the number `\d+(?:\.\d+)?` taken greedily from `s`.
pub open spec fn number_end(t: Seq<char>, d: Seq<bool>, s: int) -> int {
    let e = digit_run_end(d, s);
    if e + 1 < t.len() && t[e] == '.' && d[e + 1] {
        digit_run_end(d, e + 1)
    } else {
        e
    }
}

pub open spec fn all_ascii_digits(s: Seq<char>) -> bool {
    forall|i: int| 0 <= i < s.len() ==> is_ascii_digit(#[trigger] s[i])
}

pub open spec fn digit_value(c: char) -> nat {
    ((c as u32) - 0x30) as nat
}

/// The value of a run of decimal digits.
pub open spec fn digits_value(s: Seq<char>) -> nat
    decreases s.len(),
{
    if s.len() == 0 {
        0
    } else {
        digits_value(s.drop_last()) * 10 + digit_value(s.last())
    }
}

/// The first six digits of a fraction, padded with zeros.
pub open spec fn frac_digits6(f: Seq<char>) -> Seq<char> {
    Seq::new(6, |k: int| if k < f.len() { f[k] } else { '0' })
}

/// A fraction's digits in millionths, rounded half up on the seventh digit.
pub open spec fn frac_units(f: Seq<char>) -> nat {
    digits_value(frac_digits6(f)) + (if f.len() > 6 && digit_value(f[6]) >= 5 {
        1nat
    } else {
        0nat
    })
}

/// The number that starts at `s`, in millionths of a yuan rounded half up;
/// none when one of its digits is not an ASCII digit (such a number does
/// not parse).
pub open spec fn number_units(t: Seq<char>, d: Seq<bool>, s: int) -> Option<int> {
    let e1 = digit_run_end(d, s);
    let e = number_end(t, d, s);
    let ip = t.subrange(s, e1);
    let fp = if e > e1 {
        t.subrange(e1 + 1, e)
    } else {
        seq![]
    };
    if all_ascii_digits(ip) && all_ascii_digits(fp) {
        Some((digits_value(ip) * 1000000 + frac_units(fp)) as int)
    } else {
        None
    }
}

/// An amount that fits in `i64`; larger ones count as unparsed.
pub open spec fn fit_i64(v: Option<int>) -> Option<int> {
    match v {
        Some(x) => if x <= i64::MAX {
            Some(x)
        } else {
            None
        },
        None => None,
    }
}

pub open spec fn opt_int(v: Option<i64>) -> Option<int> {
    match v {
        Some(x) => Some(x as int),
        None => None,
    }
}

/// `票价`, a colon, a yuan sign and a digit start at `i`.
pub open spec fn train_price_at(t: Seq<char>, d: Seq<bool>, i: int) -> bool {
    &&& 0 <= i
    &&& i + 4 < t.len()
    &&& t[i] == '票'
    &&& t[i + 1] == '价'
    &&& (t[i + 2] == '：' || t[i + 2] == ':')
    &&& is_yuan_sign(t[i + 3])
    &&& d[i + 4]
}

/// The first position from `i` on where a ticket price starts.
pub open spec fn first_train_price(t: Seq<char>, d: Seq<bool>, i: int) -> Option<int>
    decreases t.len() - i,
{
    if i < 0 || i >= t.len() {
        None
    } else if train_price_at(t, d, i) {
        Some(i)
    } else {
        first_train_price(t, d, i + 1)
    }
}

/// The price of a railway ticket: the number after the first `票价：￥`.
pub open spec fn train_amount(t: Seq<char>, d: Seq<bool>) -> Option<int> {
    match first_train_price(t, d, 0) {
        Some(i) => fit_i64(number_units(t, d, i + 4)),
        None => None,
    }
}

/// A yuan sign followed by `\d+\.\d+` starts at `i`.
pub open spec fn amount_at(t: Seq<char>, d: Seq<bool>, i: int) -> bool {
    &&& 0 <= i
    &&& i + 1 < t.len()
    &&& is_yuan_sign(t[i])
    &&& d[i + 1]
    &&& {
        let e = digit_run_end(d, i + 1);
        e + 1 < t.len() && t[e] == '.' && d[e + 1]
    }
}

/// The amount that starts at `i`, if one does and parses.
pub open spec fn amount_candidate(t: Seq<char>, d: Seq<bool>, i: int) -> Option<int> {
    if amount_at(t, d, i) {
        fit_i64(number_units(t, d, i + 1))
    } else {
        None
    }
}

pub open spec fn max_option(a: Option<int>, b: Option<int>) -> Option<int> {
    match (a, b) {
        (Some(x), Some(y)) => Some(if x >= y {
            x
        } else {
            y
        }),
        (Some(x), None) => Some(x),
        (None, y) => y,
    }
}

/// The largest amount that starts before position `k`.
pub open spec fn max_amount_upto(t: Seq<char>, d: Seq<bool>, k: nat) -> Option<int>
    decreases k,
{
    if k == 0 {
        None
    } else {
        max_option(max_amount_upto(t, d, (k - 1) as nat), amount_candidate(t, d, k - 1))
    }
}

/// Whether each character of `t` is in the regex class `\d`.
pub open spec fn digit_flags(t: Seq<char>) -> Seq<bool> {
    Seq::new(t.len(), |i: int| regex_digit(t[i]))
}

/// The amount, in millionths of a yuan, of an invoice of kind `kind` whose text without
/// whitespace is `t`, where `d` tells which characters of `t` are in the
/// regex class `\d`: a ticket's price for a railway ticket, else the largest
/// amount on it (the total including tax).
pub open spec fn amount_in(kind: Kind, t: Seq<char>, d: Seq<bool>) -> Option<int> {
    if kind == Kind::Train {
        train_amount(t, d)
    } else {
        max_amount_upto(t, d, t.len())
    }
}

/// The amount of an invoice, in millionths of a yuan, from its text.
pub open spec fn amount_of(kind: Kind, text: Seq<char>) -> Option<int> {
    let t = compact_text(text);
    amount_in(kind, t, digit_flags(t))
}

fn digit_run_end_exec(d: &Vec<bool>, i: usize) -> (e: usize)
    requires
        i <= d@.len(),
    ensures
        e == digit_run_end(d@, i as int),
        i <= e <= d@.len(),
{
    let n = d.len();
    let mut j = i;
    loop
        invariant
            i <= j <= n,
            n == d@.len(),
            digit_run_end(d@, i as int) == digit_run_end(d@, j as int),
        ensures
            i <= j <= n,
            digit_run_end(d@, i as int) == j,
        decreases n - j,
    {
        if j >= n {
            break ;
        }
        if !d[j] {
            break ;
        }
        j = j + 1;
    }
    j
}

proof fn lemma_digit_run_end_ge(d: Seq<bool>, i: int)
    requires
        0 <= i,
    ensures
        i <= digit_run_end(d, i),
        digit_run_end(d, i) <= if i <= d.len() { d.len() as int } else { i },
    decreases d.len() - i,
{
    if 0 <= i < d.len() && d[i] {
        lemma_digit_run_end_ge(d, i + 1);
    }
}

proof fn lemma_digits_value_prefix(s: Seq<char>, k: int)
    requires
        0 <= k <= s.len(),
    ensures
        digits_value(s.take(k)) <= digits_value(s),
    decreases s.len(),
{
    if k < s.len() {
        lemma_digits_value_prefix(s.drop_last(), k);
        assert(s.drop_last().take(k) =~= s.take(k));
    } else {
        assert(s.take(k) =~= s);
    }
}

pub open spec fn pow_ten(k: nat) -> int
    decreases k,
{
    if k == 0 {
        1
    } else {
        10 * pow_ten((k - 1) as nat)
    }
}

fn ascii_digit_value(c: char) -> (r: i64)
    requires
        is_ascii_digit(c),
    ensures
        r == digit_value(c),
        0 <= r <= 9,
{
    ((c as u32) - 0x30) as i64
}

/// The number that starts at `s`, in millionths of a yuan, if it parses and fits.
#[verifier::loop_isolation(false)]
fn number_units_exec(t: &Vec<char>, d: &Vec<bool>, s: usize) -> (r: Option<i64>)
    requires
        s <= t@.len(),
        d@.len() == t@.len(),
    ensures
        opt_int(r) == fit_i64(number_units(t@, d@, s as int)),
{
    let e1 = digit_run_end_exec(d, s);
    let has_frac = e1 < t.len() && e1 + 1 < t.len() && t[e1] == '.' && d[e1 + 1];
    let e = if has_frac {
        digit_run_end_exec(d, e1 + 1)
    } else {
        e1
    };
    let ghost ip = t@.subrange(s as int, e1 as int);
    let ghost fp = if e > e1 {
        t@.subrange(e1 + 1, e as int)
    } else {
        seq![]
    };
    assert(e == number_end(t@, d@, s as int));
    proof {
        if has_frac {
            lemma_digit_run_end_ge(d@, e1 + 2);
            assert(digit_run_end(d@, e1 + 1) == digit_run_end(d@, e1 + 2));
        }
    }
    assert(has_frac ==> e >= e1 + 2);
    // every digit must be an ASCII digit
    let mut k = s;
    while k < e1
        invariant
            s <= k <= e1,
            e1 <= t@.len(),
            ip == t@.subrange(s as int, e1 as int),
            forall|j: int| s <= j < k ==> is_ascii_digit(t@[j]),
        decreases e1 - k,
    {
        if !(0x30 <= (t[k] as u32) && (t[k] as u32) <= 0x39) {
            assert(ip[k - s] == t@[k as int]);
            return None;
        }
        k = k + 1;
    }
    assert(all_ascii_digits(ip)) by {
        assert forall|j: int| 0 <= j < ip.len() implies is_ascii_digit(#[trigger] ip[j]) by {
            assert(ip[j] == t@[s + j]);
        }
    }
    if has_frac {
        let mut k = e1 + 1;
        while k < e
            invariant
                e1 + 1 <= k <= e,
                e <= t@.len(),
                fp == t@.subrange(e1 + 1, e as int),
                forall|j: int| e1 + 1 <= j < k ==> is_ascii_digit(t@[j]),
            decreases e - k,
        {
            if !(0x30 <= (t[k] as u32) && (t[k] as u32) <= 0x39) {
                assert(fp[k - e1 - 1] == t@[k as int]);
                return None;
            }
            k = k + 1;
        }
        assert(all_ascii_digits(fp)) by {
            assert forall|j: int| 0 <= j < fp.len() implies is_ascii_digit(#[trigger] fp[j]) by {
                assert(fp[j] == t@[e1 + 1 + j]);
            }
        }
    } else {
        assert(all_ascii_digits(fp));
    }
    // the whole part
    let mut v: i64 = 0;
    let mut k = s;
    while k < e1
        invariant
            s <= k <= e1,
            e1 <= t@.len(),
            ip == t@.subrange(s as int, e1 as int),
            all_ascii_digits(ip),
            v == digits_value(t@.subrange(s as int, k as int)),
        decreases e1 - k,
    {
        assert(ip[k - s] == t@[k as int]);
        let d = ascii_digit_value(t[k]);
        let ghost next = t@.subrange(s as int, k + 1);
        assert(next.drop_last() =~= t@.subrange(s as int, k as int));
        assert(ip.take(k + 1 - s) =~= next);
        proof {
            lemma_digits_value_prefix(ip, k + 1 - s);
        }
        let m = v.checked_mul(10);
        if m.is_none() {
            return None;
        }
        let w = m.unwrap().checked_add(d);
        if w.is_none() {
            return None;
        }
        v = w.unwrap();
        k = k + 1;
    }
    assert(t@.subrange(s as int, e1 as int) == ip);
    // the fraction, in millionths
    let mut f: i64 = 0;
    let mut j: usize = 0;
    let ghost f6 = frac_digits6(fp);
    while j < 6
        invariant
            j <= 6,
            0 <= f < 1000000,
            f < pow_ten(j as nat),
            f == digits_value(f6.take(j as int)),
            f6 == frac_digits6(fp),
            all_ascii_digits(fp),
            fp.len() == e - (if has_frac { e1 + 1 } else { e as int }),
            has_frac ==> fp == t@.subrange(e1 + 1, e as int),
            e <= t@.len(),
        decreases 6 - j,
    {
        let mut dj: i64 = 0;
        if has_frac && e - e1 - 1 > j {
            assert(fp[j as int] == t@[e1 + 1 + j]);
            assert(is_ascii_digit(fp[j as int]));
            dj = ascii_digit_value(t[e1 + 1 + j]);
        }
        assert(f6[j as int] == if (j as int) < fp.len() { fp[j as int] } else { '0' });
        assert(dj == digit_value(f6[j as int]));
        assert(f6.take(j + 1).drop_last() =~= f6.take(j as int));
        assert(f * 10 + dj < pow_ten((j + 1) as nat)) by (nonlinear_arith)
            requires
                f < pow_ten(j as nat),
                0 <= dj <= 9,
                pow_ten((j + 1) as nat) == 10 * pow_ten(j as nat),
        ;
        proof {
            reveal_with_fuel(pow_ten, 7);
            if j == 0 {
            } else if j == 1 {
            } else if j == 2 {
            } else if j == 3 {
            } else if j == 4 {
            } else {
                assert(j == 5);
            }
            assert(pow_ten((j + 1) as nat) <= 1000000);
        }
        f = f * 10 + dj;
        j = j + 1;
    }
    assert(f6.take(6) =~= f6);
    if has_frac && e - e1 - 1 > 6 {
        assert(fp[6] == t@[e1 + 7]);
        if ascii_digit_value(t[e1 + 7]) >= 5 {
            f = f + 1;
        }
    }
    assert(f == frac_units(fp));
    let c = v.checked_mul(1000000);
    if c.is_none() {
        return None;
    }
    let total = c.unwrap().checked_add(f);
    if total.is_none() {
        return None;
    }
    Some(total.unwrap())
}

fn train_price_at_exec(t: &Vec<char>, d: &Vec<bool>, i: usize) -> (r: bool)
    requires
        i < t@.len(),
        d@.len() == t@.len(),
    ensures
        r == train_price_at(t@, d@, i as int),
{
    if t.len() - i <= 4 {
        return false;
    }
    t[i] == '票' && t[i + 1] == '价' && (t[i + 2] == '：' || t[i + 2] == ':') && (t[i + 3] == '￥'
        || t[i + 3] == '¥') && d[i + 4]
}

fn amount_at_exec(t: &Vec<char>, d: &Vec<bool>, i: usize) -> (r: bool)
    requires
        i < t@.len(),
        d@.len() == t@.len(),
    ensures
        r == amount_at(t@, d@, i as int),
{
    if t.len() - i <= 1 {
        return false;
    }
    if !(t[i] == '￥' || t[i] == '¥') || !d[i + 1] {
        return false;
    }
    let e = digit_run_end_exec(d, i + 1);
    e < t.len() && e + 1 < t.len() && t[e] == '.' && d[e + 1]
}

fn max_opt(a: Option<i64>, b: Option<i64>) -> (r: Option<i64>)
    ensures
        opt_int(r) == max_option(opt_int(a), opt_int(b)),
{
    match (a, b) {
        (Some(x), Some(y)) => Some(
            if x >= y {
                x
            } else {
                y
            },
        ),
        (Some(x), None) => Some(x),
        (None, y) => y,
    }
}

/// The amount, in millionths of a yuan, of an invoice of kind `kind` whose text without
/// whitespace is `t`, where `digits[i]` tells whether `t[i]` is in the regex
/// class `\d`: for a railway ticket the number after the first `票价：￥`,
/// else the largest `￥` amount with decimals; none when there is none that
/// parses (into `i64`).
pub fn amount_in_text(kind: Kind, t: &Vec<char>, digits: &Vec<bool>) -> (r: Option<i64>)
    requires
        digits@.len() == t@.len(),
    ensures
        opt_int(r) == amount_in(kind, t@, digits@),
{
    let n = t.len();
    if kind.is_train() {
        let mut i: usize = 0;
        while i < n
            invariant
                n == t@.len(),
                digits@.len() == n,
                kind == Kind::Train,
                i <= n,
                first_train_price(t@, digits@, 0) == first_train_price(t@, digits@, i as int),
            decreases n - i,
        {
            if train_price_at_exec(t, digits, i) {
                assert(first_train_price(t@, digits@, i as int) == Some(i as int));
                return number_units_exec(t, digits, i + 4);
            }
            i = i + 1;
        }
        None
    } else {
        let mut best: Option<i64> = None;
        let mut i: usize = 0;
        while i < n
            invariant
                n == t@.len(),
                digits@.len() == n,
                i <= n,
                opt_int(best) == max_amount_upto(t@, digits@, i as nat),
            decreases n - i,
        {
            let mut candidate: Option<i64> = None;
            if amount_at_exec(t, digits, i) {
                candidate = number_units_exec(t, digits, i + 1);
            }
            best = max_opt(best, candidate);
            i = i + 1;
        }
        best
    }
}

/// The amount of an invoice of kind `kind` from its text, in millionths of a
/// yuan: for a
/// railway ticket the number after the first `票价：￥`, else the largest
/// `￥` amount with decimals on it; none when there is none that parses.
pub fn parse_amount(kind: Kind, text: &str) -> (r: Option<i64>)
    ensures
        opt_int(r) == amount_of(kind, text@),
{
    let t = compact(text);
    let digits = regex_digit_flags(t.as_slice());
    assert(digits@ =~= digit_flags(t@));
    amount_in_text(kind, &t, &digits)
}

/// Whether the text extracted from a page, trimmed of whitespace, has more
/// than eight characters; shorter text is taken as a failed extraction.
pub fn has_enough_text(text: &str) -> (r: bool)
    ensures
        r == (trim_end(trim_start(text@)).len() > 8),
{
    let chars = text_chars(text);
    let n = chars.len();
    let mut a: usize = 0;
    assert(chars@.subrange(0, n as int) =~= chars@);
    while a < n && is_unicode_whitespace(chars[a])
        invariant
            chars@ == text@,
            n == chars@.len(),
            a <= n,
            trim_start(text@) == trim_start(chars@.subrange(a as int, n as int)),
        decreases n - a,
    {
        assert(chars@.subrange(a as int, n as int).drop_first() =~= chars@.subrange(
            a + 1,
            n as int,
        ));
        a = a + 1;
    }
    let ghost rest = chars@.subrange(a as int, n as int);
    assert(trim_start(rest) == rest);
    let mut b: usize = n;
    while b > a && is_unicode_whitespace(chars[b - 1])
        invariant
            chars@ == text@,
            n == chars@.len(),
            a <= b <= n,
            trim_start(text@) == rest,
            rest == chars@.subrange(a as int, n as int),
            trim_end(rest) == trim_end(chars@.subrange(a as int, b as int)),
        decreases b - a,
    {
        assert(chars@.subrange(a as int, b as int).drop_last() =~= chars@.subrange(
            a as int,
            b - 1,
        ));
        b = b - 1;
    }
    assert(trim_end(chars@.subrange(a as int, b as int)) == chars@.subrange(a as int, b as int));
    b - a > 8
}

/// The invoice read from the PDF at `path`, whose first page has the text
/// `text`: its kind, and its amount in millionths of a yuan (0, and marked
/// unknown, when
/// none parses).
pub fn extract(path: PathBuf, text: &str) -> (inv: Invoice)
    ensures
        inv.path == path,
        inv.kind == kind_of(text@),
        inv.amount == match amount_of(kind_of(text@), text@) {
            Some(v) => v,
            None => 0,
        },
        inv.amount_known == amount_of(kind_of(text@), text@) is Some,
{
    let kind = classify(text);
    match parse_amount(kind, text) {
        Some(v) => Invoice { path, kind, amount: v, amount_known: true },
        None => Invoice { path, kind, amount: 0, amount_known: false },
    }
}

/// Law: whitespace inserted anywhere in an invoice's text (PDF extraction
/// often breaks words over lines) changes neither its kind nor its amount.
pub proof fn law_whitespace_ignored(a: Seq<char>, w: Seq<char>, b: Seq<char>, kind: Kind)
    requires
        forall|i: int| 0 <= i < w.len() ==> is_white_space(#[trigger] w[i]),
    ensures
        kind_of(a + w + b) == kind_of(a + b),
        amount_of(kind, a + w + b) == amount_of(kind, a + b),
{
    lemma_compact_concat(a + w, b);
    lemma_compact_concat(a, w);
    lemma_compact_concat(a, b);
    lemma_compact_blank(w);
    assert(compact_text(a) + Seq::<char>::empty() =~= compact_text(a));
    assert(compact_text(a + w + b) == compact_text(a + b));
}

proof fn lemma_max_amount_upto(t: Seq<char>, d: Seq<bool>, k: nat)
    requires
        k <= t.len(),
    ensures
        max_amount_upto(t, d, k) matches Some(m) ==> exists|i: int|
            0 <= i < k && #[trigger] amount_candidate(t, d, i) == Some(m),
        forall|i: int|
            0 <= i < k && #[trigger] amount_candidate(t, d, i) is Some ==> max_amount_upto(t, d, k) is Some
                && max_amount_upto(t, d, k)->0 >= amount_candidate(t, d, i)->0,
    decreases k,
{
    if k > 0 {
        lemma_max_amount_upto(t, d, (k - 1) as nat);
        let prev = max_amount_upto(t, d, (k - 1) as nat);
        let c = amount_candidate(t, d, k - 1);
        if let Some(m) = max_amount_upto(t, d, k) {
            if c == Some(m) {
                assert(amount_candidate(t, d, k - 1) == Some(m));
            } else {
                assert(prev == Some(m));
            }
        }
    }
}

/// Law: the amount of an invoice other than a railway ticket is the largest
/// amount found on it: it is one of the amounts on it, no amount on it is
/// larger, and there is none only when no amount on it parses.
pub proof fn law_largest_amount(kind: Kind, t: Seq<char>, d: Seq<bool>)
    requires
        kind != Kind::Train,
    ensures
        amount_in(kind, t, d) matches Some(m) ==> exists|i: int|
            0 <= i < t.len() && #[trigger] amount_candidate(t, d, i) == Some(m),
        forall|i: int|
            0 <= i < t.len() && #[trigger] amount_candidate(t, d, i) is Some ==> amount_in(kind, t, d) is Some
                && amount_in(kind, t, d)->0 >= amount_candidate(t, d, i)->0,
{
    lemma_max_amount_upto(t, d, t.len());
}

/// Law: a railway ticket's amount is read at the first ticket price on it:
/// the first position that holds `票价：￥` and a digit, if any, and the
/// amount is then the number at that position; there is none without one.
pub proof fn law_first_ticket_price(t: Seq<char>, d: Seq<bool>)
    ensures
        first_train_price(t, d, 0) matches Some(i) ==> {
            &&& train_price_at(t, d, i)
            &&& forall|j: int| 0 <= j < i ==> !#[trigger] train_price_at(t, d, j)
            &&& amount_in(Kind::Train, t, d) == fit_i64(number_units(t, d, i + 4))
        },
        first_train_price(t, d, 0) is None ==> amount_in(Kind::Train, t, d) is None && forall|j: int|
            0 <= j < t.len() ==> !#[trigger] train_price_at(t, d, j),
{
    lemma_first_train_price(t, d, 0);
}

proof fn lemma_first_train_price(t: Seq<char>, d: Seq<bool>, from: int)
    requires
        0 <= from <= t.len(),
    ensures
        first_train_price(t, d, from) matches Some(i) ==> {
            &&& from <= i < t.len()
            &&& train_price_at(t, d, i)
            &&& forall|j: int| from <= j < i ==> !#[trigger] train_price_at(t, d, j)
        },
        first_train_price(t, d, from) is None ==> forall|j: int|
            from <= j < t.len() ==> !#[trigger] train_price_at(t, d, j),
    decreases t.len() - from,
{
    if from < t.len() && !train_price_at(t, d, from) {
        lemma_first_train_price(t, d, from + 1);
    }
}

/// The characters of `kw` stand in `t` one after another from position `i`.
pub open spec fn occurs_at(t: Seq<char>, kw: Seq<char>, i: int) -> bool {
    0 <= i && i + kw.len() <= t.len() && forall|j: int| 0 <= j < kw.len() ==> t[i + j] == #[trigger] kw[j]
}

/// `kw` occurs in `t` starting at some position.
pub open spec fn occurs(t: Seq<char>, kw: Seq<char>) -> bool {
    exists|i: int| #[trigger] occurs_at(t, kw, i)
}

proof fn lemma_occurs(t: Seq<char>, kw: Seq<char>)
    ensures
        occurs(t, kw) <==> has_substring(t, kw),
{
    if occurs(t, kw) {
        let i = choose|i: int| #[trigger] occurs_at(t, kw, i);
        assert(t.subrange(i, i + kw.len()) =~= kw);
    }
    if has_substring(t, kw) {
        let i = choose|i: int| 0 <= i && i + kw.len() <= t.len() && #[trigger] t.subrange(i, i + kw.len()) == kw;
        assert forall|j: int| 0 <= j < kw.len() implies t[i + j] == #[trigger] kw[j] by {
            assert(t.subrange(i, i + kw.len())[j] == t[i + j]);
        }
        assert(occurs_at(t, kw, i));
    }
}

/// Law: the kind of an invoice is decided by keywords of its text without
/// whitespace: a railway ticket exactly when 铁路电子客票 occurs; else lodging
/// exactly when 住宿 or 酒店 occurs; else passenger transport exactly when
/// 客运服务费, 滴滴 or 交通运输服务 occurs; other exactly when none of them does.
pub proof fn law_kind_keywords(text: Seq<char>)
    ensures
        ({
            let t = compact_text(text);
            let railway = occurs(t, seq!['铁', '路', '电', '子', '客', '票']);
            let lodging = occurs(t, seq!['住', '宿']) || occurs(t, seq!['酒', '店']);
            let transport = occurs(t, seq!['客', '运', '服', '务', '费']) || occurs(t, seq!['滴', '滴'])
                || occurs(t, seq!['交', '通', '运', '输', '服', '务']);
            &&& (kind_of(text) == Kind::Train <==> railway)
            &&& (kind_of(text) == Kind::Hotel <==> !railway && lodging)
            &&& (kind_of(text) == Kind::Taxi <==> !railway && !lodging && transport)
            &&& (kind_of(text) == Kind::Other <==> !railway && !lodging && !transport)
        }),
{
    let t = compact_text(text);
    lemma_occurs(t, seq!['铁', '路', '电', '子', '客', '票']);
    lemma_occurs(t, seq!['住', '宿']);
    lemma_occurs(t, seq!['酒', '店']);
    lemma_occurs(t, seq!['客', '运', '服', '务', '费']);
    lemma_occurs(t, seq!['滴', '滴']);
    lemma_occurs(t, seq!['交', '通', '运', '输', '服', '务']);
}

proof fn lemma_run_end_at(d: Seq<bool>, s: int, e: int)
    requires
        0 <= s <= e <= d.len(),
        forall|j: int| s <= j < e ==> #[trigger] d[j],
        e == d.len() || !d[e],
    ensures
        digit_run_end(d, s) == e,
    decreases e - s,
{
    if s < e {
        lemma_run_end_at(d, s + 1, e);
    }
}

/// Law: a yuan sign followed by ASCII digits, a point and ASCII digits is an
/// amount on the invoice, whatever the number of its digits: its value in
/// millionths of a yuan (the fraction rounded half up on the seventh digit)
/// is found there when it fits in `i64`, and the amount of any invoice other
/// than a railway ticket is at least that value.
pub proof fn law_every_amount_counts(kind: Kind, t: Seq<char>, d: Seq<bool>, i: int, e: int, f: int)
    requires
        kind != Kind::Train,
        t.len() == d.len(),
        0 <= i,
        i + 1 < e,
        e + 1 < f <= t.len(),
        is_yuan_sign(t[i]),
        forall|j: int| i < j < e ==> #[trigger] d[j] && is_ascii_digit(t[j]),
        t[e] == '.',
        !d[e],
        forall|j: int| e < j < f ==> #[trigger] d[j] && is_ascii_digit(t[j]),
        f == t.len() || !d[f],
        digits_value(t.subrange(i + 1, e)) * 1000000 + frac_units(t.subrange(e + 1, f)) <= i64::MAX,
    ensures
        ({
            let v = (digits_value(t.subrange(i + 1, e)) * 1000000 + frac_units(t.subrange(e + 1, f))) as int;
            &&& amount_candidate(t, d, i) == Some(v)
            &&& amount_in(kind, t, d) is Some
            &&& amount_in(kind, t, d)->0 >= v
        }),
{
    lemma_run_end_at(d, i + 1, e);
    lemma_run_end_at(d, e + 1, f);
    assert(d[i + 1]);
    assert(d[e + 1]);
    let ip = t.subrange(i + 1, e);
    let fp = t.subrange(e + 1, f);
    assert(all_ascii_digits(ip)) by {
        assert forall|k: int| 0 <= k < ip.len() implies is_ascii_digit(#[trigger] ip[k]) by {
            assert(ip[k] == t[i + 1 + k]);
            assert(d[i + 1 + k]);
        }
    }
    assert(all_ascii_digits(fp)) by {
        assert forall|k: int| 0 <= k < fp.len() implies is_ascii_digit(#[trigger] fp[k]) by {
            assert(fp[k] == t[e + 1 + k]);
            assert(d[e + 1 + k]);
        }
    }
    assert(number_end(t, d, i + 1) == f);
    assert(amount_at(t, d, i));
    law_largest_amount(kind, t, d);
}

/// `票价`, a colon (full or half width), a yuan sign and a `\\d` character
/// stand at `i`.
pub open spec fn ticket_price_pattern(t: Seq<char>, d: Seq<bool>, i: int) -> bool {
    0 <= i && i + 4 < t.len() && i + 4 < d.len() && t[i] == '票' && t[i + 1] == '价' && (t[i + 2] == '：'
        || t[i + 2] == ':') && (t[i + 3] == '￥' || t[i + 3] == '¥') && d[i + 4]
}

/// Law: a railway ticket's amount is the number after its first
/// `票价：￥`, digits then optionally a point and digits, in millionths of a
/// yuan (the fraction rounded half up on the seventh digit), when all its
/// digits are ASCII and it fits in `i64`; there is none without such a price.
pub proof fn law_ticket_price_value(t: Seq<char>, d: Seq<bool>, i: int, e: int, f: int)
    requires
        t.len() == d.len(),
        ticket_price_pattern(t, d, i),
        forall|j: int| 0 <= j < i ==> !#[trigger] ticket_price_pattern(t, d, j),
        i + 4 < e <= f <= t.len(),
        forall|j: int| i + 4 <= j < e ==> #[trigger] d[j] && is_ascii_digit(t[j]),
        e == t.len() || !d[e],
        f == e || (t[e] == '.' && e + 1 < f),
        forall|j: int| e < j < f ==> #[trigger] d[j] && is_ascii_digit(t[j]),
        f == e ==> e + 1 >= t.len() || t[e] != '.' || !d[e + 1],
        f == t.len() || !d[f],
        digits_value(t.subrange(i + 4, e)) * 1000000 + (if f > e {
            frac_units(t.subrange(e + 1, f))
        } else {
            0nat
        }) <= i64::MAX,
    ensures
        amount_in(Kind::Train, t, d) == Some(
            (digits_value(t.subrange(i + 4, e)) * 1000000 + (if f > e {
                frac_units(t.subrange(e + 1, f))
            } else {
                0nat
            })) as int,
        ),
{
    assert forall|j: int| 0 <= j < t.len() implies #[trigger] train_price_at(t, d, j)
        == ticket_price_pattern(t, d, j) by {}
    lemma_first_train_price(t, d, 0);
    if let Some(k) = first_train_price(t, d, 0) {
        assert(train_price_at(t, d, i));
        assert(k <= i);
        if k < i {
            assert(ticket_price_pattern(t, d, k));
        }
    } else {
        assert(train_price_at(t, d, i));
    }
    assert(first_train_price(t, d, 0) == Some(i));
    lemma_run_end_at(d, i + 4, e);
    let ip = t.subrange(i + 4, e);
    assert(all_ascii_digits(ip)) by {
        assert forall|k: int| 0 <= k < ip.len() implies is_ascii_digit(#[trigger] ip[k]) by {
            assert(ip[k] == t[i + 4 + k]);
            assert(d[i + 4 + k]);
        }
    }
    if f > e {
        lemma_run_end_at(d, e + 1, f);
        assert(d[e + 1]);
        let fp = t.subrange(e + 1, f);
        assert(all_ascii_digits(fp)) by {
            assert forall|k: int| 0 <= k < fp.len() implies is_ascii_digit(#[trigger] fp[k]) by {
                assert(fp[k] == t[e + 1 + k]);
                assert(d[e + 1 + k]);
            }
        }
        assert(number_end(t, d, i + 4) == f);
    } else {
        assert(number_end(t, d, i + 4) == e);
        assert(all_ascii_digits(Seq::<char>::empty()));
        let z = frac_digits6(Seq::<char>::empty());
        assert(z =~= seq!['0', '0', '0', '0', '0', '0']);
        assert(digit_value('0') == 0);
        assert(z.drop_last() =~= seq!['0', '0', '0', '0', '0']);
        assert(z.drop_last().drop_last() =~= seq!['0', '0', '0', '0']);
        assert(z.drop_last().drop_last().drop_last() =~= seq!['0', '0', '0']);
        assert(seq!['0', '0', '0'].drop_last() =~= seq!['0', '0']);
        assert(seq!['0', '0'].drop_last() =~= seq!['0']);
        assert(seq!['0'].drop_last() =~= Seq::<char>::empty());
        assert(seq!['0'].last() == '0');
        assert(digits_value(Seq::<char>::empty()) == 0);
        assert(digits_value(seq!['0']) == 0);
        assert(digits_value(seq!['0', '0']) == 0);
        assert(digits_value(seq!['0', '0', '0']) == 0);
        assert(digits_value(seq!['0', '0', '0', '0']) == 0);
        assert(digits_value(seq!['0', '0', '0', '0', '0']) == 0);
        assert(digits_value(z) == 0);
        assert(frac_units(Seq::<char>::empty()) == 0);
    }
}

} // verus!
