//! Which files are invoices (PDFs, by their extension), and their order
//! (by file name).

use vstd::prelude::*;
use crate::text::text_chars;

verus! {

/// The position of the last `.` among the first `k` characters of `name`, or -1.
pub open spec fn last_dot_before(name: Seq<char>, k: int) -> int
    decreases k,
{
    if k <= 0 {
        -1
    } else if name[k - 1] == '.' {
        k - 1
    } else {
        last_dot_before(name, k - 1)
    }
}

/// The extension of a file name, read as `std::path::Path::extension` reads
/// it: what follows the last `.`; none when there is no `.`, when the only
/// one starts the name, or when the name is `..`.
pub open spec fn file_extension(name: Seq<char>) -> Option<Seq<char>> {
    let d = last_dot_before(name, name.len() as int);
    if name == seq!['.', '.'] || d <= 0 {
        None
    } else {
        Some(name.subrange(d + 1, name.len() as int))
    }
}

/// `pdf` in any ASCII case.
pub open spec fn is_pdf_extension(e: Seq<char>) -> bool {
    &&& e.len() == 3
    &&& (e[0] == 'p' || e[0] == 'P')
    &&& (e[1] == 'd' || e[1] == 'D')
    &&& (e[2] == 'f' || e[2] == 'F')
}

/// Whether the file named `file_name` (the last component of its path) has
/// the extension `pdf`, in any ASCII case.
pub fn has_pdf_ext(file_name: &str) -> (r: bool)
    ensures
        r == match file_extension(file_name@) {
            Some(e) => is_pdf_extension(e),
            None => false,
        },
{
    let name = text_chars(file_name);
    let n = name.len();
    let mut k: usize = n;
    while k > 0 && name[k - 1] != '.'
        invariant
            name@ == file_name@,
            n == name@.len(),
            k <= n,
            last_dot_before(name@, n as int) == last_dot_before(name@, k as int),
        decreases k,
    {
        k = k - 1;
    }
    // k - 1 is the position of the last dot, if k > 0
    assert(last_dot_before(name@, n as int) == k - 1);
    if n == 2 && name[0] == '.' && name[1] == '.' {
        assert(name@ =~= seq!['.', '.']);
        return false;
    }
    assert(name@ != seq!['.', '.']) by {
        if name@ == seq!['.', '.'] {
            assert(name@.len() == 2 && name@[0] == '.' && name@[1] == '.');
        }
    }
    if k <= 1 {
        return false;
    }
    let ghost e = name@.subrange(k as int, n as int);
    if n - k != 3 {
        return false;
    }
    assert(e[0] == name@[k as int] && e[1] == name@[k + 1] && e[2] == name@[k + 2]);
    (name[k] == 'p' || name[k] == 'P') && (name[k + 1] == 'd' || name[k + 1] == 'D') && (name[k
        + 2] == 'f' || name[k + 2] == 'F')
}

/// `a` comes before `b` in the order of `str`: code point by code point, a
/// proper prefix first.
pub open spec fn text_lt(a: Seq<char>, b: Seq<char>) -> bool
    decreases a.len(),
{
    if a.len() == 0 {
        b.len() > 0
    } else if b.len() == 0 {
        false
    } else if a[0] != b[0] {
        (a[0] as int) < (b[0] as int)
    } else {
        text_lt(a.drop_first(), b.drop_first())
    }
}

/// The `a`-th file comes before the `b`-th: by file name, and by position
/// between equal names.
pub open spec fn name_before(names: Seq<String>, a: int, b: int) -> bool {
    text_lt(names[a]@, names[b]@) || (names[a]@ == names[b]@ && a < b)
}

proof fn lemma_text_lt_irreflexive(a: Seq<char>)
    ensures
        !text_lt(a, a),
    decreases a.len(),
{
    if a.len() > 0 {
        lemma_text_lt_irreflexive(a.drop_first());
    }
}

proof fn lemma_text_lt_total(a: Seq<char>, b: Seq<char>)
    ensures
        a != b ==> text_lt(a, b) || text_lt(b, a),
        !(text_lt(a, b) && text_lt(b, a)),
    decreases a.len(),
{
    if a.len() > 0 && b.len() > 0 && a[0] == b[0] {
        lemma_text_lt_total(a.drop_first(), b.drop_first());
        if a.drop_first() == b.drop_first() {
            assert(a =~= seq![a[0]] + a.drop_first());
            assert(b =~= seq![b[0]] + b.drop_first());
        }
    } else if a.len() == 0 && b.len() == 0 {
        assert(a =~= b);
    }
}

proof fn lemma_text_lt_transitive(a: Seq<char>, b: Seq<char>, c: Seq<char>)
    requires
        text_lt(a, b),
        text_lt(b, c),
    ensures
        text_lt(a, c),
    decreases a.len(),
{
    if a.len() > 0 && b.len() > 0 && c.len() > 0 && a[0] == b[0] && b[0] == c[0] {
        lemma_text_lt_transitive(a.drop_first(), b.drop_first(), c.drop_first());
    }
}

fn text_less(a: &Vec<char>, b: &Vec<char>) -> (r: bool)
    ensures
        r == text_lt(a@, b@),
{
    let mut k: usize = 0;
    assert(a@.skip(0) =~= a@ && b@.skip(0) =~= b@);
    while k < a.len() && k < b.len() && a[k] == b[k]
        invariant
            k <= a@.len(),
            k <= b@.len(),
            text_lt(a@, b@) == text_lt(a@.skip(k as int), b@.skip(k as int)),
        decreases a@.len() - k,
    {
        assert(a@.skip(k as int).drop_first() =~= a@.skip(k + 1));
        assert(b@.skip(k as int).drop_first() =~= b@.skip(k + 1));
        k = k + 1;
    }
    let ghost x = a@.skip(k as int);
    let ghost y = b@.skip(k as int);
    if k == a.len() {
        assert(x.len() == 0);
        k < b.len()
    } else if k == b.len() {
        false
    } else {
        assert(x[0] == a@[k as int] && y[0] == b@[k as int]);
        a[k] < b[k]
    }
}

/// The order in which to take the files named `names` (the last components
/// of their paths): the positions of all the names, sorted by name, and by
/// position between equal names.
pub fn order_by_file_name(names: &Vec<String>) -> (r: Vec<usize>)
    ensures
        r@.len() == names@.len(),
        forall|k: int| 0 <= k < names@.len() ==> #[trigger] r@.contains(k as usize),
        forall|i: int| 0 <= i < r@.len() ==> #[trigger] r@[i] < names@.len(),
        forall|i: int, j: int|
            0 <= i < j < r@.len() ==> name_before(names@, #[trigger] r@[i] as int, #[trigger] r@[j] as int),
{
    let n = names.len();
    let mut keys: Vec<Vec<char>> = Vec::new();
    let mut i: usize = 0;
    while i < n
        invariant
            n == names@.len(),
            i <= n,
            keys@.len() == i,
            forall|k: int| 0 <= k < i ==> #[trigger] keys@[k]@ == names@[k]@,
        decreases n - i,
    {
        keys.push(text_chars(names[i].as_str()));
        i = i + 1;
    }
    let mut r: Vec<usize> = Vec::new();
    let mut idx: usize = 0;
    while idx < n
        invariant
            n == names@.len(),
            keys@.len() == n,
            forall|k: int| 0 <= k < n ==> #[trigger] keys@[k]@ == names@[k]@,
            idx <= n,
            r@.len() == idx,
            forall|k: int| 0 <= k < idx ==> #[trigger] r@.contains(k as usize),
            forall|q: int| 0 <= q < r@.len() ==> #[trigger] r@[q] < idx,
            forall|a: int, b: int|
                0 <= a < b < r@.len() ==> name_before(names@, #[trigger] r@[a] as int, #[trigger] r@[b] as int),
        decreases n - idx,
    {
        // the first place whose name comes after this one's
        let mut p: usize = 0;
        while p < r.len() && !text_less(&keys[idx], &keys[r[p]])
            invariant
                n == names@.len(),
                keys@.len() == n,
                forall|k: int| 0 <= k < n ==> #[trigger] keys@[k]@ == names@[k]@,
                idx < n,
                p <= r@.len(),
                forall|q: int| 0 <= q < r@.len() ==> #[trigger] r@[q] < idx,
                forall|q: int| 0 <= q < p ==> !text_lt(names@[idx as int]@, names@[#[trigger] r@[q] as int]@),
            decreases r@.len() - p,
        {
            p = p + 1;
        }
        let ghost old_r = r@;
        proof {
            if p < old_r.len() {
                assert(text_lt(names@[idx as int]@, names@[old_r[p as int] as int]@));
            }
        }
        r.insert(p, idx);
        assert(r@ =~= old_r.insert(p as int, idx));
        proof {
            let key = names@[idx as int]@;
            assert forall|q: int| 0 <= q < r@.len() implies #[trigger] r@[q] < idx + 1 by {
                if q < p {
                    assert(r@[q] == old_r[q]);
                } else if q > p {
                    assert(r@[q] == old_r[q - 1]);
                }
            }
            assert forall|k: int| 0 <= k < idx + 1 implies #[trigger] r@.contains(k as usize) by {
                if k < idx {
                    assert(old_r.contains(k as usize));
                    let q = choose|q: int| 0 <= q < old_r.len() && old_r[q] == k as usize;
                    if q < p {
                        assert(r@[q] == old_r[q]);
                    } else {
                        assert(r@[q + 1] == old_r[q]);
                    }
                } else {
                    assert(r@[p as int] == idx);
                }
            }
            assert forall|a: int, b: int|
                0 <= a < b < r@.len() implies name_before(names@, #[trigger] r@[a] as int, #[trigger] r@[b] as int) by {
                if a < p && b < p {
                    assert(r@[a] == old_r[a] && r@[b] == old_r[b]);
                } else if a > p && b > p {
                    assert(r@[a] == old_r[a - 1] && r@[b] == old_r[b - 1]);
                } else if a < p && b > p {
                    assert(r@[a] == old_r[a] && r@[b] == old_r[b - 1]);
                } else if a == p {
                    // this name against a later one, which comes after it
                    assert(r@[b] == old_r[b - 1]);
                    let other = names@[old_r[b - 1] as int]@;
                    let first = names@[old_r[p as int] as int]@;
                    if b - 1 > p {
                        assert(name_before(names@, old_r[p as int] as int, old_r[b - 1] as int));
                        if text_lt(first, other) {
                            lemma_text_lt_transitive(key, first, other);
                        }
                    }
                } else {
                    // an earlier name against this one
                    assert(b == p);
                    assert(r@[a] == old_r[a]);
                    let other = names@[old_r[a] as int]@;
                    assert(!text_lt(key, other));
                    lemma_text_lt_total(other, key);
                }
            }
        }
        idx = idx + 1;
    }
    r
}

} // verus!
