//! The file-name grammar of region files: `r.<x>.<z>.mca`, where `<x>` and
//! `<z>` are base-10 signed 64-bit integers.

use vstd::prelude::*;
use vstd::string::StrSliceExecFns;

verus! {

pub open spec fn is_digit(c: char) -> bool {
    '0' <= c && c <= '9'
}

pub open spec fn digit_value(c: char) -> int {
    c as int - '0' as int
}

pub open spec fn all_digits(s: Seq<char>) -> bool {
    forall|i: int| 0 <= i < s.len() ==> is_digit(#[trigger] s[i])
}

/// The value of a run of decimal digits, most significant first.
pub open spec fn digits_value(s: Seq<char>) -> int
    decreases s.len(),
{
    if s.len() == 0 {
        0
    } else {
        digits_value(s.drop_last()) * 10 + digit_value(s.last())
    }
}

/// The integer that a numeral denotes: an optional `+` or `-`, then one or
/// more decimal digits. `None` for anything else.
pub open spec fn numeral_value(s: Seq<char>) -> Option<int> {
    if s.len() > 0 && (s[0] == '-' || s[0] == '+') {
        let d = s.drop_first();
        if d.len() > 0 && all_digits(d) {
            Some(
                if s[0] == '-' {
                    -digits_value(d)
                } else {
                    digits_value(d)
                },
            )
        } else {
            None
        }
    } else if s.len() > 0 && all_digits(s) {
        Some(digits_value(s))
    } else {
        None
    }
}

/// A numeral whose value fits in an `i64`.
pub open spec fn i64_of(s: Seq<char>) -> Option<i64> {
    match numeral_value(s) {
        Some(v) => if i64::MIN <= v <= i64::MAX {
            Some(v as i64)
        } else {
            None
        },
        None => None,
    }
}

/// Index of the first `.` of `s`, or its length when it has none.
pub open spec fn first_dot(s: Seq<char>) -> int
    decreases s.len(),
{
    if s.len() == 0 || s[0] == '.' {
        0
    } else {
        1 + first_dot(s.drop_first())
    }
}

/// The region coordinates that a file name denotes: the name has exactly
/// four `.`-separated parts, `r`, two `i64` numerals, and `mca`.
pub open spec fn region_of_name(n: Seq<char>) -> Option<(i64, i64)> {
    if n.len() >= 6 && n[0] == 'r' && n[1] == '.' && n.subrange(n.len() - 4, n.len() as int)
        == seq!['.', 'm', 'c', 'a'] {
        let mid = n.subrange(2, n.len() - 4);
        let k = first_dot(mid);
        if k < mid.len() {
            match (i64_of(mid.subrange(0, k)), i64_of(mid.subrange(k + 1, mid.len() as int))) {
                (Some(x), Some(z)) => Some((x, z)),
                _ => None,
            }
        } else {
            None
        }
    } else {
        None
    }
}

proof fn lemma_digits_value_nonneg(s: Seq<char>)
    requires
        all_digits(s),
    ensures
        digits_value(s) >= 0,
    decreases s.len(),
{
    if s.len() > 0 {
        lemma_digits_value_nonneg(s.drop_last());
    }
}

/// Appending digits never lowers the value.
proof fn lemma_digits_value_prefix(s: Seq<char>, k: int)
    requires
        all_digits(s),
        0 <= k <= s.len(),
    ensures
        digits_value(s) >= digits_value(s.subrange(0, k)),
    decreases s.len(),
{
    if k < s.len() {
        let p = s.drop_last();
        lemma_digits_value_prefix(p, k);
        lemma_digits_value_nonneg(p);
        assert(p.subrange(0, k) =~= s.subrange(0, k));
    } else {
        assert(s.subrange(0, k) =~= s);
    }
}

proof fn lemma_first_dot(s: Seq<char>, j: int)
    requires
        0 <= j <= s.len(),
        forall|t: int| 0 <= t < j ==> s[t] != '.',
        j < s.len() ==> s[j] == '.',
    ensures
        first_dot(s) == j,
    decreases j,
{
    if j > 0 {
        lemma_first_dot(s.drop_first(), j - 1);
    }
}

/// Parses `s@[from..to]` as an `i64` numeral.
pub fn parse_i64(s: &str, from: usize, to: usize) -> (r: Option<i64>)
    requires
        from <= to <= s@.len(),
    ensures
        r == i64_of(s@.subrange(from as int, to as int)),
{
    let ghost whole = s@.subrange(from as int, to as int);
    let mut start: usize = from;
    let mut neg = false;
    if from < to {
        let c = s.get_char(from);
        if c == '-' {
            neg = true;
            start = from + 1;
        } else if c == '+' {
            start = from + 1;
        }
    }
    let ghost d = s@.subrange(start as int, to as int);
    assert(start > from ==> d =~= whole.drop_first());
    assert(start == from ==> d =~= whole);
    if start >= to {
        return None;
    }
    assert(whole[0] == s@[from as int]);
    let mut acc: u128 = 0;
    let mut i: usize = start;
    while i < to
        invariant
            from <= start <= i <= to <= s@.len(),
            d == s@.subrange(start as int, to as int),
            whole == s@.subrange(from as int, to as int),
            start > from ==> d == whole.drop_first() && (neg <==> whole[0] == '-') && (
            whole[0] == '-' || whole[0] == '+'),
            start == from ==> d == whole && !neg && whole.len() > 0 && whole[0] != '-'
                && whole[0] != '+',
            all_digits(d.subrange(0, i - start)),
            acc == digits_value(d.subrange(0, i - start)),
            acc <= 0x8000_0000_0000_0000u128,
        decreases to - i,
    {
        let c = s.get_char(i);
        if !('0' <= c && c <= '9') {
            assert(!is_digit(d[i - start]));
            return None;
        }
        let v: u128 = acc * 10 + ((c as u32) - ('0' as u32)) as u128;
        let ghost p = d.subrange(0, i + 1 - start);
        assert(p.drop_last() =~= d.subrange(0, i - start));
        assert(p.last() == c);
        assert(v == digits_value(p));
        if v > 0x8000_0000_0000_0000u128 {
            proof {
                if all_digits(d) {
                    lemma_digits_value_prefix(d, i + 1 - start);
                }
            }
            return None;
        }
        acc = v;
        i = i + 1;
    }
    assert(d.subrange(0, i - start) =~= d);
    if neg {
        if acc == 0x8000_0000_0000_0000u128 {
            Some(i64::MIN)
        } else {
            Some(-(acc as i64))
        }
    } else if acc <= 0x7fff_ffff_ffff_ffffu128 {
        Some(acc as i64)
    } else {
        None
    }
}

/// The region coordinates that the file name `n` denotes, if it is a region
/// file's name.
pub fn parse_region_name(n: &str) -> (r: Option<(i64, i64)>)
    ensures
        r == region_of_name(n@),
{
    let len = n.unicode_len();
    if len < 6 || n.get_char(0) != 'r' || n.get_char(1) != '.' || n.get_char(len - 4) != '.'
        || n.get_char(len - 3) != 'm' || n.get_char(len - 2) != 'c' || n.get_char(len - 1)
        != 'a' {
        assert(len >= 6 ==> n@.subrange(len - 4, len as int)[0] == n@[len - 4]);
        assert(len >= 6 ==> n@.subrange(len - 4, len as int)[1] == n@[len - 3]);
        assert(len >= 6 ==> n@.subrange(len - 4, len as int)[2] == n@[len - 2]);
        assert(len >= 6 ==> n@.subrange(len - 4, len as int)[3] == n@[len - 1]);
        return None;
    }
    assert(n@.subrange(len - 4, len as int) =~= seq!['.', 'm', 'c', 'a']);
    let ghost mid = n@.subrange(2, len - 4);
    let end = len - 4;
    let mut j: usize = 2;
    while j < end && n.get_char(j) != '.'
        invariant
            2 <= j <= end,
            end == len - 4,
            len == n@.len(),
            mid == n@.subrange(2, len - 4),
            forall|t: int| 0 <= t < j - 2 ==> mid[t] != '.',
        decreases end - j,
    {
        j = j + 1;
    }
    proof {
        lemma_first_dot(mid, j - 2);
    }
    if j >= end {
        return None;
    }
    assert(mid.subrange(0, j - 2) =~= n@.subrange(2, j as int));
    assert(mid.subrange(j - 1, mid.len() as int) =~= n@.subrange(j + 1, end as int));
    let x = parse_i64(n, 2, j);
    let z = parse_i64(n, j + 1, end);
    match (x, z) {
        (Some(x), Some(z)) => Some((x, z)),
        _ => None,
    }
}

} // verus!
