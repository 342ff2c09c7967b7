//! The text of a literal token, read as the value it stands for.
use crate::lexer::{is_digit, DOT, LOWER_E, MINUS, QUOTE};
use vstd::prelude::*;

verus! {

pub const PLUS: u8 = 43;

pub const UPPER_E: u8 = 69;

pub open spec fn all_digits(d: Seq<u8>) -> bool {
    forall|i: int| 0 <= i < d.len() ==> is_digit(#[trigger] d[i])
}

/// The number that a run of decimal digits spells.
pub open spec fn digits_value(d: Seq<u8>) -> int
    decreases d.len(),
{
    if d.len() == 0 {
        0
    } else {
        digits_value(d.drop_last()) * 10 + (d.last() - 48)
    }
}

pub open spec fn is_sign(c: u8) -> bool {
    c == MINUS || c == PLUS
}

/// The value of a signed decimal integer literal (an optional `+` or `-`, then one or
/// more digits), when it fits in an `i64`.
pub open spec fn int_literal(d: Seq<u8>) -> Option<int> {
    let signed = d.len() > 0 && is_sign(d[0]);
    let ds = if signed {
        d.drop_first()
    } else {
        d
    };
    let v = if signed && d[0] == MINUS {
        -digits_value(ds)
    } else {
        digits_value(ds)
    };
    if ds.len() > 0 && all_digits(ds) && i64::MIN <= v <= i64::MAX {
        Some(v)
    } else {
        None
    }
}

proof fn lemma_digits_prefix(d: Seq<u8>, j: int)
    requires
        all_digits(d),
        0 <= j <= d.len(),
    ensures
        0 <= digits_value(d.subrange(0, j)) <= digits_value(d),
    decreases d.len(),
{
    if d.len() > 0 {
        let p = d.drop_last();
        assert(all_digits(p)) by {
            assert forall|i: int| 0 <= i < p.len() implies is_digit(#[trigger] p[i]) by {
                assert(p[i] == d[i]);
            }
        }
        assert(is_digit(d[d.len() - 1]));
        if j == d.len() {
            assert(d.subrange(0, j) =~= d);
            lemma_digits_prefix(p, j - 1);
            assert(p.subrange(0, j - 1) =~= p);
        } else {
            lemma_digits_prefix(p, j);
            assert(p.subrange(0, j) =~= d.subrange(0, j));
            lemma_digits_prefix(p, p.len() as int);
            assert(p.subrange(0, p.len() as int) =~= p);
        }
    }
}

/// Reads a signed decimal integer literal.
pub fn parse_integer(d: &[u8]) -> (r: Option<i64>)
    ensures
        r is Some <==> int_literal(d@) is Some,
        r is Some ==> r->0 as int == int_literal(d@)->0,
{
    let n = d.len();
    let signed = n > 0 && (d[0] == MINUS || d[0] == PLUS);
    let neg = signed && d[0] == MINUS;
    let start: usize = if signed {
        1
    } else {
        0
    };
    let ghost ds = d@.subrange(start as int, n as int);
    proof {
        if signed {
            assert(ds =~= d@.drop_first());
        } else {
            assert(ds =~= d@);
        }
    }
    if start >= n {
        return None;
    }
    let mut acc: i64 = 0;
    let mut k: usize = start;
    while k < n
        invariant
            ds == d@.subrange(start as int, n as int),
            signed == (d@.len() > 0 && is_sign(d@[0])),
            neg == (signed && d@[0] == MINUS),
            signed ==> ds == d@.drop_first(),
            !signed ==> ds == d@,
            start == (if signed { 1int } else { 0int }),
            n == d@.len(),
            start <= k <= n,
            all_digits(d@.subrange(start as int, k as int)),
            acc as int == (if neg {
                -digits_value(d@.subrange(start as int, k as int))
            } else {
                digits_value(d@.subrange(start as int, k as int))
            }),
        decreases n - k,
    {
        let c = d[k];
        let ghost pre = d@.subrange(start as int, k as int);
        let ghost next = d@.subrange(start as int, k + 1);
        if !(48 <= c && c <= 57) {
            proof {
                assert(ds[k - start] == c);
                assert(!is_digit(ds[k - start]));
            }
            return None;
        }
        proof {
            assert(next.drop_last() =~= pre);
            assert(all_digits(next)) by {
                assert forall|i: int| 0 <= i < next.len() implies is_digit(#[trigger] next[i]) by {
                    if i < pre.len() {
                        assert(next[i] == pre[i]);
                    }
                }
            }
        }
        let digit = (c - 48) as i128;
        let wide: i128 = if neg {
            acc as i128 * 10 - digit
        } else {
            acc as i128 * 10 + digit
        };
        if wide < i64::MIN as i128 || wide > i64::MAX as i128 {
            proof {
                assert(next.last() == c);
                assert(digits_value(next) == digits_value(pre) * 10 + (c - 48));
                if all_digits(ds) {
                    lemma_digits_prefix(ds, k + 1 - start);
                    assert(ds.subrange(0, k + 1 - start) =~= next);
                    assert(digits_value(next) <= digits_value(ds));
                }
            }
            return None;
        }
        acc = wide as i64;
        k = k + 1;
    }
    proof {
        assert(d@.subrange(start as int, n as int) =~= ds);
    }
    Some(acc)
}

/// The number of digits in the run that starts at `j`.
pub open spec fn digit_run(d: Seq<u8>, j: int) -> int
    decreases d.len() - j,
{
    if 0 <= j < d.len() && is_digit(d[j]) {
        1 + digit_run(d, j + 1)
    } else {
        0
    }
}

pub open spec fn sign_at(d: Seq<u8>, j: int) -> int {
    if 0 <= j < d.len() && is_sign(d[j]) {
        1
    } else {
        0
    }
}

/// An exponent from `j` to the end: an optional sign and one or more digits.
pub open spec fn exponent_from(d: Seq<u8>, j: int) -> bool {
    let k = j + sign_at(d, j);
    digit_run(d, k) > 0 && k + digit_run(d, k) == d.len()
}

/// A decimal floating-point literal: an optional sign, digits with at most one `.` and
/// at least one digit, and an optional exponent (`e` or `E`, an optional sign, digits).
pub open spec fn float_literal(d: Seq<u8>) -> bool {
    let a = sign_at(d, 0);
    let i = a + digit_run(d, a);
    let has_dot = i < d.len() && d[i] == DOT;
    let f = if has_dot {
        digit_run(d, i + 1)
    } else {
        0
    };
    let e = if has_dot {
        i + 1 + f
    } else {
        i
    };
    &&& (i - a) + f > 0
    &&& (e == d.len() || ((d[e] == LOWER_E || d[e] == UPPER_E) && exponent_from(d, e + 1)))
}

/// The end of the run of digits that starts at `j`.
fn digit_run_end(d: &[u8], j: usize) -> (r: usize)
    requires
        j <= d@.len(),
    ensures
        r == j + digit_run(d@, j as int),
        j <= r <= d@.len(),
{
    let mut k = j;
    while k < d.len() && 48 <= d[k] && d[k] <= 57
        invariant
            j <= k <= d@.len(),
            digit_run(d@, j as int) == (k - j) + digit_run(d@, k as int),
        decreases d@.len() - k,
    {
        k = k + 1;
    }
    k
}

fn sign_at_exec(d: &[u8], j: usize) -> (r: usize)
    ensures
        r == sign_at(d@, j as int),
{
    if j < d.len() && (d[j] == MINUS || d[j] == PLUS) {
        1
    } else {
        0
    }
}

/// Whether `d` is a decimal floating-point literal.
pub fn is_float_literal(d: &[u8]) -> (r: bool)
    ensures
        r == float_literal(d@),
{
    let a = sign_at_exec(d, 0);
    let i = digit_run_end(d, a);
    let has_dot = i < d.len() && d[i] == DOT;
    let e = if has_dot {
        digit_run_end(d, i + 1)
    } else {
        i
    };
    if i == a && (!has_dot || e == i + 1) {
        return false;
    }
    if e == d.len() {
        return true;
    }
    if !(d[e] == LOWER_E || d[e] == UPPER_E) {
        return false;
    }
    let k = e + 1 + sign_at_exec(d, e + 1);
    if k > d.len() {
        return false;
    }
    let end = digit_run_end(d, k);
    end > k && end == d.len()
}

pub open spec fn true_text() -> Seq<u8> {
    seq![116u8, 114u8, 117u8, 101u8]
}

pub open spec fn false_text() -> Seq<u8> {
    seq![102u8, 97u8, 108u8, 115u8, 101u8]
}

/// `true` or `false`, read as a boolean.
pub open spec fn bool_literal(d: Seq<u8>) -> Option<bool> {
    if d == true_text() {
        Some(true)
    } else if d == false_text() {
        Some(false)
    } else {
        None
    }
}

pub fn parse_boolean(d: &[u8]) -> (r: Option<bool>)
    ensures
        r == bool_literal(d@),
{
    if d.len() == 4 && d[0] == 116 && d[1] == 114 && d[2] == 117 && d[3] == 101 {
        assert(d@ =~= true_text());
        Some(true)
    } else if d.len() == 5 && d[0] == 102 && d[1] == 97 && d[2] == 108 && d[3] == 115 && d[4]
        == 101 {
        assert(d@ =~= false_text());
        Some(false)
    } else {
        proof {
            if d@ == true_text() {
                assert(d@[0] == 116u8 && d@[1] == 114u8 && d@[2] == 117u8 && d@[3] == 101u8);
            }
            if d@ == false_text() {
                assert(d@[0] == 102u8 && d@[1] == 97u8 && d@[2] == 108u8 && d@[3] == 115u8
                    && d@[4] == 101u8);
            }
        }
        None
    }
}

/// The text inside a string token: one leading quote and one trailing quote removed,
/// where present; escapes stay as written.
pub open spec fn strip_quotes(d: Seq<u8>) -> Seq<u8> {
    let lo = if d.len() > 0 && d[0] == QUOTE {
        1int
    } else {
        0int
    };
    let hi = if d.len() >= 2 && d.last() == QUOTE {
        d.len() - 1
    } else {
        d.len() as int
    };
    d.subrange(lo, hi)
}

} // verus!
