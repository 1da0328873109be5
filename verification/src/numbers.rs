//! Numeric shape checks for schema validation: whether a string is a decimal
//! 64-bit signed integer, and whether it matches the decimal/exponential
//! grammar of a 64-bit floating-point literal. Both are pure character-level
//! predicates; no numeric value is ever produced.

use vstd::prelude::*;
use crate::chars::first_index_of;
use crate::chars::lemma_first_index_of;
use crate::chars::spec_eq_ic;
use crate::chars::eq_ignore_ascii_case;

verus! {

pub open spec fn spec_is_digit(c: char) -> bool {
    48 <= c as u32 <= 57
}

pub open spec fn spec_digit_val(c: char) -> int {
    c as u32 - 48
}

pub open spec fn spec_all_digits(s: Seq<char>) -> bool {
    forall|i: int| 0 <= i < s.len() ==> spec_is_digit(s[i])
}

/// The numeric value of a sequence of decimal digits, most significant first.
pub open spec fn spec_digits_val(s: Seq<char>) -> int
    decreases s.len(),
{
    if s.len() == 0 {
        0
    } else {
        spec_digits_val(s.subrange(0, s.len() - 1)) * 10 + spec_digit_val(s[s.len() - 1])
    }
}

pub proof fn lemma_digits_val_nonneg(s: Seq<char>)
    requires
        spec_all_digits(s),
    ensures
        spec_digits_val(s) >= 0,
    decreases s.len(),
{
    if s.len() > 0 {
        let pre = s.subrange(0, s.len() - 1);
        assert(spec_all_digits(pre));
        lemma_digits_val_nonneg(pre);
    }
}

/// A digit sequence is worth at least as much as any of its prefixes.
pub proof fn lemma_digits_val_prefix(s: Seq<char>, i: int)
    requires
        spec_all_digits(s),
        0 <= i <= s.len(),
    ensures
        spec_digits_val(s.subrange(0, i)) <= spec_digits_val(s),
    decreases s.len() - i,
{
    if i == s.len() {
        assert(s.subrange(0, i) =~= s);
    } else {
        let pre = s.subrange(0, s.len() - 1);
        assert(spec_all_digits(pre));
        assert(pre.subrange(0, i) =~= s.subrange(0, i));
        lemma_digits_val_prefix(pre, i);
        lemma_digits_val_nonneg(pre);
    }
}

/// Whether `s` is a decimal 64-bit signed integer: an optional leading `-`,
/// then at least one digit, with the value in the range of `i64`.
pub open spec fn spec_is_i64(s: Seq<char>) -> bool {
    if s.len() > 0 && s[0] == '-' {
        let d = s.subrange(1, s.len() as int);
        d.len() > 0 && spec_all_digits(d) && spec_digits_val(d) <= 0x8000000000000000
    } else {
        s.len() > 0 && spec_all_digits(s) && spec_digits_val(s) <= 0x7fffffffffffffff
    }
}

/// Whether `d` is a non-empty run of digits whose value is at most `limit`.
fn digits_at_most(d: &str, limit: u64) -> (r: bool)
    ensures
        r == (d@.len() > 0 && spec_all_digits(d@) && spec_digits_val(d@) <= limit),
{
    let n = d.unicode_len();
    if n == 0 {
        return false;
    }
    let mut acc: u64 = 0;
    let mut i: usize = 0;
    while i < n
        invariant
            i <= n,
            n == d@.len(),
            spec_all_digits(d@.subrange(0, i as int)),
            acc == spec_digits_val(d@.subrange(0, i as int)),
            acc <= limit,
        decreases n - i,
    {
        let c = d.get_char(i);
        let cu = c as u32;
        if cu < 48 || cu > 57 {
            assert(!spec_is_digit(d@[i as int]));
            return false;
        }
        let dv = (cu - 48) as u64;
        proof {
            assert(d@.subrange(0, i + 1).subrange(0, i as int) =~= d@.subrange(0, i as int));
            assert(d@.subrange(0, i + 1)[i as int] == d@[i as int]);
            assert(spec_digits_val(d@.subrange(0, i + 1)) == acc * 10 + dv);
            assert(spec_all_digits(d@.subrange(0, i + 1)));
        }
        let next = match acc.checked_mul(10) {
            Some(m) => m.checked_add(dv),
            None => None,
        };
        match next {
            Some(v) if v <= limit => {
                acc = v;
            },
            _ => {
                proof {
                    if spec_all_digits(d@) && spec_digits_val(d@) <= limit {
                        lemma_digits_val_prefix(d@, i + 1);
                    }
                }
                return false;
            },
        }
        i += 1;
    }
    proof {
        assert(d@.subrange(0, n as int) =~= d@);
    }
    true
}

/// Whether `s` would be accepted by the schema's `integer` type: the
/// acceptance rule for 64-bit signed decimal values.
pub fn is_i64_str(s: &str) -> (r: bool)
    ensures
        r == spec_is_i64(s@),
{
    let n = s.unicode_len();
    if n == 0 {
        return false;
    }
    if s.get_char(0) == '-' {
        let d = s.substring_char(1, n);
        digits_at_most(d, 9223372036854775808u64)
    } else {
        digits_at_most(s, 9223372036854775807u64)
    }
}

/// The mantissa of a floating-point literal: digits with at most one point
/// among them, and at least one digit.
pub open spec fn spec_is_mantissa(s: Seq<char>) -> bool {
    &&& s.len() > 0
    &&& forall|i: int| 0 <= i < s.len() ==> spec_is_digit(s[i]) || s[i] == '.'
    &&& exists|i: int| 0 <= i < s.len() && spec_is_digit(s[i])
    &&& forall|i: int, j: int|
        0 <= i < j < s.len() && s[i] == '.' && s[j] == '.' ==> false
}

/// The exponent part that follows `e` or `E`: an optional sign, then at
/// least one digit.
pub open spec fn spec_is_exponent(s: Seq<char>) -> bool {
    let d = if s.len() > 0 && (s[0] == '+' || s[0] == '-') {
        s.subrange(1, s.len() as int)
    } else {
        s
    };
    d.len() > 0 && spec_all_digits(d)
}

/// The body of a floating-point literal after its optional sign: either a
/// case-insensitive `inf`, `infinity` or `nan`, or a mantissa with an
/// optional exponent introduced by the first `e` or `E`.
pub open spec fn spec_is_f64_body(s: Seq<char>) -> bool {
    ||| spec_eq_ic(s, "inf"@)
    ||| spec_eq_ic(s, "infinity"@)
    ||| spec_eq_ic(s, "nan"@)
    ||| {
        let i = first_index_of(s, 'e');
        let j = first_index_of(s, 'E');
        let k = if i == -1 {
            j
        } else if j == -1 {
            i
        } else if i < j {
            i
        } else {
            j
        };
        if k == -1 {
            spec_is_mantissa(s)
        } else {
            spec_is_mantissa(s.subrange(0, k)) && spec_is_exponent(
                s.subrange(k + 1, s.len() as int),
            )
        }
    }
}

/// Whether `s` matches the decimal/exponential grammar of 64-bit
/// floating-point literals: an optional sign, then `inf`, `infinity`, `nan`
/// (any case) or a mantissa with an optional exponent. Every such string
/// denotes a floating-point value; the schema's `float` type accepts exactly
/// these.
pub open spec fn spec_is_f64(s: Seq<char>) -> bool {
    if s.len() > 0 && (s[0] == '+' || s[0] == '-') {
        spec_is_f64_body(s.subrange(1, s.len() as int))
    } else {
        spec_is_f64_body(s)
    }
}

fn is_mantissa(s: &str) -> (r: bool)
    ensures
        r == spec_is_mantissa(s@),
{
    let n = s.unicode_len();
    if n == 0 {
        return false;
    }
    let mut i: usize = 0;
    let mut seen_digit = false;
    let mut seen_dot = false;
    while i < n
        invariant
            i <= n,
            n == s@.len(),
            forall|j: int| 0 <= j < i ==> spec_is_digit(s@[j]) || s@[j] == '.',
            seen_digit == exists|j: int| 0 <= j < i && spec_is_digit(s@[j]),
            seen_dot == exists|j: int| 0 <= j < i && s@[j] == '.',
            seen_dot ==> forall|j: int, k: int|
                0 <= j < k < i && s@[j] == '.' && s@[k] == '.' ==> false,
            !seen_dot ==> forall|j: int| 0 <= j < i ==> s@[j] != '.',
        decreases n - i,
    {
        let c = s.get_char(i);
        let cu = c as u32;
        if 48 <= cu && cu <= 57 {
            seen_digit = true;
        } else if c == '.' {
            if seen_dot {
                return false;
            }
            seen_dot = true;
        } else {
            assert(!(spec_is_digit(s@[i as int]) || s@[i as int] == '.'));
            return false;
        }
        i += 1;
    }
    seen_digit
}

fn is_exponent(s: &str) -> (r: bool)
    ensures
        r == spec_is_exponent(s@),
{
    let n = s.unicode_len();
    if n > 0 {
        let c = s.get_char(0);
        if c == '+' || c == '-' {
            let d = s.substring_char(1, n);
            return digits_only(d);
        }
    }
    digits_only(s)
}

/// Whether `d` is a non-empty run of digits.
fn digits_only(d: &str) -> (r: bool)
    ensures
        r == (d@.len() > 0 && spec_all_digits(d@)),
{
    let n = d.unicode_len();
    if n == 0 {
        return false;
    }
    let mut i: usize = 0;
    while i < n
        invariant
            i <= n,
            n == d@.len(),
            forall|j: int| 0 <= j < i ==> spec_is_digit(d@[j]),
        decreases n - i,
    {
        let cu = d.get_char(i) as u32;
        if cu < 48 || cu > 57 {
            assert(!spec_is_digit(d@[i as int]));
            return false;
        }
        i += 1;
    }
    true
}

fn is_f64_body(s: &str) -> (r: bool)
    ensures
        r == spec_is_f64_body(s@),
{
    if eq_ignore_ascii_case(s, "inf") || eq_ignore_ascii_case(s, "infinity")
        || eq_ignore_ascii_case(s, "nan") {
        return true;
    }
    let n = s.unicode_len();
    let ke = crate::chars::find_first(s, 'e');
    let ku = crate::chars::find_first(s, 'E');
    proof {
        lemma_first_index_of(s@, 'e');
        lemma_first_index_of(s@, 'E');
    }
    let k = match (ke, ku) {
        (None, None) => None,
        (Some(i), None) => Some(i),
        (None, Some(j)) => Some(j),
        (Some(i), Some(j)) => if i < j {
            Some(i)
        } else {
            Some(j)
        },
    };
    match k {
        None => is_mantissa(s),
        Some(k) => is_mantissa(s.substring_char(0, k)) && is_exponent(
            s.substring_char(k + 1, n),
        ),
    }
}

/// Whether `s` would be accepted by the schema's `float` type: the
/// acceptance rule for 64-bit floating-point values.
pub fn is_f64_str(s: &str) -> (r: bool)
    ensures
        r == spec_is_f64(s@),
{
    let n = s.unicode_len();
    if n > 0 {
        let c = s.get_char(0);
        if c == '+' || c == '-' {
            return is_f64_body(s.substring_char(1, n));
        }
    }
    is_f64_body(s)
}

} // verus!
