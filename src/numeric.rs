//! Recognising numeric text, and deciding whether a column of values is
//! mostly made of non-numeric strings.
use vstd::prelude::*;
use vstd::string::*;

verus! {

pub open spec fn is_digit(c: char) -> bool {
    '0' <= c && c <= '9'
}

pub open spec fn is_sign(c: char) -> bool {
    c == '+' || c == '-'
}

/// `c` is the letter given in its lower and upper case forms.
pub open spec fn letter_is(c: char, lower: char, upper: char) -> bool {
    c == lower || c == upper
}

/// The first position at or after `i` that does not hold a decimal digit.
pub open spec fn skip_digits(s: Seq<char>, i: int) -> int
    decreases s.len() - i,
{
    if 0 <= i < s.len() && is_digit(s[i]) {
        skip_digits(s, i + 1)
    } else {
        i
    }
}

/// The words `inf`, `infinity` and `nan`, in any mix of cases.
pub open spec fn is_special_word(t: Seq<char>) -> bool {
    (t.len() == 3 && letter_is(t[0], 'i', 'I') && letter_is(t[1], 'n', 'N') && letter_is(
        t[2],
        'f',
        'F',
    )) || (t.len() == 8 && letter_is(t[0], 'i', 'I') && letter_is(t[1], 'n', 'N') && letter_is(
        t[2],
        'f',
        'F',
    ) && letter_is(t[3], 'i', 'I') && letter_is(t[4], 'n', 'N') && letter_is(t[5], 'i', 'I')
        && letter_is(t[6], 't', 'T') && letter_is(t[7], 'y', 'Y')) || (t.len() == 3 && letter_is(
        t[0],
        'n',
        'N',
    ) && letter_is(t[1], 'a', 'A') && letter_is(t[2], 'n', 'N'))
}

/// From position `e` to the end, `s` is an exponent: `e` or `E`, an optional
/// sign, then one or more digits.
pub open spec fn is_exponent(s: Seq<char>, e: int) -> bool {
    &&& 0 <= e < s.len()
    &&& letter_is(s[e], 'e', 'E')
    &&& {
        let d = if e + 1 < s.len() && is_sign(s[e + 1]) {
            e + 2
        } else {
            e + 1
        };
        d < s.len() && skip_digits(s, d) == s.len()
    }
}

/// From position `b` to the end, `s` is a decimal number: digits, an
/// optional point followed by digits, at least one digit in all, and an
/// optional exponent.
pub open spec fn is_decimal(s: Seq<char>, b: int) -> bool {
    let int_end = skip_digits(s, b);
    let has_point = int_end < s.len() && s[int_end] == '.';
    let frac_end = if has_point {
        skip_digits(s, int_end + 1)
    } else {
        int_end
    };
    let n_digits = if has_point {
        (int_end - b) + (frac_end - int_end - 1)
    } else {
        int_end - b
    };
    n_digits > 0 && (frac_end == s.len() || is_exponent(s, frac_end))
}

/// `s` is a number in the grammar that Rust's standard library documents
/// for its floating-point parser: an optional sign, then either a special
/// word (`inf`, `infinity`, `nan`, case-insensitive) or a decimal number.
pub open spec fn is_number_text(s: Seq<char>) -> bool {
    let b: int = if s.len() > 0 && is_sign(s[0]) {
        1
    } else {
        0
    };
    is_special_word(s.subrange(b, s.len() as int)) || is_decimal(s, b)
}

/// Number of values that are not empty and do not read as a number.
pub open spec fn non_numeric_count(vals: Seq<String>) -> nat
    decreases vals.len(),
{
    if vals.len() == 0 {
        0
    } else {
        let last = vals.last()@;
        non_numeric_count(vals.drop_last()) + if last.len() > 0 && !is_number_text(last) {
            1nat
        } else {
            0nat
        }
    }
}

fn digits_end(s: &str, n: usize, i: usize) -> (r: usize)
    requires
        n == s@.len(),
        i <= n,
    ensures
        r == skip_digits(s@, i as int),
        i <= r <= n,
{
    let mut j = i;
    while j < n
        invariant
            n == s@.len(),
            i <= j <= n,
            skip_digits(s@, i as int) == skip_digits(s@, j as int),
        decreases n - j,
    {
        let c = s.get_char(j);
        if !('0' <= c && c <= '9') {
            return j;
        }
        j = j + 1;
    }
    j
}

fn char_is(c: char, lower: char, upper: char) -> (r: bool)
    ensures
        r == letter_is(c, lower, upper),
{
    c == lower || c == upper
}

fn special_word_at(s: &str, n: usize, b: usize) -> (r: bool)
    requires
        n == s@.len(),
        b <= n,
    ensures
        r == is_special_word(s@.subrange(b as int, n as int)),
{
    let len = n - b;
    if len == 3 {
        let c0 = s.get_char(b);
        let c1 = s.get_char(b + 1);
        let c2 = s.get_char(b + 2);
        (char_is(c0, 'i', 'I') && char_is(c1, 'n', 'N') && char_is(c2, 'f', 'F')) || (char_is(
            c0,
            'n',
            'N',
        ) && char_is(c1, 'a', 'A') && char_is(c2, 'n', 'N'))
    } else if len == 8 {
        char_is(s.get_char(b), 'i', 'I') && char_is(s.get_char(b + 1), 'n', 'N') && char_is(
            s.get_char(b + 2),
            'f',
            'F',
        ) && char_is(s.get_char(b + 3), 'i', 'I') && char_is(s.get_char(b + 4), 'n', 'N')
            && char_is(s.get_char(b + 5), 'i', 'I') && char_is(s.get_char(b + 6), 't', 'T')
            && char_is(s.get_char(b + 7), 'y', 'Y')
    } else {
        false
    }
}

fn exponent_at(s: &str, n: usize, e: usize) -> (r: bool)
    requires
        n == s@.len(),
        e <= n,
    ensures
        r == is_exponent(s@, e as int),
{
    if e >= n {
        return false;
    }
    let c = s.get_char(e);
    if !char_is(c, 'e', 'E') {
        return false;
    }
    let mut d = e + 1;
    if d < n {
        let sc = s.get_char(d);
        if sc == '+' || sc == '-' {
            d = d + 1;
        }
    }
    d < n && digits_end(s, n, d) == n
}

/// Whether `s` reads as a number (see `is_number_text`).
pub fn is_number(s: &str) -> (r: bool)
    ensures
        r == is_number_text(s@),
{
    let n = s.unicode_len();
    let mut b: usize = 0;
    if n > 0 {
        let c = s.get_char(0);
        if c == '+' || c == '-' {
            b = 1;
        }
    }
    if special_word_at(s, n, b) {
        return true;
    }
    let int_end = digits_end(s, n, b);
    let has_point = int_end < n && s.get_char(int_end) == '.';
    let frac_end = if has_point {
        digits_end(s, n, int_end + 1)
    } else {
        int_end
    };
    let n_digits = if has_point {
        (int_end - b) + (frac_end - int_end - 1)
    } else {
        int_end - b
    };
    n_digits > 0 && (frac_end == n || exponent_at(s, n, frac_end))
}

/// Whether more than half of `vals` (rounded down) are non-empty strings that
/// do not read as numbers.
pub fn is_mostly_strings(vals: &Vec<String>) -> (r: bool)
    ensures
        r == (non_numeric_count(vals@) > vals.len() / 2),
{
    let mut count: usize = 0;
    let mut i: usize = 0;
    while i < vals.len()
        invariant
            i <= vals.len(),
            count == non_numeric_count(vals@.subrange(0, i as int)),
            count <= i,
        decreases vals.len() - i,
    {
        let v = &vals[i];
        let counts = v.unicode_len() > 0 && !is_number(v.as_str());
        proof {
            let sub = vals@.subrange(0, i as int + 1);
            assert(sub.drop_last() =~= vals@.subrange(0, i as int));
        }
        if counts {
            count = count + 1;
        }
        i = i + 1;
    }
    proof {
        assert(vals@.subrange(0, vals.len() as int) =~= vals@);
    }
    count > vals.len() / 2
}

} // verus!
