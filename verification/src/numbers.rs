//! Decimal numbers, read from text and written as text.

use vstd::prelude::*;
use vstd::slice::slice_subrange;

verus! {

// ---------------------------------------------------------------------------
// What the numerals mean
// ---------------------------------------------------------------------------

/// The ten ASCII digits.
pub open spec fn is_digit(c: char) -> bool {
    '0' <= c <= '9'
}

/// Every character of `s` is an ASCII digit.
pub open spec fn all_digits(s: Seq<char>) -> bool {
    forall|i: int| 0 <= i < s.len() ==> is_digit(#[trigger] s[i])
}

/// The number that a row of digits stands for.
pub open spec fn digits_value(s: Seq<char>) -> int
    decreases s.len(),
{
    if s.len() == 0 {
        0
    } else {
        10 * digits_value(s.drop_last()) + (s.last() as int - '0' as int)
    }
}

/// `s` without the sign that it may start with.
pub open spec fn without_sign(s: Seq<char>, minus_too: bool) -> Seq<char> {
    if s.len() > 0 && (s[0] == '+' || (minus_too && s[0] == '-')) {
        s.drop_first()
    } else {
        s
    }
}

/// What `s` stands for as an unsigned number of at most `max`: an optional
/// plus sign, then one or more digits.
pub open spec fn unsigned_value(s: Seq<char>, max: int) -> Option<int> {
    let body = without_sign(s, false);
    if body.len() > 0 && all_digits(body) && digits_value(body) <= max {
        Some(digits_value(body))
    } else {
        None
    }
}

/// What `s` stands for as a signed 64-bit number: an optional sign, then one
/// or more digits.
pub open spec fn signed_value(s: Seq<char>) -> Option<int> {
    let body = without_sign(s, true);
    let value = if s.len() > 0 && s[0] == '-' {
        -digits_value(body)
    } else {
        digits_value(body)
    };
    if body.len() > 0 && all_digits(body) && i64::MIN <= value <= i64::MAX {
        Some(value)
    } else {
        None
    }
}

/// The digit for `d`, where `d` is below ten.
pub open spec fn digit(d: int) -> char {
    ('0' as int + d) as char
}

/// The shortest row of digits that stands for `n`.
pub open spec fn decimal(n: int) -> Seq<char>
    decreases n,
{
    if n < 10 {
        seq![digit(n)]
    } else {
        decimal(n / 10).push(digit(n % 10))
    }
}

/// A row of `n` zeros.
pub open spec fn zeros(n: int) -> Seq<char> {
    Seq::new(
        if n > 0 {
            n as nat
        } else {
            0
        },
        |i: int| '0',
    )
}

/// The row of digits for `n`, with zeros in front up to `width` characters.
pub open spec fn padded(n: int, width: int) -> Seq<char> {
    zeros(width - decimal(n).len()) + decimal(n)
}

// ---------------------------------------------------------------------------
// Reading
// ---------------------------------------------------------------------------

/// A longer row of digits stands for no smaller number.
proof fn lemma_digits_value_grows(s: Seq<char>, i: int)
    requires
        all_digits(s),
        0 <= i <= s.len(),
    ensures
        0 <= digits_value(s.take(i)) <= digits_value(s),
    decreases s.len(),
{
    if s.len() == 0 {
        assert(s.take(i) =~= s);
    } else {
        let t = s.drop_last();
        assert(is_digit(s.last()));
        assert forall|j: int| 0 <= j < t.len() implies is_digit(#[trigger] t[j]) by {
            assert(t[j] == s[j]);
        }
        if i == s.len() {
            lemma_digits_value_grows(t, t.len() as int);
            assert(t.take(t.len() as int) =~= t);
            assert(s.take(i) =~= s);
        } else {
            lemma_digits_value_grows(t, i);
            assert(s.take(i) =~= t.take(i));
        }
    }
}

/// No row of digits stands for a negative number.
pub proof fn lemma_digits_value_nonnegative(s: Seq<char>)
    requires
        all_digits(s),
    ensures
        0 <= digits_value(s),
{
    lemma_digits_value_grows(s, 0);
}

/// The number that a row of digits stands for, where it fits.
fn read_digits(s: &[char]) -> (r: Option<u64>)
    ensures
        match r {
            Some(v) => s@.len() > 0 && all_digits(s@) && digits_value(s@) == v,
            None => !(s@.len() > 0 && all_digits(s@) && digits_value(s@) <= u64::MAX),
        },
{
    if s.len() == 0 {
        return None;
    }
    let mut acc: u64 = 0;
    let mut i: usize = 0;
    while i < s.len()
        invariant
            i <= s@.len(),
            all_digits(s@.take(i as int)),
            acc == digits_value(s@.take(i as int)),
        decreases s@.len() - i,
    {
        let c: char = s[i];
        if !('0' <= c && c <= '9') {
            proof {
                assert(!is_digit(s@[i as int]));
            }
            return None;
        }
        let d: u64 = (c as u64) - ('0' as u64);
        proof {
            let next = s@.take(i + 1);
            assert(next.drop_last() =~= s@.take(i as int));
            assert(next.last() == c);
            assert forall|j: int| 0 <= j < next.len() implies is_digit(#[trigger] next[j]) by {
                if j < i {
                    assert(next[j] == s@.take(i as int)[j]);
                }
            }
            assert(digits_value(next) == 10 * acc + d);
            if all_digits(s@) {
                lemma_digits_value_grows(s@, i + 1);
            }
        }
        if acc > (u64::MAX - d) / 10 {
            return None;
        }
        acc = acc * 10 + d;
        i += 1;
    }
    proof {
        assert(s@.take(s@.len() as int) =~= s@);
    }
    Some(acc)
}

/// Reads `s` as an unsigned 64-bit number.
pub fn parse_u64(s: &[char]) -> (r: Option<u64>)
    ensures
        match r {
            Some(v) => unsigned_value(s@, u64::MAX as int) == Some(v as int),
            None => unsigned_value(s@, u64::MAX as int) is None,
        },
{
    if s.len() > 0 && s[0] == '+' {
        let body: &[char] = slice_subrange(s, 1, s.len());
        proof {
            assert(body@ =~= s@.drop_first());
        }
        read_digits(body)
    } else {
        read_digits(s)
    }
}

/// Reads `s` as an unsigned number of the machine's word size.
pub fn parse_usize(s: &[char]) -> (r: Option<usize>)
    ensures
        match r {
            Some(v) => unsigned_value(s@, usize::MAX as int) == Some(v as int),
            None => unsigned_value(s@, usize::MAX as int) is None,
        },
{
    match parse_u64(s) {
        Some(v) => {
            if v <= usize::MAX as u64 {
                Some(v as usize)
            } else {
                None
            }
        },
        None => None,
    }
}

/// Reads `s` as a signed 64-bit number.
pub fn parse_i64(s: &[char]) -> (r: Option<i64>)
    ensures
        match r {
            Some(v) => signed_value(s@) == Some(v as int),
            None => signed_value(s@) is None,
        },
{
    if s.len() > 0 && (s[0] == '+' || s[0] == '-') {
        let body: &[char] = slice_subrange(s, 1, s.len());
        proof {
            assert(body@ =~= s@.drop_first());
        }
        match read_digits(body) {
            Some(v) => {
                if s[0] == '-' {
                    if v < 0x8000_0000_0000_0000 {
                        Some(-(v as i64))
                    } else if v == 0x8000_0000_0000_0000 {
                        Some(i64::MIN)
                    } else {
                        None
                    }
                } else if v <= i64::MAX as u64 {
                    Some(v as i64)
                } else {
                    None
                }
            },
            None => None,
        }
    } else {
        match read_digits(s) {
            Some(v) => {
                if v <= i64::MAX as u64 {
                    Some(v as i64)
                } else {
                    None
                }
            },
            None => None,
        }
    }
}

// ---------------------------------------------------------------------------
// Writing
// ---------------------------------------------------------------------------

/// The shortest row of digits that stands for `n`.
fn decimal_chars(n: u64) -> (r: Vec<char>)
    ensures
        r@ == decimal(n as int),
    decreases n,
{
    let last: char = ('0' as u8 + (n % 10) as u8) as char;
    let mut out: Vec<char> = if n < 10 {
        Vec::new()
    } else {
        decimal_chars(n / 10)
    };
    proof {
        assert(n < 10 ==> n % 10 == n);
        assert(n < 10 ==> out@.push(last) =~= seq![last]);
    }
    out.push(last);
    out
}

/// Appends the row of digits for `n` to `out`, with zeros in front up to
/// `width` characters.
pub fn push_padded(out: &mut String, n: u64, width: usize)
    ensures
        final(out)@ == old(out)@ + padded(n as int, width as int),
{
    let digits: Vec<char> = decimal_chars(n);
    let mut i: usize = digits.len();
    let ghost start = out@;
    proof {
        assert(start =~= start + zeros(0));
    }
    while i < width
        invariant
            digits@ == decimal(n as int),
            digits@.len() <= i,
            i <= width || i == digits@.len(),
            out@ == start + zeros(i - digits@.len()),
        decreases width - i,
    {
        proof {
            assert(zeros(i - digits@.len()).push('0') =~= zeros(i + 1 - digits@.len()));
        }
        out.push('0');
        i += 1;
    }
    proof {
        assert(zeros(i - digits@.len()) =~= zeros(width - digits@.len()));
    }
    let ghost front = out@;
    let mut k: usize = 0;
    while k < digits.len()
        invariant
            k <= digits@.len(),
            out@ == front + digits@.take(k as int),
        decreases digits@.len() - k,
    {
        proof {
            assert(digits@.take(k + 1) =~= digits@.take(k as int).push(digits@[k as int]));
        }
        out.push(digits[k]);
        k += 1;
    }
    proof {
        assert(digits@.take(k as int) =~= digits@);
        assert(out@ =~= start + padded(n as int, width as int));
    }
}

/// Appends the row of digits for `n` to `out`.
pub fn push_decimal(out: &mut String, n: u64)
    ensures
        final(out)@ == old(out)@ + decimal(n as int),
{
    proof {
        assert(padded(n as int, 0) =~= decimal(n as int));
    }
    push_padded(out, n, 0);
}

// ---------------------------------------------------------------------------
// Reading what was written
// ---------------------------------------------------------------------------

/// The row of digits for a number stands for that number.
pub proof fn lemma_decimal_value(n: int)
    requires
        0 <= n,
    ensures
        decimal(n).len() > 0,
        all_digits(decimal(n)),
        digits_value(decimal(n)) == n,
    decreases n,
{
    let s = decimal(n);
    if n < 10 {
        assert(s.drop_last() =~= Seq::empty());
        assert(digits_value(s.drop_last()) == 0);
    } else {
        lemma_decimal_value(n / 10);
        assert(s.drop_last() =~= decimal(n / 10));
        assert forall|i: int| 0 <= i < s.len() implies is_digit(#[trigger] s[i]) by {
            if i < s.len() - 1 {
                assert(s[i] == decimal(n / 10)[i]);
            }
        }
    }
}

/// Zeros in front do not change what a row of digits stands for.
pub proof fn lemma_zeros_value(k: int, s: Seq<char>)
    requires
        all_digits(s),
    ensures
        all_digits(zeros(k) + s),
        digits_value(zeros(k) + s) == digits_value(s),
    decreases k, s.len(),
{
    let t = zeros(k) + s;
    assert forall|i: int| 0 <= i < t.len() implies is_digit(#[trigger] t[i]) by {
        if i >= zeros(k).len() {
            assert(t[i] == s[i - zeros(k).len()]);
        }
    }
    if s.len() > 0 {
        assert(t.drop_last() =~= zeros(k) + s.drop_last());
        assert forall|i: int| 0 <= i < s.drop_last().len() implies is_digit(
            #[trigger] s.drop_last()[i],
        ) by {
            assert(s.drop_last()[i] == s[i]);
        }
        lemma_zeros_value(k, s.drop_last());
    } else if k > 0 {
        assert(t.drop_last() =~= zeros(k - 1) + s);
        lemma_zeros_value(k - 1, s);
    } else {
        assert(t =~= s);
    }
}

/// The padded row of digits for a number stands for that number.
pub proof fn lemma_padded_value(n: int, width: int)
    requires
        0 <= n,
    ensures
        padded(n, width).len() > 0,
        padded(n, width).len() >= width,
        all_digits(padded(n, width)),
        digits_value(padded(n, width)) == n,
{
    lemma_decimal_value(n);
    lemma_zeros_value(width - decimal(n).len(), decimal(n));
}

/// A row of digits carries no sign.
pub proof fn lemma_digits_unsigned(s: Seq<char>, minus_too: bool)
    requires
        all_digits(s),
    ensures
        without_sign(s, minus_too) == s,
        s.len() > 0 ==> s[0] != '-' && s[0] != '+',
{
    if s.len() > 0 {
        assert(is_digit(s[0]));
    }
}

} // verus!
