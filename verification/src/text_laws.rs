//! What the text and number operations promise.

use vstd::prelude::*;

use crate::numbers;
use crate::text;
use crate::text_facts;

verus! {

// ---------------------------------------------------------------------------
// Trimming
// ---------------------------------------------------------------------------

/// White space on either side is taken off, and nothing else is.
pub proof fn law_trimmed(before: Seq<char>, s: Seq<char>, after: Seq<char>)
    requires
        forall|i: int| 0 <= i < before.len() ==> text::is_space(#[trigger] before[i]),
        forall|i: int| 0 <= i < after.len() ==> text::is_space(#[trigger] after[i]),
        s.len() > 0 ==> !text::is_space(s[0]) && !text::is_space(s[s.len() - 1]),
    ensures
        text::trimmed(before + s + after) == s,
{
    text_facts::lemma_trimmed_between(before, s, after);
    if s.len() > 0 {
        text_facts::lemma_trimmed_same(s);
    }
}

/// A run of one character in front is taken off, and nothing else is.
pub proof fn law_without_leading(k: nat, c: char, s: Seq<char>)
    requires
        s.len() > 0 ==> s[0] != c,
    ensures
        text::without_leading(Seq::new(k, |i: int| c) + s, c) == s,
    decreases k,
{
    let t = Seq::new(k, |i: int| c) + s;
    if k > 0 {
        law_without_leading((k - 1) as nat, c, s);
        assert(t[0] == c);
        assert(t.drop_first() =~= Seq::new((k - 1) as nat, |i: int| c) + s);
    } else {
        assert(t =~= s);
    }
}

/// A run of one character at the end is taken off, and nothing else is.
pub proof fn law_without_trailing(k: nat, c: char, s: Seq<char>)
    requires
        s.len() > 0 ==> s[s.len() - 1] != c,
    ensures
        text::without_trailing(s + Seq::new(k, |i: int| c), c) == s,
    decreases k,
{
    let t = s + Seq::new(k, |i: int| c);
    if k > 0 {
        law_without_trailing((k - 1) as nat, c, s);
        assert(t.last() == c);
        assert(t.drop_last() =~= s + Seq::new((k - 1) as nat, |i: int| c));
    } else {
        assert(t =~= s);
    }
}

// ---------------------------------------------------------------------------
// Searching
// ---------------------------------------------------------------------------

/// A pattern stands where a text is what comes before it, the pattern, and what
/// comes behind it.
pub proof fn law_occurs(a: Seq<char>, pat: Seq<char>, b: Seq<char>, s: Seq<char>, i: int)
    ensures
        text::occurs_at(a + pat + b, pat, a.len() as int),
        text::occurs(a + pat + b, pat),
        text::occurs_at(s, pat, i) ==> 0 <= i && i + pat.len() <= s.len() && s == s.take(i) + pat
            + s.skip(i + pat.len()),
        text::occurs(s, pat) ==> exists|j: int| text::occurs_at(s, pat, j),
{
    let w = a + pat + b;
    assert(w.subrange(a.len() as int, a.len() as int + pat.len()) =~= pat);
    assert(text::occurs_at(w, pat, a.len() as int));
    if text::occurs_at(s, pat, i) {
        assert(s =~= s.take(i) + s.subrange(i, i + pat.len()) + s.skip(i + pat.len()));
    }
}

/// The position of a pattern is the first place where it stands.
pub proof fn law_position(a: Seq<char>, pat: Seq<char>, b: Seq<char>)
    requires
        forall|j: int| 0 <= j < a.len() ==> !text::occurs_at(a + pat + b, pat, j),
    ensures
        text::position_of(a + pat + b, pat) == Some(a.len() as int),
{
    law_occurs(a, pat, b, a, 0);
    text_facts::lemma_position_is(a + pat + b, pat, a.len() as int);
}

/// A pattern that stands nowhere has no position.
pub proof fn law_no_position(s: Seq<char>, pat: Seq<char>)
    requires
        forall|j: int| !text::occurs_at(s, pat, j),
    ensures
        text::position_of(s, pat) is None,
{
    text_facts::lemma_position_none(s, pat);
}

/// The last position of a character is where it stands and is not found behind.
pub proof fn law_last_position(a: Seq<char>, c: char, b: Seq<char>)
    requires
        forall|i: int| 0 <= i < b.len() ==> b[i] != c,
    ensures
        text::last_position(a + seq![c] + b, c) == Some(a.len() as int),
        text::last_position(b, c) is None,
{
    let s = a + seq![c] + b;
    assert forall|j: int| a.len() < j < s.len() implies s[j] != c by {
        assert(s[j] == b[j - a.len() - 1]);
    }
    text_facts::lemma_last_position_is(s, c, a.len() as int);
    text_facts::lemma_last_position(b, c);
}

// ---------------------------------------------------------------------------
// Cutting and joining
// ---------------------------------------------------------------------------

/// The first piece ends at the first separator, and the others are the pieces of
/// what follows it.
pub proof fn law_first_piece(a: Seq<char>, sep: Seq<char>, b: Seq<char>)
    requires
        sep.len() > 0,
        forall|j: int| 0 <= j < a.len() ==> !text::occurs_at(a + sep + b, sep, j),
    ensures
        text::pieces(a + sep + b, sep) == seq![a] + text::pieces(b, sep),
{
    let s = a + sep + b;
    let k = a.len() as int;
    law_occurs(a, sep, b, a, 0);
    text_facts::lemma_pieces_cut(s, sep, k);
    assert(s.take(k) =~= a);
    assert(s.skip(k + sep.len()) =~= b);
}

/// A text without the separator is its one piece.
pub proof fn law_only_piece(s: Seq<char>, sep: Seq<char>)
    requires
        forall|j: int| !text::occurs_at(s, sep, j),
    ensures
        text::pieces(s, sep) == seq![s],
{
    text_facts::lemma_pieces_one(s, sep);
}

/// What was cut apart is put together again by joining.
pub proof fn law_pieces_join(s: Seq<char>, sep: Seq<char>)
    requires
        sep.len() > 0,
    ensures
        text::joined(text::pieces(s, sep), sep) == s,
{
    text_facts::lemma_joined_pieces(s, sep);
}

/// A text is joined to those before it with one separator.
pub proof fn law_joined(parts: Seq<Seq<char>>, p: Seq<char>, sep: Seq<char>)
    ensures
        text::joined(Seq::<Seq<char>>::empty(), sep).len() == 0,
        text::joined(seq![p], sep) == p,
        parts.len() > 0 ==> text::joined(parts.push(p), sep) == text::joined(parts, sep) + sep + p,
{
    if parts.len() > 0 {
        text_facts::lemma_joined_concat(parts, seq![p], sep);
        assert(parts + seq![p] =~= parts.push(p));
    }
}

// ---------------------------------------------------------------------------
// Lines
// ---------------------------------------------------------------------------

/// A carriage return before a line feed is taken out, and nothing else is.
pub proof fn law_unix_text(a: Seq<char>, b: Seq<char>, s: Seq<char>)
    requires
        forall|i: int| 0 <= i < s.len() - 1 ==> !(#[trigger] s[i] == '\r' && s[i + 1] == '\n'),
    ensures
        text::unix_text(a + seq!['\r', '\n'] + b) == text::unix_text(a) + seq!['\n']
            + text::unix_text(b),
        text::unix_text(s) == s,
{
    let cr = seq!['\r'];
    let w = a + cr;
    assert(a + seq!['\r', '\n'] + b =~= w + seq!['\n'] + b);
    text_facts::lemma_unix_line(w, b);
    assert(text::without_cr(w) =~= a);
    assert forall|i: int| !text::occurs_at(s, seq!['\r', '\n'], i) by {
        text_facts::lemma_occurs_two(s, '\r', '\n', i);
    }
    text_facts::lemma_unix_text_same(s);
}

/// Lines are made empty where they are white space alone, and stay as they are
/// otherwise, each for itself.
pub proof fn law_cleared(a: Seq<char>, b: Seq<char>, line: Seq<char>, i: int)
    requires
        forall|j: int| 0 <= j < line.len() ==> line[j] != '\n',
    ensures
        text::cleared(a + seq!['\n'] + b) == text::cleared(a) + seq!['\n'] + text::cleared(b),
        0 <= i < line.len() && !text::is_space(line[i]) ==> text::cleared(line) == line,
        (forall|j: int| 0 <= j < line.len() ==> text::is_space(#[trigger] line[j]))
            ==> text::cleared(line).len() == 0,
{
    text_facts::lemma_cleared_concat(a, b);
    text_facts::lemma_cleared_one(line);
}

/// A text is all white space if and only if none of its characters is another.
pub proof fn law_all_space(s: Seq<char>, c: char)
    ensures
        text::all_space(Seq::<char>::empty()),
        text::all_space(s.push(c)) <==> text::all_space(s) && text::is_space(c),
{
    let t = s.push(c);
    if text::all_space(t) {
        assert(t[s.len() as int] == c);
        assert forall|i: int| 0 <= i < s.len() implies text::is_space(#[trigger] s[i]) by {
            assert(t[i] == s[i]);
        }
    }
}

/// A line ends at a line feed or at a carriage return and a line feed, which are
/// not part of it, and the last line may end with the text.
pub proof fn law_lines(line: Seq<char>, rest: Seq<char>)
    requires
        forall|i: int| 0 <= i < line.len() ==> line[i] != '\n',
    ensures
        text::lines_of(line + seq!['\r', '\n'] + rest) == seq![line] + text::lines_of(rest),
        line.len() > 0 ==> line[line.len() - 1] != '\r' ==> text::lines_of(
            line + seq!['\n'] + rest,
        ) == seq![line] + text::lines_of(rest),
        text::lines_of(seq!['\n'] + rest) == seq![Seq::<char>::empty()] + text::lines_of(rest),
        line.len() > 0 ==> text::lines_of(line) == seq![line],
        text::lines_of(Seq::<char>::empty()).len() == 0,
{
    let none = Seq::<char>::empty();
    let w = line + seq!['\r'];
    assert(line + seq!['\r', '\n'] + rest =~= w + seq!['\n'] + rest);
    text_facts::lemma_lines_front(w, rest);
    assert(text::without_cr(w) =~= line);
    text_facts::lemma_lines_front(line, rest);
    text_facts::lemma_lines_front(none, rest);
    assert(none + seq!['\n'] + rest =~= seq!['\n'] + rest);
    text_facts::lemma_first_line(line);
}

// ---------------------------------------------------------------------------
// Characters and bytes
// ---------------------------------------------------------------------------

/// Every character that is to be replaced is, and no other.
pub proof fn law_with_char(s: Seq<char>, from: char, to: char, i: int)
    requires
        0 <= i < s.len(),
    ensures
        text::with_char(s, from, to).len() == s.len(),
        s[i] == from ==> text::with_char(s, from, to)[i] == to,
        s[i] != from ==> text::with_char(s, from, to)[i] == s[i],
{
}

/// A character takes as many bytes in UTF-8 as it takes groups of bits: up to
/// 7 bits one, up to 11 two, up to 16 three, and four beyond.
pub proof fn law_utf8_len(c: char)
    ensures
        1 <= text::utf8_len(c) <= 4,
        text::utf8_len(c) == 1 <==> (c as int) < 0x80,
        text::utf8_len(c) <= 2 <==> (c as int) < 0x800,
        text::utf8_len(c) <= 3 <==> (c as int) < 0x1_0000,
{
}

/// The number of bytes that `s` takes in UTF-8.
pub open spec fn bytes_in(s: Seq<char>) -> int
    decreases s.len(),
{
    if s.len() == 0 {
        0
    } else {
        text::utf8_len(s[0]) + bytes_in(s.drop_first())
    }
}

/// The first bytes of a text are the characters that take them, where they take
/// them exactly; a text that is shorter is taken whole; and a character that
/// reaches across the end leaves nothing.
pub proof fn law_first_bytes(a: Seq<char>, c: char, b: Seq<char>, n: int)
    requires
        0 <= n,
    ensures
        bytes_in(a) == n ==> text::first_bytes(a + b, n) == Some(a),
        bytes_in(a) <= n ==> text::first_bytes(a, n) == Some(a),
        bytes_in(a) < n < bytes_in(a) + text::utf8_len(c) ==> text::first_bytes(
            a + seq![c] + b,
            n,
        ) is None,
    decreases a.len(),
{
    if a.len() > 0 {
        let t = a.drop_first();
        let k = text::utf8_len(a[0]);
        lemma_bytes_nonnegative(t);
        if k <= n {
            law_first_bytes(t, c, b, n - k);
        }
        assert((a + b).drop_first() =~= t + b);
        assert((a + seq![c] + b).drop_first() =~= t + seq![c] + b);
        assert((a + b)[0] == a[0] && (a + seq![c] + b)[0] == a[0]);
        assert(seq![a[0]] + t =~= a);
    } else {
        assert((a + seq![c] + b)[0] == c);
        assert(a =~= Seq::empty());
    }
}

/// No text takes a negative number of bytes.
proof fn lemma_bytes_nonnegative(s: Seq<char>)
    ensures
        0 <= bytes_in(s),
    decreases s.len(),
{
    if s.len() > 0 {
        lemma_bytes_nonnegative(s.drop_first());
    }
}

/// The texts of a list are the texts of its items, in order.
pub proof fn law_texts(v: Seq<Vec<char>>, i: int)
    ensures
        text::texts(v).len() == v.len(),
        0 <= i < v.len() ==> text::texts(v)[i] == v[i]@,
{
}

// ---------------------------------------------------------------------------
// Numbers
// ---------------------------------------------------------------------------

/// Each digit behind others makes ten times as much of them.
pub proof fn law_digits_value(s: Seq<char>, c: char)
    ensures
        numbers::digits_value(Seq::<char>::empty()) == 0,
        numbers::digits_value(s.push(c)) == 10 * numbers::digits_value(s) + (c as int - 48),
{
    assert(s.push(c).drop_last() =~= s);
}

/// A number is written in digits that stand for it, without zeros in front.
pub proof fn law_decimal(n: int, i: int)
    requires
        0 <= n,
    ensures
        numbers::decimal(n).len() > 0,
        numbers::digits_value(numbers::decimal(n)) == n,
        0 <= i < numbers::decimal(n).len() ==> '0' <= numbers::decimal(n)[i] <= '9',
        numbers::decimal(n).len() > 1 ==> numbers::decimal(n)[0] != '0',
{
    numbers::lemma_decimal_value(n);
    if 0 <= i < numbers::decimal(n).len() {
        assert(numbers::is_digit(numbers::decimal(n)[i]));
    }
    lemma_no_zero_in_front(n);
}

/// A positive number starts with no zero.
proof fn lemma_no_zero_in_front(n: int)
    requires
        0 <= n,
    ensures
        n > 0 ==> numbers::decimal(n)[0] != '0',
        n == 0 ==> numbers::decimal(n).len() == 1,
        n < 10 ==> numbers::decimal(n).len() == 1,
    decreases n,
{
    if n >= 10 {
        lemma_no_zero_in_front(n / 10);
        numbers::lemma_decimal_value(n / 10);
    }
}

/// A padded number is the number with zeros in front, just as many as it takes.
pub proof fn law_padded(n: int, width: int, i: int)
    requires
        0 <= n,
    ensures
        ({
            let d = numbers::decimal(n);
            let p = numbers::padded(n, width);
            let front = p.len() - d.len();
            &&& d.len() >= width ==> p == d
            &&& d.len() < width ==> p.len() == width
            &&& p.skip(front) == d
            &&& 0 <= i < front ==> p[i] == '0'
        }),
{
    let d = numbers::decimal(n);
    let p = numbers::padded(n, width);
    assert(p.skip(p.len() - d.len()) =~= d);
    if d.len() >= width {
        assert(p =~= d);
    }
}

/// A row of digits is read as the number it stands for, with a plus sign or
/// without, where it is not too large.
pub proof fn law_unsigned_read(d: Seq<char>, max: int)
    requires
        d.len() > 0,
        forall|i: int| 0 <= i < d.len() ==> '0' <= #[trigger] d[i] <= '9',
    ensures
        numbers::digits_value(d) <= max ==> numbers::unsigned_value(d, max) == Some(
            numbers::digits_value(d),
        ),
        numbers::digits_value(d) > max ==> numbers::unsigned_value(d, max) is None,
        numbers::unsigned_value(seq!['+'] + d, max) == numbers::unsigned_value(d, max),
{
    lemma_digits(d);
    assert((seq!['+'] + d).drop_first() =~= d);
}

/// A row of digits is read as the number it stands for, or as its opposite
/// behind a minus sign, where it fits in 64 bits.
pub proof fn law_signed_read(d: Seq<char>)
    requires
        d.len() > 0,
        forall|i: int| 0 <= i < d.len() ==> '0' <= #[trigger] d[i] <= '9',
    ensures
        ({
            let v = numbers::digits_value(d);
            &&& v <= 0x7fff_ffff_ffff_ffff ==> numbers::signed_value(d) == Some(v)
            &&& v > 0x7fff_ffff_ffff_ffff ==> numbers::signed_value(d) is None
            &&& numbers::signed_value(seq!['+'] + d) == numbers::signed_value(d)
            &&& v <= 0x8000_0000_0000_0000 ==> numbers::signed_value(seq!['-'] + d) == Some(-v)
            &&& v > 0x8000_0000_0000_0000 ==> numbers::signed_value(seq!['-'] + d) is None
        }),
{
    lemma_digits(d);
    numbers::lemma_digits_value_nonnegative(d);
    assert((seq!['+'] + d).drop_first() =~= d);
    assert((seq!['-'] + d).drop_first() =~= d);
}

/// Digits are digits, and no signs.
proof fn lemma_digits(d: Seq<char>)
    requires
        d.len() > 0,
        forall|i: int| 0 <= i < d.len() ==> '0' <= #[trigger] d[i] <= '9',
    ensures
        numbers::all_digits(d),
        d[0] != '+',
        d[0] != '-',
{
    assert('0' <= d[0] <= '9');
}

/// What holds a character that is no digit is no number, but for a sign in
/// front; nor is an empty text, nor a sign alone.
pub proof fn law_no_number(s: Seq<char>, i: int, max: int)
    ensures
        0 <= i < s.len() && !('0' <= s[i] <= '9') && (i > 0 || s[0] != '+')
            ==> numbers::unsigned_value(s, max) is None,
        0 <= i < s.len() && !('0' <= s[i] <= '9') && (i > 0 || (s[0] != '+' && s[0] != '-'))
            ==> numbers::signed_value(s) is None,
        numbers::unsigned_value(Seq::<char>::empty(), max) is None,
        numbers::signed_value(Seq::<char>::empty()) is None,
        numbers::unsigned_value(seq!['+'], max) is None,
        numbers::signed_value(seq!['+']) is None,
        numbers::signed_value(seq!['-']) is None,
{
    if 0 <= i < s.len() && !('0' <= s[i] <= '9') {
        assert(!numbers::is_digit(s[i]));
        if i > 0 {
            assert(s.drop_first()[i - 1] == s[i]);
            assert(!numbers::all_digits(s.drop_first()));
        }
        assert(!numbers::all_digits(s));
    }
    assert(seq!['+'].drop_first() =~= Seq::empty());
    assert(seq!['-'].drop_first() =~= Seq::empty());
}

} // verus!
