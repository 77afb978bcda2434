//! Facts about the text operations.

use crate::text;
use vstd::prelude::*;

verus! {

/// Nothing in front of a text leaves it as it is.
pub proof fn lemma_nothing_in_front(s: Seq<char>)
    ensures
        Seq::<char>::empty() + s == s,
{
    assert(Seq::<char>::empty() + s =~= s);
}

// ---------------------------------------------------------------------------
// Positions
// ---------------------------------------------------------------------------

/// What the position of a pattern says of the places where it stands.
pub proof fn lemma_position_from(s: Seq<char>, pat: Seq<char>, from: int)
    requires
        0 <= from,
    ensures
        match text::position_from(s, pat, from) {
            Some(i) => from <= i && text::occurs_at(s, pat, i) && forall|j: int|
                from <= j < i ==> !text::occurs_at(s, pat, j),
            None => forall|j: int| from <= j ==> !text::occurs_at(s, pat, j),
        },
    decreases s.len() - from + 1,
{
    if from + pat.len() <= s.len() && !text::occurs_at(s, pat, from) {
        lemma_position_from(s, pat, from + 1);
    }
}

/// The leftmost occurrence is the position.
pub proof fn lemma_position_is(s: Seq<char>, pat: Seq<char>, i: int)
    requires
        text::occurs_at(s, pat, i),
        forall|j: int| 0 <= j < i ==> !text::occurs_at(s, pat, j),
    ensures
        text::position_of(s, pat) == Some(i),
{
    lemma_position_from(s, pat, 0);
}

/// A pattern that stands nowhere has no position.
pub proof fn lemma_position_none(s: Seq<char>, pat: Seq<char>)
    requires
        !text::occurs(s, pat),
    ensures
        text::position_of(s, pat) is None,
{
    lemma_position_from(s, pat, 0);
}

/// Where a pattern of one character stands.
pub proof fn lemma_occurs_one(s: Seq<char>, c: char, i: int)
    ensures
        text::occurs_at(s, seq![c], i) <==> 0 <= i < s.len() && s[i] == c,
{
    if 0 <= i < s.len() {
        assert(s.subrange(i, i + 1) =~= seq![s[i]]);
        assert(seq![s[i]][0] == s[i]);
        assert(seq![c][0] == c);
    }
}

/// Where a pattern of two characters stands.
pub proof fn lemma_occurs_two(s: Seq<char>, a: char, b: char, i: int)
    ensures
        text::occurs_at(s, seq![a, b], i) <==> 0 <= i && i + 1 < s.len() && s[i] == a && s[i + 1] == b,
{
    let pat = seq![a, b];
    assert(pat[0] == a && pat[1] == b && pat.len() == 2);
    if 0 <= i && i + 2 <= s.len() {
        assert(s.subrange(i, i + 2)[0] == s[i]);
        assert(s.subrange(i, i + 2)[1] == s[i + 1]);
        if s[i] == a && s[i + 1] == b {
            assert(s.subrange(i, i + 2) =~= pat);
        }
    }
}

/// Occurrences move with the text that holds them.
pub proof fn lemma_occurs_skip(s: Seq<char>, pat: Seq<char>, k: int, i: int)
    requires
        0 <= k <= s.len(),
        0 <= i,
    ensures
        text::occurs_at(s.skip(k), pat, i) <==> text::occurs_at(s, pat, i + k),
{
    if i + k + pat.len() <= s.len() {
        assert(s.skip(k).subrange(i, i + pat.len()) =~= s.subrange(i + k, i + k + pat.len()));
    }
}

/// Positions move with the text that holds them.
pub proof fn lemma_position_skip(s: Seq<char>, pat: Seq<char>, k: int)
    requires
        0 <= k <= s.len(),
        forall|j: int| 0 <= j < k ==> !text::occurs_at(s, pat, j),
    ensures
        text::position_of(s, pat) == match text::position_of(s.skip(k), pat) {
            Some(i) => Some(i + k),
            None => None::<int>,
        },
{
    lemma_position_from(s, pat, 0);
    lemma_position_from(s.skip(k), pat, 0);
    match text::position_of(s.skip(k), pat) {
        Some(i) => {
            lemma_occurs_skip(s, pat, k, i);
            assert forall|j: int| 0 <= j < i + k implies !text::occurs_at(s, pat, j) by {
                if j >= k {
                    lemma_occurs_skip(s, pat, k, j - k);
                }
            }
            lemma_position_is(s, pat, i + k);
        },
        None => {
            assert forall|j: int| !text::occurs_at(s, pat, j) by {
                if j >= k {
                    lemma_occurs_skip(s, pat, k, j - k);
                }
            }
        },
    }
}

/// An occurrence in a part of a text is an occurrence in the text.
pub proof fn lemma_occurs_subrange(s: Seq<char>, pat: Seq<char>, a: int, b: int)
    requires
        0 <= a <= b <= s.len(),
        !text::occurs(s, pat),
    ensures
        !text::occurs(s.subrange(a, b), pat),
{
    assert forall|i: int| !text::occurs_at(s.subrange(a, b), pat, i) by {
        if text::occurs_at(s.subrange(a, b), pat, i) {
            assert(s.subrange(a, b).subrange(i, i + pat.len()) =~= s.subrange(
                i + a,
                i + a + pat.len(),
            ));
            assert(text::occurs_at(s, pat, i + a));
        }
    }
}

// ---------------------------------------------------------------------------
// Pieces
// ---------------------------------------------------------------------------

/// A text without the separator is its one piece.
pub proof fn lemma_pieces_one(s: Seq<char>, sep: Seq<char>)
    requires
        !text::occurs(s, sep),
    ensures
        text::pieces(s, sep) == seq![s],
{
    lemma_position_none(s, sep);
}

/// The first piece ends where the separator stands first.
pub proof fn lemma_pieces_cut(s: Seq<char>, sep: Seq<char>, i: int)
    requires
        sep.len() > 0,
        text::occurs_at(s, sep, i),
        forall|j: int| 0 <= j < i ==> !text::occurs_at(s, sep, j),
    ensures
        text::pieces(s, sep) == seq![s.take(i)] + text::pieces(s.skip(i + sep.len()), sep),
{
    lemma_position_is(s, sep, i);
}

/// The texts `parts` with `c` put before the first of them.
pub open spec fn with_first(parts: Seq<Seq<char>>, c: char) -> Seq<Seq<char>> {
    parts.update(0, seq![c] + parts[0])
}

/// A character at which no separator starts belongs to the first piece.
pub proof fn lemma_pieces_step(s: Seq<char>, sep: Seq<char>)
    requires
        sep.len() > 0,
        s.len() > 0,
        !text::occurs_at(s, sep, 0),
    ensures
        text::pieces(s, sep) == with_first(text::pieces(s.skip(1), sep), s[0]),
{
    let t = s.skip(1);
    lemma_position_skip(s, sep, 1);
    lemma_position_from(t, sep, 0);
    match text::position_of(t, sep) {
        Some(i) => {
            assert(s.take(i + 1) =~= seq![s[0]] + t.take(i));
            assert(s.skip(i + 1 + sep.len()) =~= t.skip(i + sep.len()));
            assert(text::pieces(s, sep) =~= with_first(text::pieces(t, sep), s[0]));
        },
        None => {
            assert(s =~= seq![s[0]] + t);
            assert(text::pieces(s, sep) =~= with_first(text::pieces(t, sep), s[0]));
        },
    }
}

// ---------------------------------------------------------------------------
// Joined texts
// ---------------------------------------------------------------------------

/// One more part at the end.
pub proof fn lemma_joined_push(parts: Seq<Seq<char>>, sep: Seq<char>, p: Seq<char>)
    ensures
        text::joined(parts.push(p), sep) == if parts.len() == 0 {
            p
        } else {
            text::joined(parts, sep) + sep + p
        },
    decreases parts.len(),
{
    let all = parts.push(p);
    if parts.len() == 0 {
    } else if parts.len() == 1 {
        assert(all.drop_first() =~= seq![p]);
        assert(text::joined(seq![p], sep) == p);
    } else {
        lemma_joined_push(parts.drop_first(), sep, p);
        assert(all.drop_first() =~= parts.drop_first().push(p));
        assert(all[0] == parts[0]);
        assert(text::joined(all, sep) =~= text::joined(parts, sep) + sep + p);
    }
}

/// One more part at the front.
pub proof fn lemma_joined_front(p: Seq<char>, parts: Seq<Seq<char>>, sep: Seq<char>)
    requires
        parts.len() > 0,
    ensures
        text::joined(seq![p] + parts, sep) == p + sep + text::joined(parts, sep),
{
    assert((seq![p] + parts).drop_first() =~= parts);
}

/// A character put before the first part stands before the joined text.
pub proof fn lemma_joined_with_first(parts: Seq<Seq<char>>, sep: Seq<char>, c: char)
    requires
        parts.len() > 0,
    ensures
        text::joined(with_first(parts, c), sep) == seq![c] + text::joined(parts, sep),
{
    let w = with_first(parts, c);
    if parts.len() > 1 {
        assert(w.drop_first() =~= parts.drop_first());
        assert(text::joined(w, sep) =~= seq![c] + text::joined(parts, sep));
    }
}

/// Joining what was cut apart gives the text back.
pub proof fn lemma_joined_pieces(s: Seq<char>, sep: Seq<char>)
    requires
        sep.len() > 0,
    ensures
        text::joined(text::pieces(s, sep), sep) == s,
    decreases s.len(),
{
    lemma_position_from(s, sep, 0);
    match text::position_of(s, sep) {
        Some(i) => {
            let rest = s.skip(i + sep.len());
            lemma_joined_pieces(rest, sep);
            lemma_joined_front(s.take(i), text::pieces(rest, sep), sep);
            assert(s =~= s.take(i) + sep + rest);
        },
        None => {},
    }
}

// ---------------------------------------------------------------------------
// Line ends
// ---------------------------------------------------------------------------

/// What the first characters of a text become when its line ends are made
/// single line feeds.
pub proof fn lemma_unix_text_step(s: Seq<char>)
    ensures
        s.len() == 0 ==> text::unix_text(s) == s,
        s.len() > 0 && !text::occurs_at(s, seq!['\r', '\n'], 0) ==> text::unix_text(s) == seq![s[0]]
            + text::unix_text(s.skip(1)),
        text::occurs_at(s, seq!['\r', '\n'], 0) ==> text::unix_text(s) == seq!['\n'] + text::unix_text(s.skip(2)),
{
    let sep = seq!['\r', '\n'];
    let lf = seq!['\n'];
    assert(sep.len() == 2);
    if s.len() == 0 {
        assert(!text::occurs(s, sep));
        lemma_pieces_one(s, sep);
    } else if text::occurs_at(s, sep, 0) {
        lemma_pieces_cut(s, sep, 0);
        lemma_joined_front(s.take(0), text::pieces(s.skip(2), sep), lf);
        assert(s.take(0) + lf + text::unix_text(s.skip(2)) =~= lf + text::unix_text(s.skip(2)));
    } else {
        lemma_pieces_step(s, sep);
        lemma_joined_with_first(text::pieces(s.skip(1), sep), lf, s[0]);
    }
}

/// A text without carriage returns before line feeds stays as it is.
pub proof fn lemma_unix_text_same(s: Seq<char>)
    requires
        !text::occurs(s, seq!['\r', '\n']),
    ensures
        text::unix_text(s) == s,
{
    lemma_pieces_one(s, seq!['\r', '\n']);
}

/// Without two carriage returns before a line feed, no carriage return is left
/// before a line feed.
pub proof fn lemma_unix_text_clean(s: Seq<char>)
    requires
        !text::occurs(s, seq!['\r', '\r', '\n']),
    ensures
        !text::occurs(text::unix_text(s), seq!['\r', '\n']),
        s.len() > 0 ==> text::unix_text(s).len() > 0 && (text::unix_text(s)[0] == s[0]
            || text::occurs_at(s, seq!['\r', '\n'], 0)),
        s.len() == 0 ==> text::unix_text(s).len() == 0,
    decreases s.len(),
{
    let crlf = seq!['\r', '\n'];
    let bad = seq!['\r', '\r', '\n'];
    let u = text::unix_text(s);
    lemma_unix_text_step(s);
    lemma_occurs_two(s, '\r', '\n', 0);
    if s.len() == 0 {
        assert(!text::occurs(u, crlf));
    } else {
        let k: int = if text::occurs_at(s, crlf, 0) {
            2
        } else {
            1
        };
        let rest = s.skip(k);
        assert(rest =~= s.subrange(k, s.len() as int));
        lemma_occurs_subrange(s, bad, k, s.len() as int);
        lemma_unix_text_clean(rest);
        let v = text::unix_text(rest);
        assert forall|i: int| !text::occurs_at(u, crlf, i) by {
            lemma_occurs_two(u, '\r', '\n', i);
            if text::occurs_at(u, crlf, i) {
                if i > 0 {
                    lemma_occurs_two(v, '\r', '\n', i - 1);
                    assert(text::occurs_at(v, crlf, i - 1));
                } else {
                    assert(k == 1 && s[0] == '\r' && v[0] == '\n');
                    lemma_occurs_two(rest, '\r', '\n', 0);
                    assert(rest[0] == s[1]);
                    if text::occurs_at(rest, crlf, 0) {
                        assert(s.subrange(0, 3) =~= bad) by {
                            assert(rest[1] == s[2]);
                        }
                        assert(text::occurs_at(s, bad, 0));
                    }
                }
            }
        }
    }
}

/// Without three carriage returns before a line feed, no two are left before a
/// line feed.
pub proof fn lemma_unix_text_cleaner(s: Seq<char>)
    requires
        !text::occurs(s, seq!['\r', '\r', '\r', '\n']),
    ensures
        !text::occurs(text::unix_text(s), seq!['\r', '\r', '\n']),
        s.len() > 0 ==> text::unix_text(s).len() > 0 && (text::unix_text(s)[0] == s[0]
            || text::occurs_at(s, seq!['\r', '\n'], 0)),
        s.len() == 0 ==> text::unix_text(s).len() == 0,
        text::occurs_at(s, seq!['\r', '\n'], 0) ==> text::unix_text(s)[0] == '\n',
    decreases s.len(),
{
    let bad = seq!['\r', '\r', '\n'];
    let worse = seq!['\r', '\r', '\r', '\n'];
    let n = s.len() as int;
    let u = text::unix_text(s);
    lemma_unix_text_step(s);
    lemma_occurs_two(s, '\r', '\n', 0);
    assert(bad.len() == 3 && bad[0] == '\r' && bad[1] == '\r' && bad[2] == '\n');
    if n > 0 {
        let k: int = if text::occurs_at(s, seq!['\r', '\n'], 0) {
            2
        } else {
            1
        };
        let t = s.skip(k);
        let v = text::unix_text(t);
        assert(t =~= s.subrange(k, n));
        lemma_occurs_subrange(s, worse, k, n);
        lemma_unix_text_cleaner(t);
        assert(u.skip(1) =~= v);
        assert forall|i: int| !text::occurs_at(u, bad, i) by {
            if text::occurs_at(u, bad, i) {
                assert(u.subrange(i, i + 3)[0] == u[i]);
                assert(u.subrange(i, i + 3)[1] == u[i + 1]);
                assert(u.subrange(i, i + 3)[2] == u[i + 2]);
                if i > 0 {
                    assert(v.subrange(i - 1, i + 2) =~= u.subrange(i, i + 3));
                    assert(text::occurs_at(v, bad, i - 1));
                } else {
                    assert(u[1] == v[0]);
                    let w = t.skip(1);
                    lemma_unix_text_step(t);
                    lemma_occurs_two(t, '\r', '\n', 0);
                    assert(t[0] == '\r');
                    assert(w =~= s.subrange(2, n));
                    lemma_occurs_subrange(s, worse, 2, n);
                    lemma_unix_text_cleaner(w);
                    lemma_occurs_two(w, '\r', '\n', 0);
                    assert(u[2] == v[1] == text::unix_text(w)[0]);
                    assert(w[0] == s[2]);
                    assert(s.subrange(0, 4) =~= worse);
                    assert(text::occurs_at(s, worse, 0));
                }
            }
        }
    } else {
        assert forall|i: int| !text::occurs_at(u, bad, i) by {}
    }
}

/// A line end is made a single line feed, whatever stands round it.
pub proof fn lemma_unix_line(a: Seq<char>, b: Seq<char>)
    ensures
        text::unix_text(a + seq!['\n'] + b) == text::unix_text(text::without_cr(a)) + seq!['\n']
            + text::unix_text(b),
{
    let lf = seq!['\n'];
    let crlf = seq!['\r', '\n'];
    if a.len() > 0 && a.last() == '\r' {
        let front = a.drop_last();
        assert(a + lf + b =~= front + (crlf + b));
        lemma_unix_text_append(front, crlf + b);
        lemma_unix_text_step(crlf + b);
        lemma_occurs_two(crlf + b, '\r', '\n', 0);
        assert((crlf + b).skip(2) =~= b);
    } else {
        assert(a + lf + b =~= a + (lf + b));
        lemma_unix_text_append(a, lf + b);
        lemma_unix_text_step(lf + b);
        lemma_occurs_two(lf + b, '\r', '\n', 0);
        assert((lf + b).skip(1) =~= b);
    }
    assert(text::unix_text(a + lf + b) =~= text::unix_text(text::without_cr(a)) + lf
        + text::unix_text(b));
}

/// White space stays white space when its line ends are made single line feeds.
pub proof fn lemma_unix_space(w: Seq<char>)
    requires
        text::all_space(w),
    ensures
        text::all_space(text::unix_text(w)),
    decreases w.len(),
{
    lemma_unix_text_step(w);
    if w.len() > 0 {
        let k: int = if text::occurs_at(w, seq!['\r', '\n'], 0) {
            2
        } else {
            1
        };
        let t = w.skip(k);
        assert forall|i: int| 0 <= i < t.len() implies text::is_space(#[trigger] t[i]) by {
            assert(t[i] == w[i + k]);
        }
        lemma_unix_space(t);
        let u = text::unix_text(w);
        assert forall|i: int| 0 <= i < u.len() implies text::is_space(#[trigger] u[i]) by {
            if i == 0 {
                assert(text::is_space(w[0]));
            } else {
                assert(u[i] == text::unix_text(t)[i - 1]);
            }
        }
    }
}

/// `s` with a carriage return put before every line feed.
pub open spec fn dos_text(s: Seq<char>) -> Seq<char>
    decreases s.len(),
{
    if s.len() == 0 {
        s
    } else if s[0] == '\n' {
        seq!['\r', '\n'] + dos_text(s.skip(1))
    } else {
        seq![s[0]] + dos_text(s.skip(1))
    }
}

/// Carriage returns put before line feeds are taken out again.
pub proof fn lemma_unix_of_dos(s: Seq<char>)
    requires
        !text::occurs(s, seq!['\r', '\n']),
    ensures
        text::unix_text(dos_text(s)) == s,
    decreases s.len(),
{
    let d = dos_text(s);
    lemma_unix_text_step(d);
    lemma_occurs_two(d, '\r', '\n', 0);
    if s.len() > 0 {
        let t = s.skip(1);
        assert(t =~= s.subrange(1, s.len() as int));
        lemma_occurs_subrange(s, seq!['\r', '\n'], 1, s.len() as int);
        lemma_unix_of_dos(t);
        if s[0] == '\n' {
            assert(d[0] == '\r' && d[1] == '\n');
            assert(d.skip(2) =~= dos_text(t));
            assert(seq!['\n'] + t =~= s);
        } else {
            lemma_occurs_two(s, '\r', '\n', 0);
            assert(!text::occurs_at(s, seq!['\r', '\n'], 0));
            assert(d[0] == s[0]);
            assert(d.skip(1) =~= dos_text(t));
            if t.len() > 0 {
                assert(t[0] == s[1]);
                assert(d[1] == dos_text(t)[0]);
            }
            assert(seq![s[0]] + t =~= s);
        }
    }
}

/// Line ends are made single line feeds part by part, where none of them
/// stands across the parts.
pub proof fn lemma_unix_text_append(a: Seq<char>, b: Seq<char>)
    requires
        a.len() > 0 && b.len() > 0 ==> !(a.last() == '\r' && b[0] == '\n'),
    ensures
        text::unix_text(a + b) == text::unix_text(a) + text::unix_text(b),
    decreases a.len(),
{
    let s = a + b;
    lemma_unix_text_step(a);
    lemma_unix_text_step(s);
    lemma_occurs_two(a, '\r', '\n', 0);
    lemma_occurs_two(s, '\r', '\n', 0);
    if a.len() == 0 {
        assert(s =~= b);
        assert(text::unix_text(a) + text::unix_text(b) =~= text::unix_text(b));
    } else if text::occurs_at(a, seq!['\r', '\n'], 0) {
        let t = a.skip(2);
        assert(s[0] == a[0] && s[1] == a[1]);
        assert(s.skip(2) =~= t + b);
        lemma_unix_text_append(t, b);
        assert(text::unix_text(s) =~= text::unix_text(a) + text::unix_text(b));
    } else {
        let t = a.skip(1);
        assert(s[0] == a[0]);
        assert(s.skip(1) =~= t + b);
        lemma_unix_text_append(t, b);
        assert(text::unix_text(s) =~= text::unix_text(a) + text::unix_text(b));
    }
}

// ---------------------------------------------------------------------------
// Pairs of characters
// ---------------------------------------------------------------------------

/// A pair of neighbours that stands in neither of two texts, nor where they
/// meet, does not stand in the two put together.
pub proof fn lemma_no_pair(a: Seq<char>, b: Seq<char>, x: char, y: char)
    requires
        !text::occurs(a, seq![x, y]),
        !text::occurs(b, seq![x, y]),
        a.len() > 0 && b.len() > 0 ==> !(a.last() == x && b[0] == y),
    ensures
        !text::occurs(a + b, seq![x, y]),
{
    let s = a + b;
    assert forall|i: int| !text::occurs_at(s, seq![x, y], i) by {
        lemma_occurs_two(s, x, y, i);
        if text::occurs_at(s, seq![x, y], i) {
            if i + 1 < a.len() {
                lemma_occurs_two(a, x, y, i);
                assert(text::occurs_at(a, seq![x, y], i));
            } else if i >= a.len() {
                lemma_occurs_two(b, x, y, i - a.len());
                assert(text::occurs_at(b, seq![x, y], i - a.len()));
            }
        }
    }
}

/// A text without `x` holds no pair that starts with `x`.
pub proof fn lemma_no_pair_without(s: Seq<char>, x: char, y: char)
    requires
        forall|i: int| 0 <= i < s.len() ==> s[i] != x,
    ensures
        !text::occurs(s, seq![x, y]),
{
    assert forall|i: int| !text::occurs_at(s, seq![x, y], i) by {
        lemma_occurs_two(s, x, y, i);
    }
}

// ---------------------------------------------------------------------------
// Fields, lines and parts
// ---------------------------------------------------------------------------

/// A field before its separator is the first piece.
pub proof fn lemma_pieces_field(a: Seq<char>, c: char, rest: Seq<char>)
    requires
        forall|i: int| 0 <= i < a.len() ==> a[i] != c,
    ensures
        text::pieces(a + seq![c] + rest, seq![c]) == seq![a] + text::pieces(rest, seq![c]),
{
    let s = a + seq![c] + rest;
    let i = a.len() as int;
    lemma_occurs_one(s, c, i);
    assert forall|j: int| 0 <= j < i implies !text::occurs_at(s, seq![c], j) by {
        lemma_occurs_one(s, c, j);
        assert(s[j] == a[j]);
    }
    lemma_pieces_cut(s, seq![c], i);
    assert(s.take(i) =~= a);
    assert(s.skip(i + 1) =~= rest);
}

/// A text without the separator is its one field.
pub proof fn lemma_pieces_last_field(a: Seq<char>, c: char)
    requires
        forall|i: int| 0 <= i < a.len() ==> a[i] != c,
    ensures
        text::pieces(a, seq![c]) == seq![a],
{
    assert forall|j: int| !text::occurs_at(a, seq![c], j) by {
        lemma_occurs_one(a, c, j);
    }
    lemma_pieces_one(a, seq![c]);
}

/// The pieces of two texts with a separator between them are the pieces of both.
pub proof fn lemma_pieces_concat(s: Seq<char>, c: char, a: Seq<char>)
    ensures
        text::pieces(s + seq![c] + a, seq![c]) == text::pieces(s, seq![c]) + text::pieces(
            a,
            seq![c],
        ),
    decreases s.len(),
{
    let sep = seq![c];
    let whole = s + sep + a;
    lemma_position_from(s, sep, 0);
    match text::position_of(s, sep) {
        Some(i) => {
            lemma_occurs_one(s, c, i);
            let front = s.take(i);
            let rest = s.skip(i + 1);
            assert forall|j: int| 0 <= j < front.len() implies front[j] != c by {
                lemma_occurs_one(s, c, j);
                assert(!text::occurs_at(s, sep, j));
            }
            assert(s =~= front + sep + rest);
            assert(whole =~= front + sep + (rest + sep + a));
            lemma_pieces_field(front, c, rest);
            lemma_pieces_field(front, c, rest + sep + a);
            lemma_pieces_concat(rest, c, a);
            assert(text::pieces(whole, sep) =~= text::pieces(s, sep) + text::pieces(a, sep));
        },
        None => {
            assert forall|j: int| 0 <= j < s.len() implies s[j] != c by {
                lemma_occurs_one(s, c, j);
                assert(!text::occurs_at(s, sep, j));
            }
            lemma_pieces_field(s, c, a);
            lemma_pieces_last_field(s, c);
        },
    }
}

/// A field behind its separator is the last piece.
pub proof fn lemma_pieces_push(s: Seq<char>, c: char, a: Seq<char>)
    requires
        forall|i: int| 0 <= i < a.len() ==> a[i] != c,
    ensures
        text::pieces(s + seq![c] + a, seq![c]) == text::pieces(s, seq![c]).push(a),
{
    lemma_pieces_concat(s, c, a);
    lemma_pieces_last_field(a, c);
    assert(text::pieces(s, seq![c]) + seq![a] =~= text::pieces(s, seq![c]).push(a));
}

/// Texts are joined one row after the other.
pub proof fn lemma_joined_concat(p: Seq<Seq<char>>, q: Seq<Seq<char>>, sep: Seq<char>)
    requires
        p.len() > 0,
        q.len() > 0,
    ensures
        text::joined(p + q, sep) == text::joined(p, sep) + sep + text::joined(q, sep),
    decreases p.len(),
{
    assert((p + q)[0] == p[0]);
    if p.len() == 1 {
        assert((p + q).drop_first() =~= q);
    } else {
        let t = p.drop_first();
        lemma_joined_concat(t, q, sep);
        assert((p + q).drop_first() =~= t + q);
        assert(text::joined(p + q, sep) =~= text::joined(p, sep) + sep + text::joined(q, sep));
    }
}

/// A line before its line feed is the first line.
pub proof fn lemma_lines_front(a: Seq<char>, rest: Seq<char>)
    requires
        forall|i: int| 0 <= i < a.len() ==> a[i] != '\n',
    ensures
        text::lines_of(a + seq!['\n'] + rest) == seq![text::without_cr(a)] + text::lines_of(rest),
{
    let s = a + seq!['\n'] + rest;
    let i = a.len() as int;
    lemma_occurs_one(s, '\n', i);
    assert forall|j: int| 0 <= j < i implies !text::occurs_at(s, seq!['\n'], j) by {
        lemma_occurs_one(s, '\n', j);
        assert(s[j] == a[j]);
    }
    lemma_position_is(s, seq!['\n'], i);
    assert(s.take(i) =~= a);
    assert(s.skip(i + 1) =~= rest);
}

/// How the lines of a text start: at its first line feed.
pub proof fn lemma_lines_step(s: Seq<char>)
    requires
        s.len() > 0,
    ensures
        match text::position_of(s, seq!['\n']) {
            Some(i) => 0 <= i < s.len() && s[i] == '\n' && text::lines_of(s) == seq![
                text::without_cr(s.take(i)),
            ] + text::lines_of(s.skip(i + 1)),
            None => text::lines_of(s) == seq![s],
        },
{
    lemma_position_from(s, seq!['\n'], 0);
    match text::position_of(s, seq!['\n']) {
        Some(i) => {
            lemma_occurs_one(s, '\n', i);
        },
        None => {},
    }
}

/// Joining the lines of a text gives it back, where it has no carriage return
/// before a line feed and does not end with a line feed.
pub proof fn lemma_joined_lines(s: Seq<char>)
    requires
        s.len() > 0,
        s.last() != '\n',
        !text::occurs(s, seq!['\r', '\n']),
    ensures
        text::lines_of(s).len() > 0,
        text::joined(text::lines_of(s), seq!['\n']) == s,
    decreases s.len(),
{
    lemma_lines_step(s);
    match text::position_of(s, seq!['\n']) {
        Some(i) => {
            let rest = s.skip(i + 1);
            assert(rest.last() == s.last());
            assert(rest =~= s.subrange(i + 1, s.len() as int));
            lemma_occurs_subrange(s, seq!['\r', '\n'], i + 1, s.len() as int);
            lemma_joined_lines(rest);
            if i > 0 && s[i - 1] == '\r' {
                lemma_occurs_two(s, '\r', '\n', i - 1);
                assert(text::occurs_at(s, seq!['\r', '\n'], i - 1));
            }
            assert(i > 0 ==> s.take(i).last() == s[i - 1]);
            assert(text::without_cr(s.take(i)) == s.take(i));
            lemma_joined_front(s.take(i), text::lines_of(rest), seq!['\n']);
            assert(s.take(i) + seq!['\n'] + rest =~= s);
        },
        None => {},
    }
}

/// No piece of a text holds the separator, nor a pattern that the text does
/// not hold.
pub proof fn lemma_pieces_lack(s: Seq<char>, sep: Seq<char>, pat: Seq<char>, k: int)
    requires
        sep.len() > 0,
        0 <= k < text::pieces(s, sep).len(),
    ensures
        !text::occurs(text::pieces(s, sep)[k], sep),
        !text::occurs(s, pat) ==> !text::occurs(text::pieces(s, sep)[k], pat),
    decreases s.len(),
{
    lemma_position_from(s, sep, 0);
    match text::position_of(s, sep) {
        Some(i) => {
            let rest = s.skip(i + sep.len());
            if k == 0 {
                let p = s.take(i);
                assert forall|j: int| !text::occurs_at(p, sep, j) by {
                    if text::occurs_at(p, sep, j) {
                        assert(p.subrange(j, j + sep.len()) =~= s.subrange(j, j + sep.len()));
                        assert(text::occurs_at(s, sep, j));
                    }
                }
                if !text::occurs(s, pat) {
                    assert(p =~= s.subrange(0, i));
                    lemma_occurs_subrange(s, pat, 0, i);
                }
            } else {
                if !text::occurs(s, pat) {
                    assert(rest =~= s.subrange(i + sep.len(), s.len() as int));
                    lemma_occurs_subrange(s, pat, i + sep.len(), s.len() as int);
                }
                lemma_pieces_lack(rest, sep, pat, k - 1);
                assert(text::pieces(s, sep)[k] == text::pieces(rest, sep)[k - 1]);
            }
        },
        None => {},
    }
}

// ---------------------------------------------------------------------------
// White space at the ends
// ---------------------------------------------------------------------------

/// White space behind a text is trimmed with it.
pub proof fn lemma_trimmed_end_append(a: Seq<char>, w: Seq<char>)
    requires
        text::all_space(w),
    ensures
        text::trimmed_end(a + w) == text::trimmed_end(a),
    decreases w.len(),
{
    if w.len() == 0 {
        assert(a + w =~= a);
    } else {
        let v = w.drop_last();
        assert((a + w).last() == w.last());
        assert(text::is_space(w[w.len() - 1]));
        assert((a + w).drop_last() =~= a + v);
        assert forall|i: int| 0 <= i < v.len() implies text::is_space(#[trigger] v[i]) by {
            assert(v[i] == w[i]);
        }
        lemma_trimmed_end_append(a, v);
    }
}

/// White space before a text is trimmed with it.
pub proof fn lemma_trimmed_start_append(w: Seq<char>, a: Seq<char>)
    requires
        text::all_space(w),
    ensures
        text::trimmed_start(w + a) == text::trimmed_start(a),
    decreases w.len(),
{
    if w.len() == 0 {
        assert(w + a =~= a);
    } else {
        let v = w.drop_first();
        assert((w + a)[0] == w[0]);
        assert(text::is_space(w[0]));
        assert((w + a).drop_first() =~= v + a);
        assert forall|i: int| 0 <= i < v.len() implies text::is_space(#[trigger] v[i]) by {
            assert(v[i] == w[i + 1]);
        }
        lemma_trimmed_start_append(v, a);
    }
}

/// Trimming at the end leaves a beginning of the text, and what it takes is
/// white space.
pub proof fn lemma_trimmed_end_is(s: Seq<char>)
    ensures
        text::trimmed_end(s).len() <= s.len(),
        text::trimmed_end(s) == s.take(text::trimmed_end(s).len() as int),
        text::all_space(s.skip(text::trimmed_end(s).len() as int)),
        text::trimmed_end(s).len() > 0 ==> !text::is_space(text::trimmed_end(s).last()),
    decreases s.len(),
{
    if s.len() > 0 && text::is_space(s.last()) {
        let t = s.drop_last();
        lemma_trimmed_end_is(t);
        let k = text::trimmed_end(s).len() as int;
        assert(s.take(k) =~= t.take(k));
        assert forall|i: int| 0 <= i < s.skip(k).len() implies text::is_space(
            #[trigger] s.skip(k)[i],
        ) by {
            if i < t.len() - k {
                assert(s.skip(k)[i] == t.skip(k)[i]);
            }
        }
    } else {
        assert(s.take(s.len() as int) =~= s);
    }
}

/// Trimming at the start leaves an end of the text.
pub proof fn lemma_trimmed_start_is(s: Seq<char>)
    ensures
        text::trimmed_start(s).len() <= s.len(),
        text::trimmed_start(s) == s.skip(s.len() - text::trimmed_start(s).len()),
        text::trimmed_start(s).len() > 0 ==> !text::is_space(text::trimmed_start(s)[0]),
    decreases s.len(),
{
    if s.len() > 0 && text::is_space(s[0]) {
        let t = s.drop_first();
        lemma_trimmed_start_is(t);
        let k = text::trimmed_start(s).len();
        assert(s.skip(s.len() - k) =~= t.skip(t.len() - k));
    } else {
        assert(s.skip(0) =~= s);
    }
}

/// White space round a text does not change what trimming leaves.
pub proof fn lemma_trimmed_between(w1: Seq<char>, a: Seq<char>, w2: Seq<char>)
    requires
        text::all_space(w1),
        text::all_space(w2),
    ensures
        text::trimmed(w1 + a + w2) == text::trimmed(a),
{
    lemma_trimmed_end_append(w1 + a, w2);
    lemma_trimmed_end_is(a);
    let e = text::trimmed_end(a);
    let tail = a.skip(e.len() as int);
    assert(w1 + a =~= w1 + e + tail);
    lemma_trimmed_end_append(w1 + e, tail);
    if e.len() > 0 {
        assert((w1 + e).last() == e.last());
        assert(text::trimmed_end(w1 + e) == w1 + e);
        lemma_trimmed_start_append(w1, e);
    } else {
        assert(w1 + e =~= w1);
        assert(Seq::<char>::empty() + w1 =~= w1);
        lemma_trimmed_end_append(Seq::empty(), w1);
        assert(e =~= Seq::<char>::empty());
    }
}

/// A text that neither starts nor ends with white space stays as it is.
pub proof fn lemma_trimmed_same(s: Seq<char>)
    requires
        s.len() > 0,
        !text::is_space(s[0]),
        !text::is_space(s.last()),
    ensures
        text::trimmed(s) == s,
{
}

/// A trimmed text is a part of the text, and does not end with white space.
pub proof fn lemma_trimmed_is(s: Seq<char>) -> (a: int)
    ensures
        0 <= a <= a + text::trimmed(s).len() <= s.len(),
        text::trimmed(s) == s.subrange(a, a + text::trimmed(s).len()),
        text::trimmed(s).len() > 0 ==> !text::is_space(text::trimmed(s).last()),
{
    let e = text::trimmed_end(s);
    lemma_trimmed_end_is(s);
    lemma_trimmed_start_is(e);
    let a = e.len() - text::trimmed(s).len();
    assert(text::trimmed(s) =~= s.subrange(a, a + text::trimmed(s).len()));
    a
}

/// What the last position of a character says of the places where it stands.
pub proof fn lemma_last_position(s: Seq<char>, c: char)
    ensures
        match text::last_position(s, c) {
            Some(i) => 0 <= i < s.len() && s[i] == c && forall|j: int|
                i < j < s.len() ==> s[j] != c,
            None => forall|j: int| 0 <= j < s.len() ==> s[j] != c,
        },
    decreases s.len(),
{
    if s.len() > 0 && s.last() != c {
        let t = s.drop_last();
        lemma_last_position(t, c);
        assert forall|j: int| 0 <= j < t.len() implies t[j] == s[j] by {}
        match text::last_position(t, c) {
            Some(i) => {
                assert forall|j: int| i < j < s.len() implies s[j] != c by {
                    if j < t.len() {
                        assert(t[j] != c);
                    }
                }
            },
            None => {
                assert forall|j: int| 0 <= j < s.len() implies s[j] != c by {
                    if j < t.len() {
                        assert(t[j] != c);
                    }
                }
            },
        }
    }
}

/// The rightmost place of a character is its last position.
pub proof fn lemma_last_position_is(s: Seq<char>, c: char, i: int)
    requires
        0 <= i < s.len(),
        s[i] == c,
        forall|j: int| i < j < s.len() ==> s[j] != c,
    ensures
        text::last_position(s, c) == Some(i),
    decreases s.len(),
{
    if i < s.len() - 1 {
        assert(s.last() == s[s.len() - 1]);
        lemma_last_position_is(s.drop_last(), c, i);
    }
}

/// A short enough text of one-byte characters is not cut.
pub proof fn lemma_first_bytes_all(s: Seq<char>, n: int)
    requires
        forall|i: int| 0 <= i < s.len() ==> s[i] <= '\u{7f}',
        s.len() <= n,
    ensures
        text::first_bytes(s, n) == Some(s),
    decreases s.len(),
{
    if s.len() == 0 {
        assert(s =~= Seq::empty());
    } else {
        lemma_first_bytes_all(s.drop_first(), n - 1);
        assert(seq![s[0]] + s.drop_first() =~= s);
    }
}

// ---------------------------------------------------------------------------
// Blank lines
// ---------------------------------------------------------------------------

/// Where the first line of a text ends.
pub proof fn lemma_first_line(s: Seq<char>)
    ensures
        match text::position_of(s, seq!['\n']) {
            Some(i) => 0 <= i < s.len() && s[i] == '\n' && s == s.take(i) + seq!['\n'] + s.skip(
                i + 1,
            ) && forall|j: int| 0 <= j < i ==> s[j] != '\n',
            None => forall|j: int| 0 <= j < s.len() ==> s[j] != '\n',
        },
{
    let lf = seq!['\n'];
    lemma_position_from(s, lf, 0);
    match text::position_of(s, lf) {
        Some(i) => {
            lemma_occurs_one(s, '\n', i);
            assert(s =~= s.take(i) + lf + s.skip(i + 1));
            assert forall|j: int| 0 <= j < i implies s[j] != '\n' by {
                lemma_occurs_one(s, '\n', j);
                assert(!text::occurs_at(s, lf, j));
            }
        },
        None => {
            assert forall|j: int| 0 <= j < s.len() implies s[j] != '\n' by {
                lemma_occurs_one(s, '\n', j);
                assert(!text::occurs_at(s, lf, j));
            }
        },
    }
}

/// Blank lines are made empty on either side of a line feed.
pub proof fn lemma_cleared_concat(a: Seq<char>, b: Seq<char>)
    ensures
        text::cleared(a + seq!['\n'] + b) == text::cleared(a) + seq!['\n'] + text::cleared(b),
{
    let lf = seq!['\n'];
    let f = |line: Seq<char>| text::cleared_line(line);
    let p = text::pieces(a, lf);
    let q = text::pieces(b, lf);
    lemma_pieces_concat(a, '\n', b);
    assert((p + q).map_values(f) =~= p.map_values(f) + q.map_values(f));
    lemma_joined_concat(p.map_values(f), q.map_values(f), lf);
}

/// A single line is made empty where it is blank.
pub proof fn lemma_cleared_one(s: Seq<char>)
    requires
        forall|j: int| 0 <= j < s.len() ==> s[j] != '\n',
    ensures
        text::cleared(s) == text::cleared_line(s),
{
    lemma_pieces_last_field(s, '\n');
    assert(seq![s].map_values(|line: Seq<char>| text::cleared_line(line)) =~= seq![
        text::cleared_line(s),
    ]);
}

/// A text without blank lines stays as it is.
pub proof fn lemma_cleared_same(s: Seq<char>)
    requires
        forall|i: int|
            0 <= i < text::pieces(s, seq!['\n']).len() ==> !text::all_space(
                #[trigger] text::pieces(s, seq!['\n'])[i],
            ),
    ensures
        text::cleared(s) == s,
{
    let lf = seq!['\n'];
    let p = text::pieces(s, lf);
    assert(p.map_values(|line: Seq<char>| text::cleared_line(line)) =~= p);
    lemma_joined_pieces(s, lf);
}

/// Making blank lines empty makes no text longer.
pub proof fn lemma_cleared_len(s: Seq<char>)
    ensures
        text::cleared(s).len() <= s.len(),
    decreases s.len(),
{
    lemma_first_line(s);
    match text::position_of(s, seq!['\n']) {
        Some(i) => {
            lemma_cleared_concat(s.take(i), s.skip(i + 1));
            lemma_cleared_one(s.take(i));
            lemma_cleared_len(s.skip(i + 1));
        },
        None => {
            lemma_cleared_one(s);
        },
    }
}

/// Blank lines are made empty once and for all.
pub proof fn lemma_cleared_twice(s: Seq<char>)
    ensures
        text::cleared(text::cleared(s)) == text::cleared(s),
    decreases s.len(),
{
    lemma_first_line(s);
    match text::position_of(s, seq!['\n']) {
        Some(i) => {
            let line = text::cleared_line(s.take(i));
            lemma_cleared_concat(s.take(i), s.skip(i + 1));
            lemma_cleared_one(s.take(i));
            lemma_cleared_twice(s.skip(i + 1));
            lemma_cleared_concat(line, text::cleared(s.skip(i + 1)));
            lemma_cleared_one(line);
        },
        None => {
            lemma_cleared_one(s);
            lemma_cleared_one(text::cleared_line(s));
        },
    }
}

/// Where all blank lines of two texts together are empty, those of each are.
pub proof fn lemma_cleared_parts(a: Seq<char>, b: Seq<char>)
    requires
        text::cleared(a + seq!['\n'] + b) == a + seq!['\n'] + b,
    ensures
        text::cleared(a) == a,
        text::cleared(b) == b,
{
    let lf = seq!['\n'];
    lemma_cleared_concat(a, b);
    lemma_cleared_len(a);
    lemma_cleared_len(b);
    let x = text::cleared(a) + lf + text::cleared(b);
    assert(text::cleared(a) =~= x.take(a.len() as int));
    assert(a =~= (a + lf + b).take(a.len() as int));
    assert(text::cleared(b) =~= x.skip(a.len() as int + 1));
    assert(b =~= (a + lf + b).skip(a.len() as int + 1));
}

/// Of white space, nothing but line feeds is left.
pub proof fn lemma_cleared_space(w: Seq<char>)
    requires
        text::all_space(w),
    ensures
        forall|i: int| 0 <= i < text::cleared(w).len() ==> text::cleared(w)[i] == '\n',
    decreases w.len(),
{
    lemma_first_line(w);
    match text::position_of(w, seq!['\n']) {
        Some(i) => {
            let line = w.take(i);
            let rest = w.skip(i + 1);
            assert forall|j: int| 0 <= j < line.len() implies text::is_space(#[trigger] line[j]) by {
                assert(line[j] == w[j]);
            }
            assert forall|j: int| 0 <= j < rest.len() implies text::is_space(#[trigger] rest[j]) by {
                assert(rest[j] == w[i + 1 + j]);
            }
            lemma_cleared_concat(line, rest);
            lemma_cleared_one(line);
            lemma_cleared_space(rest);
        },
        None => {
            lemma_cleared_one(w);
        },
    }
}

/// White space at the end of the last line stays there, or goes with the line.
pub proof fn lemma_cleared_push(s: Seq<char>, c: char)
    requires
        text::is_space(c),
        c != '\n',
    ensures
        text::cleared(s.push(c)) == text::cleared(s) || text::cleared(s.push(c)) == text::cleared(
            s,
        ).push(c),
    decreases s.len(),
{
    lemma_first_line(s);
    match text::position_of(s, seq!['\n']) {
        Some(i) => {
            let line = s.take(i);
            let rest = s.skip(i + 1);
            assert(s.push(c) =~= line + seq!['\n'] + rest.push(c));
            lemma_cleared_concat(line, rest);
            lemma_cleared_concat(line, rest.push(c));
            lemma_cleared_push(rest, c);
            if text::cleared(rest.push(c)) == text::cleared(rest).push(c) {
                assert(text::cleared(s.push(c)) =~= text::cleared(s).push(c));
            }
        },
        None => {
            lemma_cleared_one(s);
            lemma_cleared_one(s.push(c));
            if text::all_space(s) {
                assert(text::all_space(s.push(c)));
            } else {
                let j = choose|j: int| 0 <= j < s.len() && !text::is_space(#[trigger] s[j]);
                assert(s.push(c)[j] == s[j]);
            }
        },
    }
}

/// Making blank lines empty puts no carriage returns before a line feed.
pub proof fn lemma_cleared_returns(s: Seq<char>)
    requires
        !text::occurs(s, seq!['\r', '\r', '\n']),
    ensures
        !text::occurs(text::cleared(s), seq!['\r', '\r', '\n']),
    decreases s.len(),
{
    let bad = seq!['\r', '\r', '\n'];
    let u = text::cleared(s);
    assert(bad.len() == 3 && bad[0] == '\r' && bad[1] == '\r' && bad[2] == '\n');
    lemma_first_line(s);
    match text::position_of(s, seq!['\n']) {
        Some(k) => {
            let line = s.take(k);
            let rest = s.skip(k + 1);
            let head = text::cleared_line(line);
            let m = head.len() as int;
            lemma_cleared_concat(line, rest);
            lemma_cleared_one(line);
            assert(rest =~= s.subrange(k + 1, s.len() as int));
            lemma_occurs_subrange(s, bad, k + 1, s.len() as int);
            lemma_cleared_returns(rest);
            assert forall|i: int| !text::occurs_at(u, bad, i) by {
                if text::occurs_at(u, bad, i) {
                    assert(u.subrange(i, i + 3)[0] == u[i]);
                    assert(u.subrange(i, i + 3)[1] == u[i + 1]);
                    assert(u.subrange(i, i + 3)[2] == u[i + 2]);
                    assert(u[m] == '\n');
                    if i + 2 < m {
                        assert(u[i + 2] == line[i + 2]);
                    } else if i + 2 == m {
                        assert(head == line);
                        assert(u[i] == s[i] && u[i + 1] == s[i + 1]);
                        assert(s.subrange(i, i + 3) =~= bad);
                        assert(text::occurs_at(s, bad, i));
                    } else {
                        let v = text::cleared(rest);
                        assert(v.subrange(i - m - 1, i - m + 2) =~= u.subrange(i, i + 3));
                        assert(text::occurs_at(v, bad, i - m - 1));
                    }
                }
            }
        },
        None => {
            lemma_cleared_one(s);
            assert forall|i: int| !text::occurs_at(u, bad, i) by {
                if text::occurs_at(u, bad, i) {
                    assert(u.subrange(i, i + 3)[2] == u[i + 2]);
                }
            }
        },
    }
}

/// No two line feeds of `s` have white space alone between them.
pub open spec fn no_blank_inside(s: Seq<char>) -> bool {
    forall|p: int, q: int|
        0 <= p < q < s.len() && #[trigger] s[p] == '\n' && #[trigger] s[q] == '\n'
            ==> !text::all_space(s.subrange(p + 1, q))
}

/// A text in which blank lines are empty, and no line is empty, has no blank
/// line between two line feeds.
pub proof fn lemma_cleared_inside(s: Seq<char>)
    requires
        text::cleared(s) == s,
        !text::occurs(s, seq!['\n', '\n']),
    ensures
        no_blank_inside(s),
{
    let lf = seq!['\n'];
    let n = s.len() as int;
    assert forall|p: int, q: int|
        0 <= p < q < s.len() && #[trigger] s[p] == '\n' && #[trigger] s[q]
            == '\n' implies !text::all_space(s.subrange(p + 1, q)) by {
        let mid = s.subrange(p + 1, q);
        let rest = s.subrange(p + 1, n);
        if text::all_space(mid) {
            assert(s =~= s.take(p) + lf + rest);
            lemma_cleared_parts(s.take(p), rest);
            assert(rest =~= mid + lf + s.skip(q + 1));
            lemma_cleared_parts(mid, s.skip(q + 1));
            lemma_cleared_space(mid);
            lemma_occurs_two(s, '\n', '\n', p);
            if mid.len() > 0 {
                assert(mid[0] == s[p + 1]);
            }
            assert(text::occurs_at(s, seq!['\n', '\n'], p));
        }
    }
}

/// No line of a text is blank whose first line is not, which has no blank line
/// between two line feeds, and which does not end with white space.
pub proof fn lemma_lines_not_blank(t: Seq<char>)
    requires
        t.len() > 0,
        !text::is_space(t.last()),
        no_blank_inside(t),
        forall|q: int| 0 <= q < t.len() && #[trigger] t[q] == '\n' ==> !text::all_space(t.take(q)),
    ensures
        forall|i: int|
            0 <= i < text::pieces(t, seq!['\n']).len() ==> !text::all_space(
                #[trigger] text::pieces(t, seq!['\n'])[i],
            ),
    decreases t.len(),
{
    let lf = seq!['\n'];
    let n = t.len() as int;
    lemma_first_line(t);
    match text::position_of(t, lf) {
        Some(k) => {
            let r = t.skip(k + 1);
            assert(r.len() > 0);
            assert(r.last() == t.last());
            assert forall|q: int| 0 <= q < r.len() && #[trigger] r[q] == '\n' implies !text::all_space(
                r.take(q),
            ) by {
                assert(t[k + 1 + q] == '\n');
                assert(t.subrange(k + 1, k + 1 + q) =~= r.take(q));
            }
            assert forall|p: int, q: int|
                0 <= p < q < r.len() && #[trigger] r[p] == '\n' && #[trigger] r[q]
                    == '\n' implies !text::all_space(r.subrange(p + 1, q)) by {
                assert(t[k + 1 + p] == '\n' && t[k + 1 + q] == '\n');
                assert(t.subrange(k + 1 + p + 1, k + 1 + q) =~= r.subrange(p + 1, q));
            }
            lemma_lines_not_blank(r);
            lemma_pieces_field(t.take(k), '\n', r);
            assert(!text::all_space(t.take(k)));
        },
        None => {
            lemma_pieces_last_field(t, '\n');
            assert(t.last() == t[n - 1]);
        },
    }
}

/// Lines put together again are the text with single line feeds for line ends.
pub proof fn lemma_joined_lines_unix(s: Seq<char>)
    requires
        s.len() > 0,
        s.last() != '\n',
    ensures
        text::joined(text::lines_of(s), seq!['\n']) == text::unix_text(s),
        text::lines_of(s).len() > 0,
    decreases s.len(),
{
    let lf = seq!['\n'];
    lemma_first_line(s);
    match text::position_of(s, lf) {
        Some(k) => {
            let line = s.take(k);
            let rest = s.skip(k + 1);
            let kept = text::without_cr(line);
            assert(rest.last() == s.last());
            lemma_joined_lines_unix(rest);
            lemma_lines_front(line, rest);
            lemma_joined_front(kept, text::lines_of(rest), lf);
            lemma_unix_line(line, rest);
            assert forall|j: int| !text::occurs_at(kept, seq!['\r', '\n'], j) by {
                lemma_occurs_two(kept, '\r', '\n', j);
                if text::occurs_at(kept, seq!['\r', '\n'], j) {
                    assert(kept[j + 1] == line[j + 1]);
                }
            }
            lemma_unix_text_same(kept);
        },
        None => {
            assert forall|j: int| !text::occurs_at(s, seq!['\r', '\n'], j) by {
                lemma_occurs_two(s, '\r', '\n', j);
            }
            lemma_unix_text_same(s);
        },
    }
}

/// Lines that are not blank are not blank once their line ends are taken off.
pub proof fn lemma_joined_lines_not_blank(s: Seq<char>)
    requires
        s.len() > 0,
        s.last() != '\n',
        forall|i: int|
            0 <= i < text::pieces(s, seq!['\n']).len() ==> !text::all_space(
                #[trigger] text::pieces(s, seq!['\n'])[i],
            ),
    ensures
        ({
            let t = text::joined(text::lines_of(s), seq!['\n']);
            &&& t.len() > 0
            &&& t.last() == s.last()
            &&& forall|i: int|
                0 <= i < text::pieces(t, seq!['\n']).len() ==> !text::all_space(
                    #[trigger] text::pieces(t, seq!['\n'])[i],
                )
        }),
    decreases s.len(),
{
    let lf = seq!['\n'];
    lemma_first_line(s);
    lemma_joined_lines_unix(s);
    match text::position_of(s, lf) {
        Some(k) => {
            let line = s.take(k);
            let rest = s.skip(k + 1);
            let kept = text::without_cr(line);
            let p = text::pieces(s, lf);
            lemma_pieces_field(line, '\n', rest);
            assert(rest.last() == s.last());
            assert forall|i: int| 0 <= i < text::pieces(rest, lf).len() implies !text::all_space(
                #[trigger] text::pieces(rest, lf)[i],
            ) by {
                assert(p[i + 1] == text::pieces(rest, lf)[i]);
            }
            lemma_joined_lines_not_blank(rest);
            let t2 = text::joined(text::lines_of(rest), lf);
            lemma_lines_front(line, rest);
            lemma_joined_lines_unix(rest);
            lemma_joined_front(kept, text::lines_of(rest), lf);
            let t = text::joined(text::lines_of(s), lf);
            assert(t == kept + lf + t2);
            lemma_pieces_field(kept, '\n', t2);
            assert(p[0] == line);
            assert(!text::all_space(line));
            if text::all_space(kept) {
                assert forall|j: int| 0 <= j < line.len() implies text::is_space(
                    #[trigger] line[j],
                ) by {
                    if j < kept.len() {
                        assert(line[j] == kept[j]);
                    }
                }
            }
        },
        None => {},
    }
}

} // verus!
