//! Character-level text operations, each stated over the sequence of
//! characters that a string holds.

use vstd::prelude::*;
use vstd::slice::slice_subrange;

use crate::text_facts;

verus! {

/// `String::push` appends one character at the end of the string.
pub assume_specification[ String::push ](s: &mut String, c: char)
    ensures
        final(s)@ == old(s)@.push(c),
;

// ---------------------------------------------------------------------------
// What the operations compute
// ---------------------------------------------------------------------------

/// Characters with the Unicode property White_Space.
pub open spec fn is_space(c: char) -> bool {
    ||| '\u{9}' <= c <= '\u{d}'
    ||| c == '\u{20}'
    ||| c == '\u{85}'
    ||| c == '\u{a0}'
    ||| c == '\u{1680}'
    ||| '\u{2000}' <= c <= '\u{200a}'
    ||| c == '\u{2028}'
    ||| c == '\u{2029}'
    ||| c == '\u{202f}'
    ||| c == '\u{205f}'
    ||| c == '\u{3000}'
}

/// `s` without the white space that it starts with.
pub open spec fn trimmed_start(s: Seq<char>) -> Seq<char>
    decreases s.len(),
{
    if s.len() > 0 && is_space(s[0]) {
        trimmed_start(s.drop_first())
    } else {
        s
    }
}

/// `s` without the white space that it ends with.
pub open spec fn trimmed_end(s: Seq<char>) -> Seq<char>
    decreases s.len(),
{
    if s.len() > 0 && is_space(s.last()) {
        trimmed_end(s.drop_last())
    } else {
        s
    }
}

/// `s` without the white space at either end.
pub open spec fn trimmed(s: Seq<char>) -> Seq<char> {
    trimmed_start(trimmed_end(s))
}

/// `s` without the run of `c` that it starts with.
pub open spec fn without_leading(s: Seq<char>, c: char) -> Seq<char>
    decreases s.len(),
{
    if s.len() > 0 && s[0] == c {
        without_leading(s.drop_first(), c)
    } else {
        s
    }
}

/// `s` without the run of `c` that it ends with.
pub open spec fn without_trailing(s: Seq<char>, c: char) -> Seq<char>
    decreases s.len(),
{
    if s.len() > 0 && s.last() == c {
        without_trailing(s.drop_last(), c)
    } else {
        s
    }
}

/// `pat` stands in `s` at position `i`.
pub open spec fn occurs_at(s: Seq<char>, pat: Seq<char>, i: int) -> bool {
    &&& 0 <= i
    &&& i + pat.len() <= s.len()
    &&& s.subrange(i, i + pat.len()) == pat
}

/// `pat` stands in `s` somewhere.
pub open spec fn occurs(s: Seq<char>, pat: Seq<char>) -> bool {
    exists|i: int| occurs_at(s, pat, i)
}

/// The leftmost position of `pat` in `s` that is not before `from`.
pub open spec fn position_from(s: Seq<char>, pat: Seq<char>, from: int) -> Option<int>
    decreases s.len() - from + 1,
{
    if from < 0 || from + pat.len() > s.len() {
        None
    } else if occurs_at(s, pat, from) {
        Some(from)
    } else {
        position_from(s, pat, from + 1)
    }
}

/// The leftmost position of `pat` in `s`.
pub open spec fn position_of(s: Seq<char>, pat: Seq<char>) -> Option<int> {
    position_from(s, pat, 0)
}

/// What stands between the occurrences of `sep` in `s`, taken from the left
/// without overlap.
pub open spec fn pieces(s: Seq<char>, sep: Seq<char>) -> Seq<Seq<char>>
    decreases s.len(),
{
    match position_of(s, sep) {
        Some(i) => if sep.len() > 0 && 0 <= i && i + sep.len() <= s.len() {
            seq![s.take(i)] + pieces(s.skip(i + sep.len()), sep)
        } else {
            seq![s]
        },
        None => seq![s],
    }
}

/// The texts `parts` with `sep` between neighbours.
pub open spec fn joined(parts: Seq<Seq<char>>, sep: Seq<char>) -> Seq<char>
    decreases parts.len(),
{
    if parts.len() == 0 {
        Seq::empty()
    } else if parts.len() == 1 {
        parts[0]
    } else {
        parts[0] + sep + joined(parts.drop_first(), sep)
    }
}

/// `s` with every carriage return that a line feed follows taken out.
pub open spec fn unix_text(s: Seq<char>) -> Seq<char> {
    joined(pieces(s, seq!['\r', '\n']), seq!['\n'])
}

/// Every character of `s` is white space.
pub open spec fn all_space(s: Seq<char>) -> bool {
    forall|i: int| 0 <= i < s.len() ==> is_space(#[trigger] s[i])
}

/// The line `s`, or nothing where it is blank: empty, or white space alone.
pub open spec fn cleared_line(s: Seq<char>) -> Seq<char> {
    if all_space(s) {
        Seq::empty()
    } else {
        s
    }
}

/// `s` with every blank line made empty.
pub open spec fn cleared(s: Seq<char>) -> Seq<char> {
    joined(pieces(s, seq!['\n']).map_values(|line: Seq<char>| cleared_line(line)), seq!['\n'])
}

/// `s` without one carriage return at its end.
pub open spec fn without_cr(s: Seq<char>) -> Seq<char> {
    if s.len() > 0 && s.last() == '\r' {
        s.drop_last()
    } else {
        s
    }
}

/// The lines of `s`: each ends at a line feed, or at a carriage return and a
/// line feed, and the last one may end with the text.
pub open spec fn lines_of(s: Seq<char>) -> Seq<Seq<char>>
    decreases s.len(),
{
    if s.len() == 0 {
        Seq::empty()
    } else {
        match position_of(s, seq!['\n']) {
            Some(i) => if 0 <= i < s.len() {
                seq![without_cr(s.take(i))] + lines_of(s.skip(i + 1))
            } else {
                seq![s]
            },
            None => seq![s],
        }
    }
}

/// `s` with every `from` turned into `to`.
pub open spec fn with_char(s: Seq<char>, from: char, to: char) -> Seq<char> {
    s.map_values(|c: char| if c == from { to } else { c })
}

/// The rightmost position of `c` in `s`.
pub open spec fn last_position(s: Seq<char>, c: char) -> Option<int>
    decreases s.len(),
{
    if s.len() == 0 {
        None
    } else if s.last() == c {
        Some(s.len() - 1)
    } else {
        last_position(s.drop_last(), c)
    }
}

/// The number of bytes that `c` takes in UTF-8.
pub open spec fn utf8_len(c: char) -> int {
    if c <= '\u{7f}' {
        1
    } else if c <= '\u{7ff}' {
        2
    } else if c <= '\u{ffff}' {
        3
    } else {
        4
    }
}

/// The first `n` bytes of `s` in UTF-8, or all of `s` where it has fewer.
/// `None` where a character reaches across the end of the `n` bytes.
pub open spec fn first_bytes(s: Seq<char>, n: int) -> Option<Seq<char>>
    decreases s.len(),
{
    if s.len() == 0 || n == 0 {
        Some(Seq::empty())
    } else if utf8_len(s[0]) > n {
        None
    } else {
        match first_bytes(s.drop_first(), n - utf8_len(s[0])) {
            Some(rest) => Some(seq![s[0]] + rest),
            None => None,
        }
    }
}

// ---------------------------------------------------------------------------
// Strings and characters
// ---------------------------------------------------------------------------

/// The characters of `s`, in order.
pub fn chars_of(s: &str) -> (r: Vec<char>)
    ensures
        r@ == s@,
{
    let mut out: Vec<char> = Vec::new();
    for c in it: s.chars()
        invariant
            it.seq() == s@,
            out@ == s@.take(it.index()),
    {
        proof {
            assert(s@.take(it.index() + 1) =~= s@.take(it.index()).push(c));
        }
        out.push(c);
    }
    proof {
        assert(s@.take(s@.len() as int) =~= s@);
    }
    out
}

/// The string that holds the characters `v`.
pub fn string_of(v: &[char]) -> (r: String)
    ensures
        r@ == v@,
{
    let mut out = String::new();
    let mut i: usize = 0;
    while i < v.len()
        invariant
            i <= v@.len(),
            out@ == v@.take(i as int),
        decreases v@.len() - i,
    {
        proof {
            assert(v@.take(i + 1) =~= v@.take(i as int).push(v@[i as int]));
        }
        out.push(v[i]);
        i += 1;
    }
    proof {
        assert(v@.take(v@.len() as int) =~= v@);
    }
    out
}

/// `a` followed by `b`.
pub fn concat(a: &str, b: &str) -> (r: String)
    ensures
        r@ == a@ + b@,
{
    let mut out: String = a.to_owned();
    out.append(b);
    out
}

/// Whether `a` and `b` hold the same text.
pub fn same(a: &str, b: &str) -> (r: bool)
    ensures
        r == (a@ == b@),
{
    a.to_owned() == b.to_owned()
}

// ---------------------------------------------------------------------------
// Trimming
// ---------------------------------------------------------------------------

/// Whether `c` is white space.
pub fn is_white(c: char) -> (r: bool)
    ensures
        r == is_space(c),
{
    ('\u{9}' <= c && c <= '\u{d}') || c == '\u{20}' || c == '\u{85}' || c == '\u{a0}' || c
        == '\u{1680}' || ('\u{2000}' <= c && c <= '\u{200a}') || c == '\u{2028}' || c == '\u{2029}'
        || c == '\u{202f}' || c == '\u{205f}' || c == '\u{3000}'
}

/// `s` without the white space at either end.
pub fn trim(s: &[char]) -> (r: &[char])
    ensures
        r@ == trimmed(s@),
{
    let mut end: usize = s.len();
    proof {
        assert(s@.take(s@.len() as int) =~= s@);
    }
    while end > 0 && is_white(s[end - 1])
        invariant
            end <= s@.len(),
            trimmed_end(s@) == trimmed_end(s@.take(end as int)),
        decreases end,
    {
        proof {
            assert(s@.take(end as int).drop_last() =~= s@.take(end - 1));
        }
        end -= 1;
    }
    let ghost cut = s@.take(end as int);
    let mut start: usize = 0;
    proof {
        assert(cut.skip(0) =~= cut);
    }
    while start < end && is_white(s[start])
        invariant
            start <= end <= s@.len(),
            cut == s@.take(end as int),
            trimmed_start(cut) == trimmed_start(cut.skip(start as int)),
        decreases end - start,
    {
        proof {
            assert(cut.skip(start as int).drop_first() =~= cut.skip(start + 1));
        }
        start += 1;
    }
    proof {
        assert(s@.subrange(start as int, end as int) =~= cut.skip(start as int));
    }
    slice_subrange(s, start, end)
}

/// `s` without the run of `c` that it starts with.
pub fn trim_leading(s: &[char], c: char) -> (r: &[char])
    ensures
        r@ == without_leading(s@, c),
{
    let mut start: usize = 0;
    proof {
        assert(s@.skip(0) =~= s@);
    }
    while start < s.len() && s[start] == c
        invariant
            start <= s@.len(),
            without_leading(s@, c) == without_leading(s@.skip(start as int), c),
        decreases s@.len() - start,
    {
        proof {
            assert(s@.skip(start as int).drop_first() =~= s@.skip(start + 1));
        }
        start += 1;
    }
    slice_subrange(s, start, s.len())
}

/// `s` without the run of `c` that it ends with.
pub fn trim_trailing(s: &[char], c: char) -> (r: &[char])
    ensures
        r@ == without_trailing(s@, c),
{
    let mut end: usize = s.len();
    proof {
        assert(s@.take(s@.len() as int) =~= s@);
    }
    while end > 0 && s[end - 1] == c
        invariant
            end <= s@.len(),
            without_trailing(s@, c) == without_trailing(s@.take(end as int), c),
        decreases end,
    {
        proof {
            assert(s@.take(end as int).drop_last() =~= s@.take(end - 1));
        }
        end -= 1;
    }
    proof {
        assert(s@.subrange(0, end as int) =~= s@.take(end as int));
    }
    slice_subrange(s, 0, end)
}

// ---------------------------------------------------------------------------
// Searching and cutting
// ---------------------------------------------------------------------------

/// Whether `pat` stands in `s` at position `i`.
pub fn stands_at(s: &[char], pat: &[char], i: usize) -> (r: bool)
    ensures
        r == occurs_at(s@, pat@, i as int),
{
    let size: usize = s.len();
    if i > size || pat.len() > size - i {
        return false;
    }
    let mut k: usize = 0;
    while k < pat.len()
        invariant
            k <= pat@.len(),
            i + pat@.len() <= s@.len() == size,
            forall|j: int| 0 <= j < k ==> s@[i + j] == pat@[j],
        decreases pat@.len() - k,
    {
        if s[i + k] != pat[k] {
            proof {
                assert(s@.subrange(i as int, i + pat@.len())[k as int] != pat@[k as int]);
            }
            return false;
        }
        k += 1;
    }
    proof {
        assert(s@.subrange(i as int, i + pat@.len()) =~= pat@);
    }
    true
}

/// The leftmost position of `pat` in `s`.
pub fn find(s: &[char], pat: &[char]) -> (r: Option<usize>)
    ensures
        match r {
            Some(i) => position_of(s@, pat@) == Some(i as int) && i + pat@.len() <= s@.len(),
            None => position_of(s@, pat@) is None,
        },
{
    let mut i: usize = 0;
    while pat.len() <= s.len() - i
        invariant
            i <= s@.len(),
            position_of(s@, pat@) == position_from(s@, pat@, i as int),
        decreases s@.len() - i,
    {
        if stands_at(s, pat, i) {
            return Some(i);
        }
        if i == s.len() {
            proof {
                assert(s@.subrange(i as int, i as int) =~= pat@);
            }
            return None;
        }
        i += 1;
    }
    None
}

/// Whether `pat` stands in `s` somewhere.
pub fn contains(s: &[char], pat: &[char]) -> (r: bool)
    ensures
        r == occurs(s@, pat@),
{
    proof {
        text_facts::lemma_position_from(s@, pat@, 0);
    }
    find(s, pat).is_some()
}

/// The rightmost position of `c` in `s`.
pub fn rfind(s: &[char], c: char) -> (r: Option<usize>)
    ensures
        match r {
            Some(i) => last_position(s@, c) == Some(i as int) && i < s@.len(),
            None => last_position(s@, c) is None,
        },
{
    let mut end: usize = s.len();
    proof {
        assert(s@.take(s@.len() as int) =~= s@);
    }
    while end > 0
        invariant
            end <= s@.len(),
            last_position(s@, c) == last_position(s@.take(end as int), c),
        decreases end,
    {
        if s[end - 1] == c {
            return Some(end - 1);
        }
        proof {
            assert(s@.take(end as int).drop_last() =~= s@.take(end - 1));
        }
        end -= 1;
    }
    None
}

/// The texts that a list of character vectors holds.
pub open spec fn texts(v: Seq<Vec<char>>) -> Seq<Seq<char>> {
    v.map_values(|p: Vec<char>| p@)
}

/// What stands between the occurrences of `sep` in `s`.
pub fn split(s: &[char], sep: &[char]) -> (r: Vec<Vec<char>>)
    requires
        sep@.len() > 0,
    ensures
        texts(r@) == pieces(s@, sep@),
{
    let mut out: Vec<Vec<char>> = Vec::new();
    let mut rest: &[char] = s;
    proof {
        assert(texts(out@) + pieces(rest@, sep@) =~= pieces(s@, sep@));
    }
    loop
        invariant
            sep@.len() > 0,
            texts(out@) + pieces(rest@, sep@) == pieces(s@, sep@),
        decreases rest@.len(),
    {
        let size: usize = rest.len();
        match find(rest, sep) {
            Some(i) => {
                let ghost before = texts(out@);
                let piece: Vec<char> = vstd::slice::slice_to_vec(slice_subrange(rest, 0, i));
                let next: &[char] = slice_subrange(rest, i + sep.len(), size);
                proof {
                    assert(piece@ =~= rest@.take(i as int));
                    assert(next@ =~= rest@.skip(i + sep@.len()));
                    assert(texts(out@.push(piece)) =~= before.push(piece@));
                    assert(before.push(piece@) + pieces(next@, sep@) =~= before + (seq![piece@]
                        + pieces(next@, sep@)));
                }
                out.push(piece);
                rest = next;
            },
            None => {
                let ghost before = texts(out@);
                let piece: Vec<char> = vstd::slice::slice_to_vec(rest);
                proof {
                    assert(texts(out@.push(piece)) =~= before.push(piece@));
                    assert(before.push(piece@) =~= before + seq![piece@]);
                }
                out.push(piece);
                return out;
            },
        }
    }
}

/// The lines of `s`.
pub fn split_lines(s: &[char]) -> (r: Vec<Vec<char>>)
    ensures
        texts(r@) == lines_of(s@),
{
    let newline: [char; 1] = ['\n'];
    proof {
        assert(newline@ =~= seq!['\n']);
    }
    let mut out: Vec<Vec<char>> = Vec::new();
    let mut rest: &[char] = s;
    proof {
        assert(texts(out@) + lines_of(rest@) =~= lines_of(s@));
    }
    while rest.len() > 0
        invariant
            newline@ == seq!['\n'],
            texts(out@) + lines_of(rest@) == lines_of(s@),
        decreases rest@.len(),
    {
        let ghost before = texts(out@);
        match find(rest, newline.as_slice()) {
            Some(i) => {
                let mut end: usize = i;
                if i > 0 && rest[i - 1] == '\r' {
                    end = i - 1;
                }
                let line: Vec<char> = vstd::slice::slice_to_vec(slice_subrange(rest, 0, end));
                let next: &[char] = slice_subrange(rest, i + 1, rest.len());
                proof {
                    assert(line@ =~= without_cr(rest@.take(i as int)));
                    assert(next@ =~= rest@.skip(i + 1));
                    assert(texts(out@.push(line)) =~= before.push(line@));
                    assert(before.push(line@) + lines_of(next@) =~= before + (seq![line@]
                        + lines_of(next@)));
                }
                out.push(line);
                rest = next;
            },
            None => {
                let line: Vec<char> = vstd::slice::slice_to_vec(rest);
                let next: &[char] = slice_subrange(rest, rest.len(), rest.len());
                proof {
                    assert(texts(out@.push(line)) =~= before.push(line@));
                    assert(before.push(line@) + lines_of(next@) =~= before + seq![line@]);
                }
                out.push(line);
                rest = next;
            },
        }
    }
    proof {
        assert(texts(out@) + lines_of(rest@) =~= texts(out@));
    }
    out
}

/// `s` with every carriage return that a line feed follows taken out.
pub fn to_unix_text(s: &[char]) -> (r: Vec<char>)
    ensures
        r@ == unix_text(s@),
{
    let crlf: [char; 2] = ['\r', '\n'];
    proof {
        assert(crlf@ =~= seq!['\r', '\n']);
        assert(s@.skip(0) =~= s@);
    }
    let mut out: Vec<char> = Vec::new();
    let mut i: usize = 0;
    proof {
        assert(out@ + unix_text(s@) =~= unix_text(s@));
    }
    while i < s.len()
        invariant
            i <= s@.len(),
            crlf@ == seq!['\r', '\n'],
            out@ + unix_text(s@.skip(i as int)) == unix_text(s@),
        decreases s@.len() - i,
    {
        let ghost rest = s@.skip(i as int);
        let ghost before = out@;
        proof {
            text_facts::lemma_unix_text_step(rest);
            text_facts::lemma_occurs_skip(s@, crlf@, i as int, 0);
            assert(rest.skip(1) =~= s@.skip(i + 1));
        }
        if stands_at(s, crlf.as_slice(), i) {
            proof {
                assert(rest.skip(2) =~= s@.skip(i + 2));
                assert(before.push('\n') + unix_text(rest.skip(2)) =~= before + (seq!['\n']
                    + unix_text(rest.skip(2))));
            }
            out.push('\n');
            i += 2;
        } else {
            proof {
                assert(before.push(rest[0]) + unix_text(rest.skip(1)) =~= before + (seq![rest[0]]
                    + unix_text(rest.skip(1))));
            }
            out.push(s[i]);
            i += 1;
        }
    }
    proof {
        text_facts::lemma_unix_text_step(s@.skip(i as int));
        assert(out@ + unix_text(s@.skip(i as int)) =~= out@);
    }
    out
}

/// Whether every character of `s` is white space.
pub fn is_blank(s: &[char]) -> (r: bool)
    ensures
        r == all_space(s@),
{
    let mut i: usize = 0;
    while i < s.len()
        invariant
            i <= s@.len(),
            forall|j: int| 0 <= j < i ==> is_space(#[trigger] s@[j]),
        decreases s@.len() - i,
    {
        if !is_white(s[i]) {
            proof {
                assert(!is_space(s@[i as int]));
            }
            return false;
        }
        i += 1;
    }
    true
}

/// `s` with every blank line made empty.
pub fn clear_blank_lines(s: &[char]) -> (r: Vec<char>)
    ensures
        r@ == cleared(s@),
{
    let newline: [char; 1] = ['\n'];
    proof {
        assert(newline@ =~= seq!['\n']);
    }
    let lines: Vec<Vec<char>> = split(s, newline.as_slice());
    let ghost all = pieces(s@, seq!['\n']).map_values(|line: Seq<char>| cleared_line(line));
    let mut out: Vec<char> = Vec::new();
    let mut i: usize = 0;
    while i < lines.len()
        invariant
            i <= lines@.len(),
            newline@ == seq!['\n'],
            texts(lines@) == pieces(s@, seq!['\n']),
            all == pieces(s@, seq!['\n']).map_values(|line: Seq<char>| cleared_line(line)),
            out@ == joined(all.take(i as int), seq!['\n']),
        decreases lines@.len() - i,
    {
        proof {
            assert(texts(lines@)[i as int] == lines@[i as int]@);
            text_facts::lemma_joined_push(all.take(i as int), seq!['\n'], all[i as int]);
            assert(all.take(i as int).push(all[i as int]) =~= all.take(i + 1));
        }
        if i > 0 {
            push_all(&mut out, newline.as_slice());
        }
        if !is_blank(lines[i].as_slice()) {
            push_all(&mut out, lines[i].as_slice());
        }
        proof {
            assert(out@ =~= joined(all.take(i + 1), seq!['\n']));
        }
        i += 1;
    }
    proof {
        assert(all.take(all.len() as int) =~= all);
    }
    out
}

/// `s` with every `from` turned into `to`.
pub fn replace_char(s: &[char], from: char, to: char) -> (r: Vec<char>)
    ensures
        r@ == with_char(s@, from, to),
{
    let mut out: Vec<char> = Vec::new();
    let mut i: usize = 0;
    while i < s.len()
        invariant
            i <= s@.len(),
            out@ == with_char(s@, from, to).take(i as int),
        decreases s@.len() - i,
    {
        let c: char = if s[i] == from {
            to
        } else {
            s[i]
        };
        proof {
            let all = with_char(s@, from, to);
            assert(all.take(i + 1) =~= all.take(i as int).push(c));
        }
        out.push(c);
        i += 1;
    }
    proof {
        let all = with_char(s@, from, to);
        assert(all.take(s@.len() as int) =~= all);
    }
    out
}

/// The texts `parts` from position `from` on, with `sep` between neighbours.
pub fn join_from(parts: &Vec<Vec<char>>, from: usize, sep: &[char]) -> (r: Vec<char>)
    requires
        from <= parts@.len(),
    ensures
        r@ == joined(texts(parts@).skip(from as int), sep@),
{
    let ghost all = texts(parts@).skip(from as int);
    let mut out: Vec<char> = Vec::new();
    let mut i: usize = from;
    while i < parts.len()
        invariant
            from <= i <= parts@.len(),
            all == texts(parts@).skip(from as int),
            out@ == joined(all.take(i - from), sep@),
        decreases parts@.len() - i,
    {
        proof {
            text_facts::lemma_joined_push(all.take(i - from), sep@, parts@[i as int]@);
            assert(all.take(i - from).push(parts@[i as int]@) =~= all.take(i - from + 1));
        }
        if i > from {
            push_all(&mut out, sep);
        }
        push_all(&mut out, parts[i].as_slice());
        proof {
            assert(out@ =~= joined(all.take(i - from + 1), sep@));
        }
        i += 1;
    }
    proof {
        assert(all.take(all.len() as int) =~= all);
    }
    out
}

/// Appends the characters `more` to `out`.
pub fn push_all(out: &mut Vec<char>, more: &[char])
    ensures
        final(out)@ == old(out)@ + more@,
{
    let mut i: usize = 0;
    while i < more.len()
        invariant
            i <= more@.len(),
            out@ == old(out)@ + more@.take(i as int),
        decreases more@.len() - i,
    {
        proof {
            assert(more@.take(i + 1) =~= more@.take(i as int).push(more@[i as int]));
        }
        out.push(more[i]);
        i += 1;
    }
    proof {
        assert(more@.take(more@.len() as int) =~= more@);
    }
}

/// The number of bytes that `c` takes in UTF-8.
pub fn width(c: char) -> (r: usize)
    ensures
        r == utf8_len(c),
        1 <= r <= 4,
{
    if c <= '\u{7f}' {
        1
    } else if c <= '\u{7ff}' {
        2
    } else if c <= '\u{ffff}' {
        3
    } else {
        4
    }
}

/// The first `n` bytes of `s` in UTF-8, or all of `s` where it has fewer.
pub fn cut_bytes(s: &[char], n: usize) -> (r: Option<&[char]>)
    ensures
        match r {
            Some(t) => first_bytes(s@, n as int) == Some(t@),
            None => first_bytes(s@, n as int) is None,
        },
{
    let mut i: usize = 0;
    let mut left: usize = n;
    proof {
        assert(s@.skip(0) =~= s@);
    }
    while i < s.len() && left > 0
        invariant
            i <= s@.len(),
            first_bytes(s@, n as int) == match first_bytes(s@.skip(i as int), left as int) {
                Some(rest) => Some(s@.take(i as int) + rest),
                None => None::<Seq<char>>,
            },
        decreases s@.len() - i,
    {
        let w: usize = width(s[i]);
        if w > left {
            return None;
        }
        proof {
            let here = s@.skip(i as int);
            assert(here.drop_first() =~= s@.skip(i + 1));
            match first_bytes(here.drop_first(), left - w) {
                Some(rest) => {
                    assert(s@.take(i as int) + (seq![s@[i as int]] + rest) =~= s@.take(i + 1)
                        + rest);
                },
                None => {},
            }
        }
        left -= w;
        i += 1;
    }
    proof {
        assert(s@.take(i as int) + Seq::<char>::empty() =~= s@.take(i as int));
        assert(s@.subrange(0, i as int) =~= s@.take(i as int));
    }
    Some(slice_subrange(s, 0, i))
}

} // verus!
