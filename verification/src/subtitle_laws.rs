//! What holds of reading, writing and shifting subtitles taken together.

use vstd::prelude::*;

use crate::numbers;
use crate::subtitle;
use crate::text;
use crate::text_facts;

verus! {

// ---------------------------------------------------------------------------
// Times
// ---------------------------------------------------------------------------

/// A number below a hundred, or below a thousand, takes its two or three
/// places and no more.
proof fn lemma_padded_len(n: int)
    requires
        0 <= n,
    ensures
        n < 100 ==> numbers::padded(n, 2).len() == 2,
        n < 1000 ==> numbers::padded(n, 3).len() == 3,
{
    reveal_with_fuel(numbers::decimal, 3);
}

/// A written time is made of digits, colons and a comma, and starts and ends
/// with a digit.
proof fn lemma_time_chars(ms: int)
    ensures
        subtitle::time_text(ms).len() > 0,
        numbers::is_digit(subtitle::time_text(ms)[0]),
        numbers::is_digit(subtitle::time_text(ms).last()),
        forall|i: int|
            0 <= i < subtitle::time_text(ms).len() ==> numbers::is_digit(
                #[trigger] subtitle::time_text(ms)[i],
            ) || subtitle::time_text(ms)[i] == ':' || subtitle::time_text(ms)[i] == ',',
{
    let t = subtitle::clamped(ms);
    let a = numbers::padded(t / 3_600_000, 2);
    let b = numbers::padded(t % 3_600_000 / 60_000, 2);
    let c = numbers::padded(t % 60_000 / 1_000, 2);
    let d = numbers::padded(t % 1_000, 3);
    numbers::lemma_padded_value(t / 3_600_000, 2);
    numbers::lemma_padded_value(t % 3_600_000 / 60_000, 2);
    numbers::lemma_padded_value(t % 60_000 / 1_000, 2);
    numbers::lemma_padded_value(t % 1_000, 3);
    let w = subtitle::time_text(ms);
    let ab = a + seq![':'] + b;
    let abc = ab + seq![':'] + c;
    assert(w =~= abc + seq![','] + d);
    assert(w[0] == a[0]);
    assert(w.last() == d[d.len() - 1]);
    assert forall|i: int| 0 <= i < w.len() implies numbers::is_digit(#[trigger] w[i]) || w[i] == ':'
        || w[i] == ',' by {
        if i < a.len() {
            assert(w[i] == a[i]);
        } else if a.len() < i < ab.len() {
            assert(w[i] == b[i - a.len() - 1]);
        } else if ab.len() < i < abc.len() {
            assert(w[i] == c[i - ab.len() - 1]);
        } else if abc.len() < i {
            assert(w[i] == d[i - abc.len() - 1]);
        }
    }
}

/// A row of digits stands for the number `n`.
spec fn is_numeral(s: Seq<char>, n: int) -> bool {
    s.len() > 0 && numbers::all_digits(s) && numbers::digits_value(s) == n
}

/// Three rows of digits with colons between them are three fields.
proof fn lemma_clock_fields(a: Seq<char>, b: Seq<char>, c: Seq<char>)
    requires
        numbers::all_digits(a),
        numbers::all_digits(b),
        numbers::all_digits(c),
    ensures
        text::pieces(a + seq![':'] + (b + seq![':'] + c), seq![':']) == seq![a, b, c],
{
    text_facts::lemma_pieces_field(a, ':', b + seq![':'] + c);
    text_facts::lemma_pieces_field(b, ':', c);
    text_facts::lemma_pieces_last_field(c, ':');
    assert(text::pieces(a + seq![':'] + (b + seq![':'] + c), seq![':']) =~= seq![a, b, c]);
}

/// The one comma of a time becomes its one full stop.
proof fn lemma_time_parts(clock: Seq<char>, d: Seq<char>)
    requires
        forall|i: int| 0 <= i < clock.len() ==> #[trigger] clock[i] != ',' && clock[i] != '.',
        numbers::all_digits(d),
    ensures
        ({
            let u = text::with_char(clock + seq![','] + d, ',', '.');
            &&& text::last_position(u, '.') == Some(clock.len() as int)
            &&& u.take(clock.len() as int) == clock
            &&& u.skip(clock.len() as int + 1) == d
        }),
{
    let w = clock + seq![','] + d;
    let k = clock.len() as int;
    let u = text::with_char(w, ',', '.');
    assert forall|i: int| 0 <= i < d.len() implies u[k + 1 + i] == #[trigger] d[i] && d[i] != '.' by {
        assert(numbers::is_digit(d[i]));
        assert(w[k + 1 + i] == d[i]);
    }
    assert forall|i: int| 0 <= i < k implies u[i] == #[trigger] clock[i] by {
        assert(w[i] == clock[i]);
    }
    assert(w[k] == ',');
    assert forall|j: int| k < j < u.len() implies u[j] != '.' by {
        assert(u[k + 1 + (j - k - 1)] == d[j - k - 1]);
    }
    text_facts::lemma_last_position_is(u, '.', k);
    assert(u.take(k) =~= clock);
    assert(u.skip(k + 1) =~= d);
}

/// Four numerals put together as a time are read as that time.
#[verifier::rlimit(40)]
proof fn lemma_time_of(
    a: Seq<char>,
    b: Seq<char>,
    c: Seq<char>,
    d: Seq<char>,
    h: int,
    m: int,
    s: int,
    z: int,
)
    requires
        is_numeral(a, h),
        is_numeral(b, m),
        is_numeral(c, s),
        is_numeral(d, z),
        d.len() == 3,
        0 <= h <= i64::MAX,
        0 <= m <= i64::MAX,
        0 <= s <= i64::MAX,
        0 <= z <= i64::MAX,
        subtitle::total_ms(h, m, s, z) is Some,
    ensures
        subtitle::time_reading(a + seq![':'] + (b + seq![':'] + c) + seq![','] + d)
            == subtitle::Reading::Value(subtitle::total_ms(h, m, s, z)->0),
{
    let clock = a + seq![':'] + (b + seq![':'] + c);
    assert forall|i: int| 0 <= i < clock.len() implies #[trigger] clock[i] != ',' && clock[i]
        != '.' by {
        if i < a.len() {
            assert(clock[i] == a[i]);
        } else if a.len() < i < a.len() + 1 + b.len() {
            assert(clock[i] == b[i - a.len() - 1]);
        } else if a.len() + 1 + b.len() < i {
            assert(clock[i] == c[i - a.len() - b.len() - 2]);
        }
    }
    lemma_time_parts(clock, d);
    lemma_clock_fields(a, b, c);
    numbers::lemma_digits_unsigned(a, true);
    numbers::lemma_digits_unsigned(b, true);
    numbers::lemma_digits_unsigned(c, true);
    numbers::lemma_digits_unsigned(d, true);
    assert forall|i: int| 0 <= i < d.len() implies d[i] <= '\u{7f}' by {
        assert(numbers::is_digit(d[i]));
    }
    text_facts::lemma_first_bytes_all(d, 3);
    assert(d + numbers::zeros(0) =~= d);
}

/// It does not matter which parts of a time are put together first.
proof fn lemma_regroup(a: Seq<char>, b: Seq<char>, c: Seq<char>, d: Seq<char>)
    ensures
        a + seq![':'] + b + seq![':'] + c + seq![','] + d == a + seq![':'] + (b + seq![':'] + c)
            + seq![','] + d,
{
    assert(a + seq![':'] + b + seq![':'] + c + seq![','] + d =~= a + seq![':'] + (b + seq![':'] + c)
        + seq![','] + d);
}

/// Reading a written time gives the time back, with zero for a negative one.
#[verifier::rlimit(40)]
pub proof fn law_time_round_trip(ms: int)
    requires
        ms <= i64::MAX,
    ensures
        subtitle::time_reading(subtitle::time_text(ms)) == subtitle::Reading::Value(
            subtitle::clamped(ms),
        ),
{
    let t = subtitle::clamped(ms);
    let h = t / 3_600_000;
    let m = t % 3_600_000 / 60_000;
    let s = t % 60_000 / 1_000;
    let z = t % 1_000;
    let a = numbers::padded(h, 2);
    let b = numbers::padded(m, 2);
    let c = numbers::padded(s, 2);
    let d = numbers::padded(z, 3);
    numbers::lemma_padded_value(h, 2);
    numbers::lemma_padded_value(m, 2);
    numbers::lemma_padded_value(s, 2);
    numbers::lemma_padded_value(z, 3);
    lemma_padded_len(z);
    assert(h * 3_600_000 + m * 60_000 + s * 1_000 + z == t);
    lemma_time_of(a, b, c, d, h, m, s, z);
    lemma_regroup(a, b, c, d);
}

/// Where the arrow stands in a timestamp line.
proof fn lemma_arrow_position(a: Seq<char>, b: Seq<char>)
    requires
        !text::occurs(a, seq!['-', '-', '>']),
    ensures
        text::position_of(a + seq!['-', '-', '>'] + b, seq!['-', '-', '>']) == Some(a.len() as int),
{
    let arrow = seq!['-', '-', '>'];
    let line = a + arrow + b;
    let k = a.len() as int;
    assert(line.subrange(k, k + 3) =~= arrow);
    assert forall|j: int| 0 <= j < k implies !text::occurs_at(line, arrow, j) by {
        if text::occurs_at(line, arrow, j) {
            assert(line.subrange(j, j + 3)[2] == '>');
            assert(line[j + 2] == '>');
            assert(arrow[0] == '-' && arrow[1] == '-' && arrow[2] == '>');
            assert(j + 3 <= k);
            assert(line.subrange(j, j + 3) =~= a.subrange(j, j + 3));
            assert(text::occurs_at(a, arrow, j));
        }
    }
    text_facts::lemma_position_is(line, arrow, k);
}

/// White space round the arrow of a timestamp line does not matter.
pub proof fn law_timestamp_spacing(a: Seq<char>, w1: Seq<char>, w2: Seq<char>, b: Seq<char>)
    requires
        !text::occurs(a, seq!['-', '-', '>']),
        text::all_space(w1),
        text::all_space(w2),
    ensures
        subtitle::timestamp_reading(a + w1 + seq!['-', '-', '>'] + w2 + b)
            == subtitle::timestamp_reading(a + seq!['-', '-', '>'] + b),
{
    let arrow = seq!['-', '-', '>'];
    let left = a + w1;
    assert forall|j: int| !text::occurs_at(left, arrow, j) by {
        if text::occurs_at(left, arrow, j) {
            assert(left.subrange(j, j + 3)[2] == '>');
            assert(left[j + 2] == '>');
            if j + 2 >= a.len() {
                assert(text::is_space(w1[j + 2 - a.len()]));
            }
            assert(left.subrange(j, j + 3) =~= a.subrange(j, j + 3));
            assert(text::occurs_at(a, arrow, j));
        }
    }
    lemma_arrow_position(a, b);
    lemma_arrow_position(left, w2 + b);
    let line = a + arrow + b;
    let spaced = left + arrow + (w2 + b);
    assert(a + w1 + arrow + w2 + b =~= spaced);
    assert(line.take(a.len() as int) =~= a);
    assert(line.skip(a.len() as int + 3) =~= b);
    assert(spaced.take(left.len() as int) =~= left);
    assert(spaced.skip(left.len() as int + 3) =~= w2 + b);
    let none = Seq::<char>::empty();
    text_facts::lemma_trimmed_between(none, a, w1);
    assert(none + a + w1 =~= left);
    text_facts::lemma_trimmed_between(w2, b, none);
    assert(w2 + b + none =~= w2 + b);
}

/// A comma and a full stop before the milliseconds say the same.
pub proof fn law_comma_or_full_stop(s: Seq<char>)
    ensures
        subtitle::time_reading(s) == subtitle::time_reading(text::with_char(s, ',', '.')),
{
    assert(text::with_char(text::with_char(s, ',', '.'), ',', '.') =~= text::with_char(
        s,
        ',',
        '.',
    ));
}

/// Two times with an arrow between them are read as those times.
#[verifier::rlimit(40)]
proof fn lemma_timestamp_of(a: Seq<char>, b: Seq<char>, x: int, y: int)
    requires
        a.len() > 0,
        b.len() > 0,
        !text::is_space(a[0]),
        !text::is_space(a.last()),
        !text::is_space(b[0]),
        !text::is_space(b.last()),
        forall|i: int| 0 <= i < a.len() ==> a[i] != '>',
        subtitle::time_reading(a) == subtitle::Reading::Value(x),
        subtitle::time_reading(b) == subtitle::Reading::Value(y),
    ensures
        subtitle::timestamp_reading(a + seq![' ', '-', '-', '>', ' '] + b)
            == subtitle::Reading::Value((x, y)),
{
    let arrow = seq!['-', '-', '>'];
    let sp = seq![' '];
    assert forall|j: int| !text::occurs_at(a, arrow, j) by {
        if text::occurs_at(a, arrow, j) {
            assert(a.subrange(j, j + 3)[2] == '>');
            assert(a[j + 2] == '>');
        }
    }
    law_timestamp_spacing(a, sp, sp, b);
    assert(a + seq![' ', '-', '-', '>', ' '] + b =~= a + sp + arrow + sp + b);
    lemma_arrow_position(a, b);
    let line = a + arrow + b;
    assert(line.take(a.len() as int) =~= a);
    assert(line.skip(a.len() as int + 3) =~= b);
    text_facts::lemma_trimmed_same(a);
    text_facts::lemma_trimmed_same(b);
}

/// Reading a written timestamp line gives both times back.
#[verifier::rlimit(40)]
pub proof fn law_timestamp_round_trip(start: int, end: int)
    requires
        start <= i64::MAX,
        end <= i64::MAX,
    ensures
        subtitle::timestamp_reading(subtitle::timestamp_text(start, end))
            == subtitle::Reading::Value((subtitle::clamped(start), subtitle::clamped(end))),
{
    let a = subtitle::time_text(start);
    lemma_time_chars(start);
    lemma_time_chars(end);
    law_time_round_trip(start);
    law_time_round_trip(end);
    assert forall|i: int| 0 <= i < a.len() implies a[i] != '>' by {
        assert(numbers::is_digit(a[i]) || a[i] == ':' || a[i] == ',');
    }
    lemma_timestamp_of(
        a,
        subtitle::time_text(end),
        subtitle::clamped(start),
        subtitle::clamped(end),
    );
}

// ---------------------------------------------------------------------------
// Files
// ---------------------------------------------------------------------------

/// Line ends of one or of two characters say the same.
pub proof fn law_line_ends(s: Seq<char>)
    requires
        !text::occurs(s, seq!['\r', '\n']),
    ensures
        subtitle::srt_reading(text_facts::dos_text(s)) == subtitle::srt_reading(s),
{
    text_facts::lemma_unix_of_dos(s);
    text_facts::lemma_unix_text_same(s);
}

/// What comes of reading one text after another: the entries of both, or the
/// first thing that went wrong.
pub open spec fn read_both(
    first: subtitle::Reading<Seq<subtitle::Cue>>,
    second: subtitle::Reading<Seq<subtitle::Cue>>,
) -> subtitle::Reading<Seq<subtitle::Cue>> {
    match first {
        subtitle::Reading::Value(x) => match second {
            subtitle::Reading::Value(y) => subtitle::Reading::Value(x + y),
            other => other,
        },
        other => other,
    }
}

/// It does not matter which of three texts are taken together first.
proof fn lemma_read_both_associates(
    a: subtitle::Reading<Seq<subtitle::Cue>>,
    b: subtitle::Reading<Seq<subtitle::Cue>>,
    c: subtitle::Reading<Seq<subtitle::Cue>>,
)
    ensures
        read_both(a, read_both(b, c)) == read_both(read_both(a, b), c),
{
    match (a, b, c) {
        (
            subtitle::Reading::Value(x),
            subtitle::Reading::Value(y),
            subtitle::Reading::Value(z),
        ) => {
            assert(x + (y + z) =~= (x + y) + z);
        },
        _ => {},
    }
}

/// What a list of blocks stands for.
#[verifier::opaque]
spec fn reading_of(blocks: Seq<Seq<char>>) -> subtitle::Reading<Seq<subtitle::Cue>> {
    subtitle::blocks_reading(blocks)
}

/// The first block is read before the others.
#[verifier::rlimit(40)]
proof fn lemma_reading_step(blocks: Seq<Seq<char>>)
    ensures
        blocks.len() == 0 ==> reading_of(blocks) == subtitle::Reading::Value(
            Seq::<subtitle::Cue>::empty(),
        ),
        blocks.len() > 0 ==> reading_of(blocks) == read_both(
            reading_of(seq![blocks[0]]),
            reading_of(blocks.drop_first()),
        ),
{
    reveal(reading_of);
    if blocks.len() > 0 {
        let one = seq![blocks[0]];
        let none = Seq::<subtitle::Cue>::empty();
        assert(one.drop_first() =~= Seq::empty());
        assert(subtitle::blocks_reading(one.drop_first()) == subtitle::Reading::Value(none));
        match subtitle::blocks_reading(blocks.drop_first()) {
            subtitle::Reading::Value(rest) => {
                assert(none + rest =~= rest);
                match subtitle::block_reading(text::trimmed(blocks[0])) {
                    subtitle::Reading::Value(Some(c)) => {
                        assert(seq![c] + none =~= seq![c]);
                    },
                    _ => {},
                }
            },
            _ => {},
        }
    }
}

/// Blocks are read one after the other.
proof fn lemma_blocks_reading_append(x: Seq<Seq<char>>, y: Seq<Seq<char>>)
    ensures
        reading_of(x + y) == read_both(reading_of(x), reading_of(y)),
    decreases x.len(),
{
    lemma_reading_step(x);
    lemma_reading_step(x + y);
    if x.len() == 0 {
        assert(x + y =~= y);
        match reading_of(y) {
            subtitle::Reading::Value(v) => {
                assert(Seq::<subtitle::Cue>::empty() + v =~= v);
            },
            _ => {},
        }
    } else {
        let t = x.drop_first();
        lemma_blocks_reading_append(t, y);
        assert((x + y)[0] == x[0]);
        assert((x + y).drop_first() =~= t + y);
        lemma_read_both_associates(reading_of(seq![x[0]]), reading_of(t), reading_of(y));
    }
}

/// White space round a block says nothing.
proof fn lemma_block_alone(x: Seq<char>, y: Seq<char>)
    requires
        text::trimmed(x) == text::trimmed(y),
    ensures
        reading_of(seq![x]) == reading_of(seq![y]),
{
    reveal(reading_of);
    assert(seq![x].drop_first() =~= seq![y].drop_first());
}

/// An empty block says nothing.
proof fn lemma_block_empty(rest: Seq<Seq<char>>)
    ensures
        reading_of(seq![Seq::<char>::empty()] + rest) == reading_of(rest),
{
    reveal(reading_of);
    let all = seq![Seq::<char>::empty()] + rest;
    assert(all.drop_first() =~= rest);
    assert(text::trimmed(all[0]) == Seq::<char>::empty());
    assert(text::lines_of(all[0]).len() == 0);
}

/// What a text stands for in which all blank lines are empty.
#[verifier::opaque]
spec fn clear_reading(u: Seq<char>) -> subtitle::Reading<Seq<subtitle::Cue>> {
    reading_of(text::pieces(u, seq!['\n', '\n']))
}

/// What a file stands for, once its line ends are made single line feeds and
/// its blank lines empty.
proof fn lemma_clear_reading(content: Seq<char>)
    ensures
        subtitle::srt_reading(content) == clear_reading(text::cleared(text::unix_text(content))),
{
    reveal(reading_of);
    reveal(clear_reading);
}

/// A line feed in front says nothing.
proof fn lemma_reading_newline(u: Seq<char>)
    ensures
        clear_reading(seq!['\n'] + u) == clear_reading(u),
    decreases u.len(),
{
    reveal(clear_reading);
    let blank = seq!['\n', '\n'];
    let w = seq!['\n'] + u;
    assert(blank.len() == 2);
    text_facts::lemma_occurs_two(w, '\n', '\n', 0);
    if u.len() > 0 && u[0] == '\n' {
        let v = u.skip(1);
        assert(w[0] == '\n' && w[1] == u[0]);
        text_facts::lemma_pieces_cut(w, blank, 0);
        assert(w.take(0) =~= Seq::empty());
        assert(w.skip(2) =~= v);
        lemma_block_empty(text::pieces(v, blank));
        lemma_reading_newline(v);
        assert(seq!['\n'] + v =~= u);
    } else {
        if u.len() > 0 {
            assert(w[1] == u[0]);
        }
        text_facts::lemma_pieces_step(w, blank);
        assert(w.skip(1) =~= u);
        let p = text::pieces(u, blank);
        let first = seq!['\n'] + p[0];
        let none = Seq::<char>::empty();
        assert(first + none =~= first);
        text_facts::lemma_trimmed_between(seq!['\n'], p[0], none);
        lemma_block_alone(first, p[0]);
        assert(p =~= seq![p[0]] + p.drop_first());
        assert(text::pieces(w, blank) =~= seq![first] + p.drop_first());
        lemma_blocks_reading_append(seq![p[0]], p.drop_first());
        lemma_blocks_reading_append(seq![first], p.drop_first());
    }
}

/// White space other than a line feed at the end says nothing.
proof fn lemma_reading_space(u: Seq<char>, c: char)
    requires
        text::is_space(c),
        c != '\n',
    ensures
        clear_reading(u.push(c)) == clear_reading(u),
    decreases u.len(),
{
    reveal(clear_reading);
    let blank = seq!['\n', '\n'];
    let w = u.push(c);
    assert(blank.len() == 2);
    text_facts::lemma_position_from(u, blank, 0);
    assert forall|j: int| text::occurs_at(w, blank, j) == text::occurs_at(u, blank, j) by {
        text_facts::lemma_occurs_two(u, '\n', '\n', j);
        text_facts::lemma_occurs_two(w, '\n', '\n', j);
    }
    match text::position_of(u, blank) {
        Some(i) => {
            let rest = u.skip(i + 2);
            assert(text::occurs_at(w, blank, i));
            text_facts::lemma_pieces_cut(w, blank, i);
            text_facts::lemma_pieces_cut(u, blank, i);
            assert(w.take(i) =~= u.take(i));
            assert(w.skip(i + 2) =~= rest.push(c));
            lemma_reading_space(rest, c);
            lemma_blocks_reading_append(seq![u.take(i)], text::pieces(rest, blank));
            lemma_blocks_reading_append(seq![u.take(i)], text::pieces(rest.push(c), blank));
        },
        None => {
            text_facts::lemma_pieces_one(u, blank);
            text_facts::lemma_pieces_one(w, blank);
            let none = Seq::<char>::empty();
            assert(none + u + seq![c] =~= w);
            text_facts::lemma_trimmed_between(none, u, seq![c]);
            lemma_block_alone(w, u);
        },
    }
}

/// A blank line sets what stands before it apart from what follows.
#[verifier::rlimit(40)]
proof fn lemma_reading_append(u: Seq<char>, v: Seq<char>)
    ensures
        clear_reading(u + seq!['\n', '\n'] + v) == read_both(clear_reading(u), clear_reading(v)),
    decreases u.len(),
{
    reveal(clear_reading);
    let blank = seq!['\n', '\n'];
    let whole = u + blank + v;
    assert(blank.len() == 2);
    text_facts::lemma_position_from(u, blank, 0);
    match text::position_of(u, blank) {
        Some(i) => {
            let rest = u.skip(i + 2);
            let front = seq![u.take(i)];
            text_facts::lemma_occurs_two(u, '\n', '\n', i);
            text_facts::lemma_occurs_two(whole, '\n', '\n', i);
            assert forall|j: int| 0 <= j < i implies !text::occurs_at(whole, blank, j) by {
                text_facts::lemma_occurs_two(u, '\n', '\n', j);
                text_facts::lemma_occurs_two(whole, '\n', '\n', j);
                assert(!text::occurs_at(u, blank, j));
                assert(whole[j] == u[j] && whole[j + 1] == u[j + 1]);
            }
            text_facts::lemma_pieces_cut(whole, blank, i);
            text_facts::lemma_pieces_cut(u, blank, i);
            assert(whole.take(i) =~= u.take(i));
            assert(whole.skip(i + 2) =~= rest + blank + v);
            lemma_reading_append(rest, v);
            lemma_blocks_reading_append(front, text::pieces(rest, blank));
            lemma_blocks_reading_append(front, text::pieces(rest + blank + v, blank));
            lemma_read_both_associates(reading_of(front), clear_reading(rest), clear_reading(v));
        },
        None => {
            let ends = u.len() > 0 && u.last() == '\n';
            let i = if ends {
                u.len() - 1
            } else {
                u.len() as int
            };
            let front = u.take(i);
            text_facts::lemma_pieces_one(u, blank);
            text_facts::lemma_occurs_two(whole, '\n', '\n', i);
            assert forall|j: int| 0 <= j < i implies !text::occurs_at(whole, blank, j) by {
                text_facts::lemma_occurs_two(u, '\n', '\n', j);
                text_facts::lemma_occurs_two(whole, '\n', '\n', j);
                assert(!text::occurs_at(u, blank, j));
                assert(whole[j] == u[j]);
                if j + 1 < u.len() {
                    assert(whole[j + 1] == u[j + 1]);
                }
            }
            text_facts::lemma_pieces_cut(whole, blank, i);
            assert(whole.take(i) =~= front);
            if ends {
                let none = Seq::<char>::empty();
                assert(whole.skip(i + 2) =~= seq!['\n'] + v);
                lemma_reading_newline(v);
                assert(none + front + seq!['\n'] =~= u);
                text_facts::lemma_trimmed_between(none, front, seq!['\n']);
                lemma_block_alone(u, front);
                lemma_blocks_reading_append(
                    seq![front],
                    text::pieces(seq!['\n'] + v, blank),
                );
            } else {
                assert(front =~= u);
                assert(whole.skip(i + 2) =~= v);
                lemma_blocks_reading_append(seq![u], text::pieces(v, blank));
            }
        },
    }
}

/// Line feeds in front say nothing.
proof fn lemma_reading_newlines(w: Seq<char>, u: Seq<char>)
    requires
        forall|i: int| 0 <= i < w.len() ==> w[i] == '\n',
    ensures
        clear_reading(w + u) == clear_reading(u),
    decreases w.len(),
{
    if w.len() == 0 {
        assert(w + u =~= u);
    } else {
        let t = w.skip(1);
        assert(w + u =~= seq!['\n'] + (t + u));
        lemma_reading_newline(t + u);
        lemma_reading_newlines(t, u);
    }
}

/// A carriage return at the end says nothing.
proof fn lemma_reading_return(a: Seq<char>)
    ensures
        clear_reading(text::cleared(text::unix_text(text::without_cr(a)))) == clear_reading(
            text::cleared(text::unix_text(a)),
        ),
{
    if a.len() > 0 && a.last() == '\r' {
        let front = a.drop_last();
        let cr = seq!['\r'];
        let u = text::unix_text(front);
        text_facts::lemma_unix_text_append(front, cr);
        text_facts::lemma_unix_text_step(cr);
        text_facts::lemma_occurs_two(cr, '\r', '\n', 0);
        text_facts::lemma_unix_text_step(cr.skip(1));
        assert(front + cr =~= a);
        assert(text::unix_text(a) =~= u.push('\r'));
        text_facts::lemma_cleared_push(u, '\r');
        lemma_reading_space(text::cleared(u), '\r');
    }
}

/// A blank line sets what stands before it apart from what follows, whatever
/// the line ends are.
proof fn lemma_clear_reading_append(a: Seq<char>, w: Seq<char>, b: Seq<char>)
    requires
        text::all_space(w),
    ensures
        clear_reading(
            text::cleared(text::unix_text(a + seq!['\n'] + (w + seq!['\n'] + b))),
        ) == read_both(
            clear_reading(text::cleared(text::unix_text(a))),
            clear_reading(text::cleared(text::unix_text(b))),
        ),
{
    let lf = seq!['\n'];
    let x = text::unix_text(text::without_cr(a));
    let y = text::unix_text(text::without_cr(w));
    let z = text::unix_text(b);
    text_facts::lemma_unix_line(a, w + lf + b);
    text_facts::lemma_unix_line(w, b);
    assert forall|i: int| 0 <= i < text::without_cr(w).len() implies text::is_space(
        #[trigger] text::without_cr(w)[i],
    ) by {
        assert(text::without_cr(w)[i] == w[i]);
    }
    text_facts::lemma_unix_space(text::without_cr(w));
    text_facts::lemma_cleared_space(y);
    text_facts::lemma_cleared_concat(x, y + lf + z);
    text_facts::lemma_cleared_concat(y, z);
    let cx = text::cleared(x);
    let cy = text::cleared(y);
    let cz = text::cleared(z);
    let whole = cx + lf + (cy + lf + cz);
    assert(whole =~= cx + seq!['\n', '\n'] + (cy + cz)) by {
        assert forall|i: int| 0 <= i < cy.len() + 1 implies (lf + cy)[i] == (cy + lf)[i] by {}
        assert(lf + cy =~= cy + lf);
        assert(cx + lf + (cy + lf + cz) =~= cx + lf + (cy + lf) + cz);
        assert(cx + seq!['\n', '\n'] + (cy + cz) =~= cx + lf + (lf + cy) + cz);
    }
    lemma_reading_append(cx, cy + cz);
    lemma_reading_newlines(cy, cz);
    lemma_reading_return(a);
}

/// Two files with a blank line between them, be it empty or white space alone,
/// are read one after the other, and neither changes what is read of the other.
pub proof fn law_blank_line_sets_apart(a: Seq<char>, w: Seq<char>, b: Seq<char>)
    requires
        text::all_space(w),
    ensures
        subtitle::srt_reading(a + seq!['\n'] + w + seq!['\n'] + b) == read_both(
            subtitle::srt_reading(a),
            subtitle::srt_reading(b),
        ),
{
    let lf = seq!['\n'];
    lemma_clear_reading_append(a, w, b);
    assert(a + lf + w + lf + b =~= a + lf + (w + lf + b));
    lemma_clear_reading(a + lf + w + lf + b);
    lemma_clear_reading(a);
    lemma_clear_reading(b);
}

/// A line feed at the end says nothing.
proof fn lemma_reading_newline_last(u: Seq<char>)
    ensures
        clear_reading(u.push('\n')) == clear_reading(u),
    decreases u.len(),
{
    let blank = seq!['\n', '\n'];
    let none = Seq::<char>::empty();
    let w = u.push('\n');
    assert(blank.len() == 2);
    if u.len() > 0 && u.last() == '\n' {
        let y = u.drop_last();
        assert(w =~= y + blank + none);
        lemma_reading_append(y, none);
        lemma_empty_reading();
        match clear_reading(y) {
            subtitle::Reading::Value(v) => {
                assert(v + Seq::<subtitle::Cue>::empty() =~= v);
            },
            _ => {},
        }
        lemma_reading_newline_last(y);
        assert(y.push('\n') =~= u);
    } else {
        reveal(clear_reading);
        text_facts::lemma_position_from(u, blank, 0);
        assert forall|j: int| text::occurs_at(w, blank, j) == text::occurs_at(u, blank, j) by {
            text_facts::lemma_occurs_two(u, '\n', '\n', j);
            text_facts::lemma_occurs_two(w, '\n', '\n', j);
        }
        match text::position_of(u, blank) {
            Some(i) => {
                let rest = u.skip(i + 2);
                assert(text::occurs_at(w, blank, i));
                text_facts::lemma_pieces_cut(w, blank, i);
                text_facts::lemma_pieces_cut(u, blank, i);
                assert(w.take(i) =~= u.take(i));
                assert(w.skip(i + 2) =~= rest.push('\n'));
                lemma_reading_newline_last(rest);
                lemma_blocks_reading_append(seq![u.take(i)], text::pieces(rest, blank));
                lemma_blocks_reading_append(seq![u.take(i)], text::pieces(rest.push('\n'), blank));
            },
            None => {
                text_facts::lemma_pieces_one(u, blank);
                text_facts::lemma_pieces_one(w, blank);
                assert(none + u + seq!['\n'] =~= w);
                text_facts::lemma_trimmed_between(none, u, seq!['\n']);
                lemma_block_alone(w, u);
            },
        }
    }
}

/// An empty text says nothing.
proof fn lemma_empty_reading()
    ensures
        clear_reading(Seq::<char>::empty()) == subtitle::Reading::Value(
            Seq::<subtitle::Cue>::empty(),
        ),
{
    reveal(clear_reading);
    let none = Seq::<char>::empty();
    text_facts::lemma_no_pair_without(none, '\n', '\n');
    text_facts::lemma_pieces_one(none, seq!['\n', '\n']);
    lemma_block_empty(Seq::empty());
    lemma_reading_step(Seq::<Seq<char>>::empty());
    assert(seq![none] + Seq::<Seq<char>>::empty() =~= seq![none]);
}

/// White space at the end of a file says nothing.
pub proof fn law_space_at_end(s: Seq<char>, c: char)
    requires
        text::is_space(c),
    ensures
        subtitle::srt_reading(s.push(c)) == subtitle::srt_reading(s),
{
    let none = Seq::<char>::empty();
    lemma_clear_reading(s);
    lemma_clear_reading(s.push(c));
    text_facts::lemma_unix_text_step(none);
    if c == '\n' {
        let u = text::unix_text(text::without_cr(s));
        assert(s.push(c) =~= s + seq!['\n'] + none);
        text_facts::lemma_unix_line(s, none);
        text_facts::lemma_cleared_concat(u, none);
        text_facts::lemma_cleared_one(none);
        assert(text::cleared(u) + seq!['\n'] + none =~= text::cleared(u).push('\n'));
        lemma_reading_newline_last(text::cleared(u));
        lemma_reading_return(s);
    } else {
        let one = seq![c];
        text_facts::lemma_unix_text_append(s, one);
        text_facts::lemma_unix_text_step(one);
        text_facts::lemma_occurs_two(one, '\r', '\n', 0);
        assert(one.skip(1) =~= none);
        assert(s + one =~= s.push(c));
        assert(text::unix_text(s.push(c)) =~= text::unix_text(s).push(c));
        text_facts::lemma_cleared_push(text::unix_text(s), c);
        lemma_reading_space(text::cleared(text::unix_text(s)), c);
    }
}

/// White space other than a line feed in front says nothing.
proof fn lemma_reading_space_first(u: Seq<char>, c: char)
    requires
        text::is_space(c),
        c != '\n',
    ensures
        clear_reading(seq![c] + u) == clear_reading(u),
{
    reveal(clear_reading);
    let blank = seq!['\n', '\n'];
    let w = seq![c] + u;
    let none = Seq::<char>::empty();
    assert(blank.len() == 2);
    text_facts::lemma_occurs_two(w, '\n', '\n', 0);
    text_facts::lemma_pieces_step(w, blank);
    assert(w.skip(1) =~= u);
    let p = text::pieces(u, blank);
    let first = seq![c] + p[0];
    assert(first + none =~= first);
    text_facts::lemma_trimmed_between(seq![c], p[0], none);
    lemma_block_alone(first, p[0]);
    assert(p =~= seq![p[0]] + p.drop_first());
    assert(text::pieces(w, blank) =~= seq![first] + p.drop_first());
    lemma_blocks_reading_append(seq![p[0]], p.drop_first());
    lemma_blocks_reading_append(seq![first], p.drop_first());
}

/// White space in front of the first line stays there, or goes with the line.
proof fn lemma_cleared_front(s: Seq<char>, c: char)
    requires
        text::is_space(c),
        c != '\n',
    ensures
        text::cleared(seq![c] + s) == text::cleared(s) || text::cleared(seq![c] + s) == seq![c]
            + text::cleared(s),
{
    text_facts::lemma_first_line(s);
    let lf = seq!['\n'];
    let (line, rest) = match text::position_of(s, lf) {
        Some(i) => (s.take(i), Some(s.skip(i + 1))),
        None => (s, None),
    };
    let more = seq![c] + line;
    text_facts::lemma_cleared_one(line);
    text_facts::lemma_cleared_one(more);
    if text::all_space(line) {
        assert forall|j: int| 0 <= j < more.len() implies text::is_space(#[trigger] more[j]) by {
            if j > 0 {
                assert(more[j] == line[j - 1]);
            }
        }
    } else {
        let j = choose|j: int| 0 <= j < line.len() && !text::is_space(#[trigger] line[j]);
        assert(more[j + 1] == line[j]);
    }
    match rest {
        Some(r) => {
            text_facts::lemma_cleared_concat(line, r);
            text_facts::lemma_cleared_concat(more, r);
            assert(seq![c] + s =~= more + lf + r);
            assert(seq![c] + (line + lf + text::cleared(r)) =~= more + lf + text::cleared(r));
        },
        None => {},
    }
}

/// White space at the start of a file says nothing.
pub proof fn law_space_at_start(s: Seq<char>, c: char)
    requires
        text::is_space(c),
    ensures
        subtitle::srt_reading(seq![c] + s) == subtitle::srt_reading(s),
{
    let none = Seq::<char>::empty();
    let one = seq![c];
    lemma_clear_reading(s);
    lemma_clear_reading(one + s);
    text_facts::lemma_unix_text_step(one + s);
    text_facts::lemma_occurs_two(one + s, '\r', '\n', 0);
    assert((one + s).skip(1) =~= s);
    let u = text::unix_text(s);
    if c == '\n' {
        text_facts::lemma_cleared_concat(none, u);
        text_facts::lemma_cleared_one(none);
        assert(none + seq!['\n'] + u =~= seq!['\n'] + u);
        assert(none + seq!['\n'] + text::cleared(u) =~= seq!['\n'] + text::cleared(u));
        lemma_reading_newline(text::cleared(u));
    } else if c == '\r' && s.len() > 0 && s[0] == '\n' {
        text_facts::lemma_unix_text_step(s);
        text_facts::lemma_occurs_two(s, '\r', '\n', 0);
        assert((one + s).skip(2) =~= s.skip(1));
    } else {
        lemma_cleared_front(u, c);
        lemma_reading_space_first(text::cleared(u), c);
    }
}

/// A text that stands in a block just as it is: no line of it is blank, it has
/// no carriage return before a line feed, and no white space at its end.
pub open spec fn stands_in_block(t: Seq<char>) -> bool {
    &&& forall|i: int|
        0 <= i < text::pieces(t, seq!['\n']).len() ==> !text::all_space(
            #[trigger] text::pieces(t, seq!['\n'])[i],
        )
    &&& !text::is_space(t.last())
    &&& !text::occurs(t, seq!['\r', '\n'])
}

/// Such a text is not empty, has no empty line, and no blank line to clear.
pub proof fn lemma_stands(t: Seq<char>)
    requires
        stands_in_block(t),
    ensures
        t.len() > 0,
        t[0] != '\n',
        !text::occurs(t, seq!['\n', '\n']),
        text::cleared(t) == t,
{
    let lf = seq!['\n'];
    let none = Seq::<char>::empty();
    let p = text::pieces(t, lf);
    text_facts::lemma_cleared_same(t);
    text_facts::lemma_pieces_last_field(none, '\n');
    if t.len() == 0 {
        assert(t =~= none);
        assert(text::all_space(p[0]));
    } else if t[0] == '\n' {
        assert(t =~= none + lf + t.skip(1));
        text_facts::lemma_pieces_field(none, '\n', t.skip(1));
        assert(text::all_space(p[0]));
    }
    assert forall|i: int| !text::occurs_at(t, seq!['\n', '\n'], i) by {
        text_facts::lemma_occurs_two(t, '\n', '\n', i);
        if text::occurs_at(t, seq!['\n', '\n'], i) {
            let a = t.take(i);
            let b = t.skip(i + 2);
            assert(t =~= a + lf + (none + lf + b));
            text_facts::lemma_pieces_concat(a, '\n', none + lf + b);
            text_facts::lemma_pieces_field(none, '\n', b);
            assert(p[text::pieces(a, lf).len() as int] == none);
            assert(text::all_space(none));
        }
    }
}

/// Every text of `list` stands in a block just as it is.
pub open spec fn writable(list: Seq<subtitle::Cue>) -> bool {
    forall|i: int| 0 <= i < list.len() ==> stands_in_block((#[trigger] list[i]).text)
}

/// No time of `list` is beyond 64 bits.
pub open spec fn times_fit(list: Seq<subtitle::Cue>) -> bool {
    forall|i: int|
        0 <= i < list.len() ==> (#[trigger] list[i]).start <= i64::MAX && list[i].end <= i64::MAX
}

/// `list` numbered from one, with zero for its negative times.
pub open spec fn renumbered(list: Seq<subtitle::Cue>) -> Seq<subtitle::Cue> {
    Seq::new(
        list.len(),
        |i: int|
            subtitle::Cue {
                index: i + 1,
                start: subtitle::clamped(list[i].start),
                end: subtitle::clamped(list[i].end),
                text: list[i].text,
            },
    )
}

/// A written block without its last line feed.
spec fn body_text(number: int, cue: subtitle::Cue) -> Seq<char> {
    numbers::decimal(number) + seq!['\n'] + (subtitle::timestamp_text(cue.start, cue.end) + seq![
        '\n',
    ] + cue.text)
}

/// How a written block starts and ends, and what it does not hold.
proof fn lemma_body(number: int, cue: subtitle::Cue)
    requires
        0 <= number,
        stands_in_block(cue.text),
    ensures
        body_text(number, cue).len() > 0,
        numbers::is_digit(body_text(number, cue)[0]),
        !text::is_space(body_text(number, cue).last()),
        !text::occurs(body_text(number, cue), seq!['\n', '\n']),
        !text::occurs(body_text(number, cue), seq!['\r', '\n']),
        text::cleared(body_text(number, cue)) == body_text(number, cue),
{
    lemma_stands(cue.text);
    let d = numbers::decimal(number);
    let t = subtitle::timestamp_text(cue.start, cue.end);
    let lf = seq!['\n'];
    numbers::lemma_decimal_value(number);
    lemma_timestamp_chars(cue.start, cue.end);
    assert forall|i: int| 0 <= i < d.len() implies d[i] != '\n' && d[i] != '\r' by {
        assert(numbers::is_digit(d[i]));
    }
    text_facts::lemma_no_pair_without(d, '\n', '\n');
    text_facts::lemma_no_pair_without(d, '\r', '\n');
    text_facts::lemma_no_pair_without(t, '\n', '\n');
    text_facts::lemma_no_pair_without(t, '\r', '\n');
    text_facts::lemma_no_pair_without(lf, '\r', '\n');
    assert forall|i: int| !text::occurs_at(lf, seq!['\n', '\n'], i) by {
        text_facts::lemma_occurs_two(lf, '\n', '\n', i);
    }
    text_facts::lemma_no_pair(d, lf, '\n', '\n');
    text_facts::lemma_no_pair(d, lf, '\r', '\n');
    text_facts::lemma_no_pair(t, lf, '\n', '\n');
    text_facts::lemma_no_pair(t, lf, '\r', '\n');
    text_facts::lemma_no_pair(t + lf, cue.text, '\n', '\n');
    text_facts::lemma_no_pair(t + lf, cue.text, '\r', '\n');
    text_facts::lemma_no_pair(d + lf, t + lf + cue.text, '\n', '\n');
    text_facts::lemma_no_pair(d + lf, t + lf + cue.text, '\r', '\n');
    assert(numbers::is_digit(d[0]));
    assert(body_text(number, cue)[0] == d[0]);
    assert(body_text(number, cue).last() == cue.text.last());
    assert(!text::is_space(d[0]) && !text::is_space(t[0]));
    text_facts::lemma_cleared_one(d);
    text_facts::lemma_cleared_one(t);
    text_facts::lemma_cleared_concat(t, cue.text);
    text_facts::lemma_cleared_concat(d, t + lf + cue.text);
}

/// A written timestamp line holds no line end, and starts and ends with a
/// digit.
proof fn lemma_timestamp_chars(start: int, end: int)
    ensures
        subtitle::timestamp_text(start, end).len() > 0,
        numbers::is_digit(subtitle::timestamp_text(start, end)[0]),
        numbers::is_digit(subtitle::timestamp_text(start, end).last()),
        forall|i: int|
            0 <= i < subtitle::timestamp_text(start, end).len() ==> (
            #[trigger] subtitle::timestamp_text(start, end)[i]) != '\n'
                && subtitle::timestamp_text(start, end)[i] != '\r',
{
    let a = subtitle::time_text(start);
    let b = subtitle::time_text(end);
    let mid = seq![' ', '-', '-', '>', ' '];
    let w = subtitle::timestamp_text(start, end);
    lemma_time_chars(start);
    lemma_time_chars(end);
    assert(w[0] == a[0]);
    assert(w.last() == b.last());
    assert forall|i: int| 0 <= i < w.len() implies (#[trigger] w[i]) != '\n' && w[i] != '\r' by {
        if i < a.len() {
            assert(w[i] == a[i]);
        } else if i < a.len() + 5 {
            assert(w[i] == mid[i - a.len()]);
        } else {
            assert(w[i] == b[i - a.len() - 5]);
        }
    }
}

/// Reading a written block gives its entry back.
#[verifier::rlimit(40)]
proof fn lemma_body_reading(number: int, cue: subtitle::Cue)
    requires
        0 <= number <= usize::MAX,
        cue.start <= i64::MAX,
        cue.end <= i64::MAX,
        stands_in_block(cue.text),
    ensures
        subtitle::block_reading(body_text(number, cue)) == subtitle::Reading::Value(
            Some(
                subtitle::Cue {
                    index: number,
                    start: subtitle::clamped(cue.start),
                    end: subtitle::clamped(cue.end),
                    text: cue.text,
                },
            ),
        ),
{
    let d = numbers::decimal(number);
    let t = subtitle::timestamp_text(cue.start, cue.end);
    let lf = seq!['\n'];
    numbers::lemma_decimal_value(number);
    numbers::lemma_digits_unsigned(d, false);
    lemma_stands(cue.text);
    lemma_timestamp_chars(cue.start, cue.end);
    law_timestamp_round_trip(cue.start, cue.end);
    assert(numbers::is_digit(d[0]));
    assert(numbers::is_digit(d[d.len() - 1]));
    assert forall|i: int| 0 <= i < d.len() implies d[i] != '\n' by {
        assert(numbers::is_digit(d[i]));
    }
    text_facts::lemma_lines_front(d, t + lf + cue.text);
    text_facts::lemma_lines_front(t, cue.text);
    text_facts::lemma_joined_lines(cue.text);
    text_facts::lemma_trimmed_same(d);
    let lines = text::lines_of(body_text(number, cue));
    let rest = text::lines_of(cue.text);
    assert(lines =~= seq![d] + (seq![t] + rest));
    assert(lines[0] == d);
    assert(lines[1] == t);
    assert(lines.skip(2) =~= rest);
}

/// The file that is written for `list` from entry `k` on.
spec fn tail_text(list: Seq<subtitle::Cue>, k: int) -> Seq<char> {
    text::joined(subtitle::block_texts(list).skip(k), seq!['\n'])
}

/// How the rest of a written file starts.
proof fn lemma_tail_step(list: Seq<subtitle::Cue>, k: int)
    requires
        0 <= k < list.len(),
    ensures
        k + 1 == list.len() ==> tail_text(list, k) == body_text(k + 1, list[k]) + seq!['\n'],
        k + 1 < list.len() ==> tail_text(list, k) == body_text(k + 1, list[k]) + seq!['\n', '\n']
            + tail_text(list, k + 1),
{
    let all = subtitle::block_texts(list);
    let here = all.skip(k);
    let body = body_text(k + 1, list[k]);
    assert(all[k] =~= body + seq!['\n']);
    assert(here[0] == all[k]);
    if k + 1 < list.len() {
        assert(here.drop_first() =~= all.skip(k + 1));
        assert(tail_text(list, k) =~= body + seq!['\n', '\n'] + tail_text(list, k + 1));
    }
}

/// A block as it is written: it starts and ends with no white space, and holds
/// no blank line and no carriage return before a line feed.
spec fn is_body(body: Seq<char>) -> bool {
    &&& body.len() > 0
    &&& !text::is_space(body[0])
    &&& !text::is_space(body.last())
    &&& !text::occurs(body, seq!['\n', '\n'])
    &&& !text::occurs(body, seq!['\r', '\n'])
    &&& text::cleared(body) == body
}

/// A block that is read as an entry comes before what the others are read as.
proof fn lemma_reads_first(
    body: Seq<char>,
    others: Seq<Seq<char>>,
    cue: subtitle::Cue,
    more: Seq<subtitle::Cue>,
)
    requires
        subtitle::block_reading(text::trimmed(body)) == subtitle::Reading::Value(Some(cue)),
        subtitle::blocks_reading(others) == subtitle::Reading::Value(more),
    ensures
        subtitle::blocks_reading(seq![body] + others) == subtitle::Reading::Value(
            seq![cue] + more,
        ),
{
    let blocks = seq![body] + others;
    assert(blocks[0] == body);
    assert(blocks.drop_first() =~= others);
}

/// No blocks are read as no entries.
proof fn lemma_reads_nothing()
    ensures
        subtitle::blocks_reading(Seq::<Seq<char>>::empty()) == subtitle::Reading::Value(
            Seq::<subtitle::Cue>::empty(),
        ),
{
}

/// A block with its last line feed is a text of one block.
proof fn lemma_last_block_text(body: Seq<char>)
    requires
        is_body(body),
    ensures
        !text::occurs(body + seq!['\n'], seq!['\r', '\n']),
        text::cleared(body + seq!['\n']) == body + seq!['\n'],
        text::pieces(body + seq!['\n'], seq!['\n', '\n']) == seq![body + seq!['\n']],
        text::trimmed(body + seq!['\n']) == body,
{
    let lf = seq!['\n'];
    let blank = seq!['\n', '\n'];
    let tail = body + lf;
    let none = Seq::<char>::empty();
    text_facts::lemma_no_pair_without(lf, '\r', '\n');
    text_facts::lemma_no_pair(body, lf, '\r', '\n');
    assert forall|i: int| !text::occurs_at(lf, blank, i) by {
        text_facts::lemma_occurs_two(lf, '\n', '\n', i);
    }
    text_facts::lemma_no_pair(body, lf, '\n', '\n');
    text_facts::lemma_pieces_one(tail, blank);
    text_facts::lemma_cleared_concat(body, none);
    text_facts::lemma_cleared_one(none);
    assert(body + lf + none =~= tail);
    assert(none + body + lf =~= tail);
    text_facts::lemma_trimmed_between(none, body, lf);
    text_facts::lemma_trimmed_same(body);
}

/// The last block of a file is read as its entry.
proof fn lemma_last_block(body: Seq<char>, cue: subtitle::Cue)
    requires
        is_body(body),
        subtitle::block_reading(body) == subtitle::Reading::Value(Some(cue)),
    ensures
        !text::occurs(body + seq!['\n'], seq!['\r', '\n']),
        text::cleared(body + seq!['\n']) == body + seq!['\n'],
        subtitle::blocks_reading(text::pieces(body + seq!['\n'], seq!['\n', '\n']))
            == subtitle::Reading::Value(seq![cue]),
{
    let none = Seq::<subtitle::Cue>::empty();
    let tail = body + seq!['\n'];
    lemma_last_block_text(body);
    lemma_reads_nothing();
    lemma_reads_first(tail, Seq::empty(), cue, none);
    assert(seq![tail] + Seq::<Seq<char>>::empty() =~= seq![tail]);
    assert(seq![cue] + none =~= seq![cue]);
}

/// A block before others is set apart from them by a blank line.
proof fn lemma_first_block_text(body: Seq<char>, rest: Seq<char>)
    requires
        is_body(body),
        !text::occurs(rest, seq!['\r', '\n']),
        text::cleared(rest) == rest,
    ensures
        !text::occurs(body + seq!['\n', '\n'] + rest, seq!['\r', '\n']),
        text::cleared(body + seq!['\n', '\n'] + rest) == body + seq!['\n', '\n'] + rest,
        text::pieces(body + seq!['\n', '\n'] + rest, seq!['\n', '\n']) == seq![body]
            + text::pieces(rest, seq!['\n', '\n']),
        text::trimmed(body) == body,
{
    let blank = seq!['\n', '\n'];
    let tail = body + blank + rest;
    assert(blank.len() == 2);
    text_facts::lemma_no_pair_without(blank, '\r', '\n');
    text_facts::lemma_no_pair(body, blank, '\r', '\n');
    text_facts::lemma_no_pair(body + blank, rest, '\r', '\n');
    let lf = seq!['\n'];
    let none = Seq::<char>::empty();
    text_facts::lemma_cleared_concat(body, none + lf + rest);
    text_facts::lemma_cleared_concat(none, rest);
    text_facts::lemma_cleared_one(none);
    assert(tail =~= body + lf + (none + lf + rest));
    let i = body.len() as int;
    assert(tail.subrange(i, i + 2) =~= blank);
    assert forall|j: int| 0 <= j < i implies !text::occurs_at(tail, blank, j) by {
        text_facts::lemma_occurs_two(tail, '\n', '\n', j);
        text_facts::lemma_occurs_two(body, '\n', '\n', j);
        if text::occurs_at(tail, blank, j) {
            if j + 1 < i {
                assert(tail[j] == body[j] && tail[j + 1] == body[j + 1]);
                assert(text::occurs_at(body, blank, j));
            } else {
                assert(tail[j] == body.last());
            }
        }
    }
    text_facts::lemma_pieces_cut(tail, blank, i);
    assert(tail.take(i) =~= body);
    assert(tail.skip(i + 2) =~= rest);
    text_facts::lemma_trimmed_same(body);
}

/// A block before others is read as its entry, before theirs.
proof fn lemma_first_block(
    body: Seq<char>,
    rest: Seq<char>,
    cue: subtitle::Cue,
    more: Seq<subtitle::Cue>,
)
    requires
        is_body(body),
        subtitle::block_reading(body) == subtitle::Reading::Value(Some(cue)),
        !text::occurs(rest, seq!['\r', '\n']),
        text::cleared(rest) == rest,
        subtitle::blocks_reading(text::pieces(rest, seq!['\n', '\n']))
            == subtitle::Reading::Value(more),
    ensures
        !text::occurs(body + seq!['\n', '\n'] + rest, seq!['\r', '\n']),
        text::cleared(body + seq!['\n', '\n'] + rest) == body + seq!['\n', '\n'] + rest,
        subtitle::blocks_reading(
            text::pieces(body + seq!['\n', '\n'] + rest, seq!['\n', '\n']),
        ) == subtitle::Reading::Value(seq![cue] + more),
{
    lemma_first_block_text(body, rest);
    lemma_reads_first(body, text::pieces(rest, seq!['\n', '\n']), cue, more);
}

/// The rest of a written file holds no carriage return before a line feed, and
/// is read as the entries that were written.
#[verifier::rlimit(40)]
proof fn lemma_tail_reading(list: Seq<subtitle::Cue>, k: int)
    requires
        0 <= k < list.len(),
        list.len() <= usize::MAX,
        writable(list),
        times_fit(list),
    ensures
        !text::occurs(tail_text(list, k), seq!['\r', '\n']),
        text::cleared(tail_text(list, k)) == tail_text(list, k),
        subtitle::blocks_reading(text::pieces(tail_text(list, k), seq!['\n', '\n']))
            == subtitle::Reading::Value(renumbered(list).skip(k)),
    decreases list.len() - k,
{
    let body = body_text(k + 1, list[k]);
    let cue = renumbered(list)[k];
    assert(stands_in_block(list[k].text));
    lemma_body(k + 1, list[k]);
    lemma_body_reading(k + 1, list[k]);
    lemma_tail_step(list, k);
    assert(is_body(body));
    if k + 1 == list.len() {
        lemma_last_block(body, cue);
        assert(renumbered(list).skip(k) =~= seq![cue]);
    } else {
        lemma_tail_reading(list, k + 1);
        lemma_first_block(body, tail_text(list, k + 1), cue, renumbered(list).skip(k + 1));
        assert(renumbered(list).skip(k) =~= seq![cue] + renumbered(list).skip(k + 1));
    }
}

/// Reading a written file gives back the entries that were written, numbered
/// from one and with zero for negative times, where each of their texts stands
/// in a block just as it is.
pub proof fn law_srt_round_trip(list: Seq<subtitle::Cue>)
    requires
        list.len() <= usize::MAX,
        writable(list),
        times_fit(list),
    ensures
        subtitle::srt_reading(subtitle::srt_text(list)) == subtitle::Reading::Value(
            renumbered(list),
        ),
{
    let blank = seq!['\n', '\n'];
    let w = subtitle::srt_text(list);
    if list.len() == 0 {
        assert(w =~= Seq::empty());
        text_facts::lemma_no_pair_without(w, '\r', '\n');
        text_facts::lemma_no_pair_without(w, '\n', '\n');
        text_facts::lemma_unix_text_same(w);
        text_facts::lemma_cleared_one(w);
        text_facts::lemma_pieces_one(w, blank);
        let blocks = text::pieces(w, blank);
        assert(text::trimmed(w) == w);
        assert(blocks.drop_first() =~= Seq::empty());
        assert(subtitle::blocks_reading(blocks.drop_first()) == subtitle::Reading::Value(
            Seq::<subtitle::Cue>::empty(),
        ));
        assert(renumbered(list) =~= Seq::empty());
    } else {
        lemma_tail_reading(list, 0);
        assert(subtitle::block_texts(list).skip(0) =~= subtitle::block_texts(list));
        text_facts::lemma_unix_text_same(w);
        assert(renumbered(list).skip(0) =~= renumbered(list));
    }
}

// ---------------------------------------------------------------------------
// Files that were read
// ---------------------------------------------------------------------------

/// A block that is read: it has no blank line between two line feeds, no two
/// carriage returns before a line feed, and no white space at its end.
spec fn is_clear_block(block: Seq<char>) -> bool {
    &&& text_facts::no_blank_inside(block)
    &&& !text::occurs(block, seq!['\r', '\r', '\n'])
    &&& block.len() > 0 ==> !text::is_space(block.last())
}

/// The text of an entry that was read from such a block stands in a block as it
/// is.
#[verifier::rlimit(40)]
proof fn lemma_block_text_stands(block: Seq<char>)
    requires
        is_clear_block(block),
    ensures
        subtitle::block_reading(block) matches subtitle::Reading::Value(Some(cue))
            ==> stands_in_block(cue.text),
{
    let lines = text::lines_of(block);
    if lines.len() >= 3 {
        let n = block.len() as int;
        text_facts::lemma_lines_step(block);
        let i = text::position_of(block, seq!['\n'])->0;
        let r1 = block.skip(i + 1);
        assert(lines.len() == 1 + text::lines_of(r1).len());
        text_facts::lemma_lines_step(r1);
        let j = text::position_of(r1, seq!['\n'])->0;
        let r2 = r1.skip(j + 1);
        let at = i + 1 + j + 1;
        assert(r2 =~= block.subrange(at, n));
        assert(lines.skip(2) =~= text::lines_of(r2));
        assert(r2.len() > 0);
        assert(block[at - 1] == '\n') by {
            assert(r1[j] == block[at - 1]);
        }
        lemma_rest_stands(block, at);
    }
}

/// What follows a line feed of such a block stands in a block, once its line
/// ends are taken off.
proof fn lemma_rest_stands(block: Seq<char>, at: int)
    requires
        is_clear_block(block),
        0 < at < block.len(),
        block[at - 1] == '\n',
    ensures
        stands_in_block(
            text::joined(
                text::lines_of(block.subrange(at, block.len() as int)),
                seq!['\n'],
            ),
        ),
{
    let n = block.len() as int;
    let r = block.subrange(at, n);
    assert(r.last() == block.last());
    assert forall|q: int| 0 <= q < r.len() && #[trigger] r[q] == '\n' implies !text::all_space(
        r.take(q),
    ) by {
        assert(block[at + q] == '\n');
        assert(block.subrange(at - 1 + 1, at + q) =~= r.take(q));
    }
    lemma_inside_subrange(block, at, n);
    text_facts::lemma_lines_not_blank(r);
    text_facts::lemma_joined_lines_not_blank(r);
    text_facts::lemma_joined_lines_unix(r);
    text_facts::lemma_occurs_subrange(block, seq!['\r', '\r', '\n'], at, n);
    text_facts::lemma_unix_text_clean(r);
}

/// A part of a text without blank lines between line feeds has none either.
proof fn lemma_inside_subrange(s: Seq<char>, a: int, b: int)
    requires
        text_facts::no_blank_inside(s),
        0 <= a <= b <= s.len(),
    ensures
        text_facts::no_blank_inside(s.subrange(a, b)),
{
    let r = s.subrange(a, b);
    assert forall|p: int, q: int|
        0 <= p < q < r.len() && #[trigger] r[p] == '\n' && #[trigger] r[q]
            == '\n' implies !text::all_space(r.subrange(p + 1, q)) by {
        assert(s[a + p] == '\n' && s[a + q] == '\n');
        assert(s.subrange(a + p + 1, a + q) =~= r.subrange(p + 1, q));
    }
}

/// The blocks of a text in which all blank lines are empty hold no blank line
/// between two line feeds.
proof fn lemma_blocks_clear(u: Seq<char>, k: int)
    requires
        text::cleared(u) == u,
        0 <= k < text::pieces(u, seq!['\n', '\n']).len(),
    ensures
        text_facts::no_blank_inside(text::pieces(u, seq!['\n', '\n'])[k]),
    decreases u.len(),
{
    let lf = seq!['\n'];
    let blank = seq!['\n', '\n'];
    let none = Seq::<char>::empty();
    assert(blank.len() == 2);
    text_facts::lemma_position_from(u, blank, 0);
    match text::position_of(u, blank) {
        Some(i) => {
            let front = u.take(i);
            let rest = u.skip(i + 2);
            text_facts::lemma_occurs_two(u, '\n', '\n', i);
            text_facts::lemma_pieces_cut(u, blank, i);
            assert(u =~= front + lf + (none + lf + rest));
            text_facts::lemma_cleared_parts(front, none + lf + rest);
            text_facts::lemma_cleared_parts(none, rest);
            if k == 0 {
                assert forall|j: int| !text::occurs_at(front, blank, j) by {
                    text_facts::lemma_occurs_two(front, '\n', '\n', j);
                    text_facts::lemma_occurs_two(u, '\n', '\n', j);
                    if text::occurs_at(front, blank, j) {
                        assert(front[j] == u[j] && front[j + 1] == u[j + 1]);
                        assert(text::occurs_at(u, blank, j));
                    }
                }
                text_facts::lemma_cleared_inside(front);
            } else {
                lemma_blocks_clear(rest, k - 1);
                assert(text::pieces(u, blank)[k] == text::pieces(rest, blank)[k - 1]);
            }
        },
        None => {
            text_facts::lemma_pieces_one(u, blank);
            text_facts::lemma_cleared_inside(u);
        },
    }
}

/// The texts of the entries that were read from such blocks stand in a block
/// as they are.
#[verifier::rlimit(40)]
proof fn lemma_blocks_texts_stand(blocks: Seq<Seq<char>>)
    requires
        forall|i: int|
            0 <= i < blocks.len() ==> text_facts::no_blank_inside(#[trigger] blocks[i])
                && !text::occurs(blocks[i], seq!['\r', '\r', '\n']),
    ensures
        subtitle::blocks_reading(blocks) matches subtitle::Reading::Value(list) ==> writable(list),
    decreases blocks.len(),
{
    if blocks.len() > 0 {
        let b = blocks[0];
        let block = text::trimmed(b);
        let a = text_facts::lemma_trimmed_is(b);
        lemma_inside_subrange(b, a, a + block.len());
        text_facts::lemma_occurs_subrange(b, seq!['\r', '\r', '\n'], a, a + block.len());
        assert(is_clear_block(block));
        lemma_block_text_stands(block);
        let others = blocks.drop_first();
        assert forall|i: int| 0 <= i < others.len() implies text_facts::no_blank_inside(
            #[trigger] others[i],
        ) && !text::occurs(others[i], seq!['\r', '\r', '\n']) by {
            assert(others[i] == blocks[i + 1]);
        }
        lemma_blocks_texts_stand(others);
        match subtitle::blocks_reading(blocks) {
            subtitle::Reading::Value(list) => {
                let rest = subtitle::blocks_reading(others)->Value_0;
                assert forall|i: int| 0 <= i < list.len() implies stands_in_block(
                    (#[trigger] list[i]).text,
                ) by {
                    if list.len() > rest.len() {
                        if i > 0 {
                            assert(list[i] == rest[i - 1]);
                        }
                    } else {
                        assert(list[i] == rest[i]);
                    }
                }
            },
            _ => {},
        }
    }
}

/// Every time that was read fits in 64 bits.
#[verifier::rlimit(40)]
proof fn lemma_read_times_fit(blocks: Seq<Seq<char>>)
    ensures
        subtitle::blocks_reading(blocks) matches subtitle::Reading::Value(list) ==> times_fit(list),
    decreases blocks.len(),
{
    if blocks.len() > 0 {
        lemma_read_times_fit(blocks.drop_first());
        match subtitle::blocks_reading(blocks) {
            subtitle::Reading::Value(list) => {
                let rest = subtitle::blocks_reading(blocks.drop_first())->Value_0;
                assert forall|i: int| 0 <= i < list.len() implies (#[trigger] list[i]).start
                    <= i64::MAX && list[i].end <= i64::MAX by {
                    if list.len() > rest.len() {
                        if i > 0 {
                            assert(list[i] == rest[i - 1]);
                        }
                    } else {
                        assert(list[i] == rest[i]);
                    }
                }
            },
            _ => {},
        }
    }
}

/// Every text that is read from a file in which no three carriage returns stand
/// before a line feed stands in a block just as it is.
pub proof fn law_read_texts_stand(content: Seq<char>)
    requires
        !text::occurs(content, seq!['\r', '\r', '\r', '\n']),
    ensures
        subtitle::srt_reading(content) matches subtitle::Reading::Value(list) ==> writable(list),
{
    let u = text::unix_text(content);
    let c = text::cleared(u);
    let blank = seq!['\n', '\n'];
    let bad = seq!['\r', '\r', '\n'];
    text_facts::lemma_unix_text_cleaner(content);
    text_facts::lemma_cleared_returns(u);
    text_facts::lemma_cleared_twice(u);
    let blocks = text::pieces(c, blank);
    assert(blank.len() == 2);
    assert forall|i: int| 0 <= i < blocks.len() implies text_facts::no_blank_inside(
        #[trigger] blocks[i],
    ) && !text::occurs(blocks[i], bad) by {
        lemma_blocks_clear(c, i);
        text_facts::lemma_pieces_lack(c, blank, bad, i);
    }
    lemma_blocks_texts_stand(blocks);
}

/// What was read from a file, written and read again gives the same entries,
/// numbered from one and with zero for negative times, where each text that
/// was read stands in a block just as it is.
pub proof fn law_read_write_read(content: Seq<char>, list: Seq<subtitle::Cue>)
    requires
        subtitle::srt_reading(content) == subtitle::Reading::Value(list),
        list.len() <= usize::MAX,
        writable(list),
    ensures
        subtitle::srt_reading(subtitle::srt_text(list)) == subtitle::Reading::Value(
            renumbered(list),
        ),
{
    let blocks = text::pieces(text::cleared(text::unix_text(content)), seq!['\n', '\n']);
    lemma_read_times_fit(blocks);
    assert(subtitle::blocks_reading(blocks) == subtitle::Reading::Value(list));
    law_srt_round_trip(list);
}

// ---------------------------------------------------------------------------
// Shifting
// ---------------------------------------------------------------------------

/// Shifting keeps how many entries there are, their numbers and their texts,
/// and leaves no negative time.
pub proof fn law_shift_keeps(list: Seq<subtitle::Cue>, offset: int)
    ensures
        subtitle::shifted(list, offset).len() == list.len(),
        forall|i: int|
            0 <= i < list.len() ==> {
                let moved = #[trigger] subtitle::shifted(list, offset)[i];
                &&& moved.index == list[i].index
                &&& moved.text == list[i].text
                &&& moved.start >= 0
                &&& moved.end >= 0
            },
{
}

/// An entry that ends no sooner than it starts still does so when shifted, and
/// lasts as long as before unless it was cut off at zero.
pub proof fn law_shift_duration(cue: subtitle::Cue, offset: int)
    requires
        cue.start <= cue.end,
    ensures
        subtitle::shifted_cue(cue, offset).start <= subtitle::shifted_cue(cue, offset).end,
        subtitle::shifted_cue(cue, offset).end - subtitle::shifted_cue(cue, offset).start
            <= cue.end - cue.start,
        cue.start + offset >= 0 ==> subtitle::shifted_cue(cue, offset).end
            - subtitle::shifted_cue(cue, offset).start == cue.end - cue.start,
{
}

/// Entries keep their order when shifted.
pub proof fn law_shift_order(a: subtitle::Cue, b: subtitle::Cue, offset: int)
    ensures
        a.start <= b.start ==> subtitle::shifted_cue(a, offset).start <= subtitle::shifted_cue(
            b,
            offset,
        ).start,
        a.end <= b.end ==> subtitle::shifted_cue(a, offset).end <= subtitle::shifted_cue(
            b,
            offset,
        ).end,
{
}

/// No time of `list` moved by `offset` lies before zero.
pub open spec fn stays_positive(list: Seq<subtitle::Cue>, offset: int) -> bool {
    forall|i: int|
        0 <= i < list.len() ==> (#[trigger] list[i]).start + offset >= 0 && list[i].end + offset
            >= 0
}

/// Two shifts are one shift by their sum, unless the first cuts something off
/// that the second would bring back.
pub proof fn law_shift_twice(list: Seq<subtitle::Cue>, a: int, b: int)
    requires
        b > 0 ==> stays_positive(list, a),
    ensures
        subtitle::shifted(subtitle::shifted(list, a), b) == subtitle::shifted(list, a + b),
{
    let twice = subtitle::shifted(subtitle::shifted(list, a), b);
    assert forall|i: int| 0 <= i < list.len() implies #[trigger] twice[i] == subtitle::shifted(
        list,
        a + b,
    )[i] by {
        assert(b > 0 ==> list[i].start + a >= 0);
    }
    assert(twice =~= subtitle::shifted(list, a + b));
}

/// A shift by zero changes nothing, where no time is negative.
pub proof fn law_shift_by_zero(list: Seq<subtitle::Cue>)
    requires
        stays_positive(list, 0),
    ensures
        subtitle::shifted(list, 0) == list,
{
    assert forall|i: int| 0 <= i < list.len() implies #[trigger] subtitle::shifted(list, 0)[i]
        == list[i] by {
        assert(list[i].start + 0 >= 0);
    }
    assert(subtitle::shifted(list, 0) =~= list);
}

/// A shift is undone by the opposite shift, where it cuts nothing off and no
/// time was negative.
pub proof fn law_shift_back(list: Seq<subtitle::Cue>, offset: int)
    requires
        stays_positive(list, 0),
        stays_positive(list, offset),
    ensures
        subtitle::shifted(subtitle::shifted(list, offset), -offset) == list,
{
    law_shift_twice(list, offset, -offset);
    law_shift_by_zero(list);
}

} // verus!
