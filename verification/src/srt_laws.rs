//! What SubRip text means, part by part: times, timestamp lines, blocks and
//! files, as they are read and as they are written.

use vstd::prelude::*;

use crate::numbers;
use crate::subtitle;
use crate::subtitle::Complaint;
use crate::subtitle::Cue;
use crate::subtitle::Reading;
use crate::subtitle::SubEntry;
use crate::subtitle_laws;
use crate::text;
use crate::text_facts;
use crate::text_laws;

verus! {

// ---------------------------------------------------------------------------
// Entries and outcomes
// ---------------------------------------------------------------------------

/// An entry says what its fields hold.
pub proof fn law_entry_says(e: SubEntry)
    ensures
        e@.index == e.index,
        e@.start == e.start_ms,
        e@.end == e.end_ms,
        e@.text == e.text@,
{
}

/// A list of entries says what each of them says, in order.
pub proof fn law_entries_say(entries: Seq<SubEntry>, i: int)
    ensures
        subtitle::cues(entries).len() == entries.len(),
        0 <= i < entries.len() ==> subtitle::cues(entries)[i] == entries[i]@,
{
}

/// A reader returns the value that a text stands for, or the message of the
/// refusal.
pub proof fn law_outcome<T, V>(r: Result<T, String>, m: Reading<V>, what: spec_fn(T) -> V)
    ensures
        r is Ok && subtitle::agrees(r, m, what) ==> m is Value && m->Value_0 == what(r->Ok_0),
        r is Err && subtitle::agrees(r, m, what) ==> m is Refused && r->Err_0@ == subtitle::message(
            m->Refused_0,
        ),
        m is Value && r is Ok && m->Value_0 == what(r->Ok_0) ==> subtitle::agrees(r, m, what),
        m is Refused && r is Err && r->Err_0@ == subtitle::message(m->Refused_0)
            ==> subtitle::agrees(r, m, what),
{
}

/// Text of printable ASCII characters, quotes and backslashes aside, is quoted
/// as it stands, and every other text as it is shown for debugging.
pub proof fn law_quoted(s: Seq<char>, i: int)
    ensures
        (forall|j: int|
            0 <= j < s.len() ==> 32 <= (#[trigger] s[j]) as int <= 126 && s[j] != '"' && s[j]
                != '\\') ==> subtitle::quoted(s) == seq!['"'] + s + seq!['"'],
        0 <= i < s.len() && !(32 <= s[i] as int <= 126 && s[i] != '"' && s[i] != '\\')
            ==> subtitle::quoted(s) == subtitle::debug_text(s),
{
    if forall|j: int|
        0 <= j < s.len() ==> 32 <= (#[trigger] s[j]) as int <= 126 && s[j] != '"' && s[j] != '\\' {
        assert(subtitle::is_plain(s));
    }
    if 0 <= i < s.len() && !(32 <= s[i] as int <= 126 && s[i] != '"' && s[i] != '\\') {
        assert(!subtitle::is_plain(s));
    }
}

/// Every refusal says what was looked for, and quotes what was found.
pub proof fn law_messages(s: Seq<char>)
    ensures
        subtitle::message(Complaint::SequenceNumber(s)) == "Cannot parse sequence number: "@
            + subtitle::quoted(s),
        subtitle::message(Complaint::TimestampLine(s)) == "Invalid timestamp line: "@
            + subtitle::quoted(s),
        subtitle::message(Complaint::Separator(s)) == "No millisecond separator in: "@
            + subtitle::quoted(s),
        subtitle::message(Complaint::Clock(s)) == "Expected HH:MM:SS, got: "@ + subtitle::quoted(s),
        subtitle::message(Complaint::Hours(s)) == "Bad hours: "@ + subtitle::quoted(s),
        subtitle::message(Complaint::Minutes(s)) == "Bad minutes: "@ + subtitle::quoted(s),
        subtitle::message(Complaint::Seconds(s)) == "Bad seconds: "@ + subtitle::quoted(s),
        subtitle::message(Complaint::Fraction(s)) == "Bad ms: "@ + subtitle::quoted(s),
        subtitle::message(Complaint::Range(s)) == "Time out of range: "@ + subtitle::quoted(s),
{
}

// ---------------------------------------------------------------------------
// Reading times
// ---------------------------------------------------------------------------

/// The hours, minutes, seconds and milliseconds of a time add up, and only what
/// does not fit in 64 bits on the way is refused.
pub proof fn law_time_adds_up(h: int, m: int, s: int, ms: int)
    ensures
        subtitle::total_ms(h, m, s, ms) is Some ==> subtitle::total_ms(h, m, s, ms)->0 == 3_600_000
            * h + 60_000 * m + 1_000 * s + ms,
        0 <= h && 0 <= m && 0 <= s && 0 <= ms ==> (subtitle::total_ms(h, m, s, ms) is Some
            <==> 3_600_000 * h + 60_000 * m + 1_000 * s + ms <= 0x7fff_ffff_ffff_ffff),
        h <= 0 && m <= 0 && s <= 0 && ms <= 0 ==> (subtitle::total_ms(h, m, s, ms) is Some
            <==> -0x8000_0000_0000_0000 <= 3_600_000 * h + 60_000 * m + 1_000 * s + ms),
        -1_000_000_000_000 <= h <= 1_000_000_000_000 && -1_000_000_000_000 <= m
            <= 1_000_000_000_000 && -1_000_000_000_000 <= s <= 1_000_000_000_000
            && -1_000_000_000_000 <= ms <= 1_000_000_000_000 ==> subtitle::total_ms(
            h,
            m,
            s,
            ms,
        ) is Some,
{
}

/// The first digit of a fraction stands for tenths of a second, the second for
/// hundredths, the third for thousandths, and any further ones for nothing.
pub proof fn law_fraction(f: Seq<char>)
    requires
        f.len() > 0,
        forall|i: int| 0 <= i < f.len() ==> '0' <= #[trigger] f[i] <= '9',
    ensures
        ({
            let tenths = f[0] as int - 48;
            let hundredths = if f.len() > 1 {
                f[1] as int - 48
            } else {
                0
            };
            let thousandths = if f.len() > 2 {
                f[2] as int - 48
            } else {
                0
            };
            subtitle::fraction_reading(f) == Reading::Value(
                100 * tenths + 10 * hundredths + thousandths,
            )
        }),
{
    let k: int = if f.len() < 3 {
        f.len() as int
    } else {
        3
    };
    let cut = f.take(k);
    let d = cut + numbers::zeros(3 - k);
    lemma_ascii_bytes(cut);
    text_laws::law_first_bytes(cut, ' ', f.skip(k), 3);
    assert(cut + f.skip(k) =~= f);
    if f.len() < 3 {
        assert(cut =~= f);
    }
    assert forall|i: int| 0 <= i < d.len() implies '0' <= #[trigger] d[i] <= '9' by {
        if i < k {
            assert(d[i] == f[i]);
        }
    }
    assert(f[0] == d[0]);
    assert(f.len() > 1 ==> d[1] == f[1]);
    assert(f.len() > 2 ==> d[2] == f[2]);
    lemma_three_digits(d);
    text_laws::law_signed_read(d);
}

/// What three digits stand for.
proof fn lemma_three_digits(d: Seq<char>)
    requires
        d.len() == 3,
    ensures
        numbers::digits_value(d) == 100 * (d[0] as int - 48) + 10 * (d[1] as int - 48) + (d[2] as int
            - 48),
{
    let e = Seq::<char>::empty();
    text_laws::law_digits_value(e, d[0]);
    text_laws::law_digits_value(e.push(d[0]), d[1]);
    text_laws::law_digits_value(e.push(d[0]).push(d[1]), d[2]);
    assert(d =~= e.push(d[0]).push(d[1]).push(d[2]));
}

/// What two digits stand for.
proof fn lemma_two_digits(d: Seq<char>)
    requires
        d.len() == 2,
    ensures
        numbers::digits_value(d) == 10 * (d[0] as int - 48) + (d[1] as int - 48),
{
    let e = Seq::<char>::empty();
    text_laws::law_digits_value(e, d[0]);
    text_laws::law_digits_value(e.push(d[0]), d[1]);
    assert(d =~= e.push(d[0]).push(d[1]));
}

/// ASCII characters take a byte each.
proof fn lemma_ascii_bytes(s: Seq<char>)
    requires
        forall|i: int| 0 <= i < s.len() ==> (#[trigger] s[i]) as int <= 0x7f,
    ensures
        text_laws::bytes_in(s) == s.len(),
    decreases s.len(),
{
    if s.len() > 0 {
        let t = s.drop_first();
        assert forall|i: int| 0 <= i < t.len() implies (#[trigger] t[i]) as int <= 0x7f by {
            assert(t[i] == s[i + 1]);
        }
        lemma_ascii_bytes(t);
    }
}

/// A fraction is read by its first three bytes, filled up with zeros; where they
/// are no number, or where a character reaches across their end, the whole of it
/// is refused.
pub proof fn law_fraction_cut(cut: Seq<char>, c: char, rest: Seq<char>, zeros: Seq<char>)
    requires
        cut.len() <= 3,
        zeros.len() == 3 - cut.len(),
        forall|i: int| 0 <= i < zeros.len() ==> zeros[i] == '0',
    ensures
        text_laws::bytes_in(cut) == 3 || (text_laws::bytes_in(cut) < 3 && rest.len() == 0) ==> (
        match numbers::signed_value(cut + zeros) {
            Some(ms) => subtitle::fraction_reading(cut + rest) == Reading::Value(ms),
            None => subtitle::fraction_reading(cut + rest) == Reading::<int>::Refused(
                Complaint::Fraction(cut + rest),
            ),
        }),
        text_laws::bytes_in(cut) < 3 < text_laws::bytes_in(cut) + text::utf8_len(c)
            ==> subtitle::fraction_reading(cut + seq![c] + rest) == Reading::<int>::Refused(
            Complaint::Fraction(cut + seq![c] + rest),
        ),
{
    text_laws::law_first_bytes(cut, c, rest, 3);
    assert(zeros =~= numbers::zeros(3 - cut.len()));
    if rest.len() == 0 {
        assert(cut + rest =~= cut);
    }
}

/// A text without a comma and without a full stop is no time.
pub proof fn law_time_needs_separator(s: Seq<char>)
    requires
        forall|i: int| 0 <= i < s.len() ==> s[i] != ',' && s[i] != '.',
    ensures
        subtitle::time_reading(s) == Reading::<int>::Refused(Complaint::Separator(s)),
{
    assert(text::with_char(s, ',', '.') =~= s);
    text_facts::lemma_last_position(s, '.');
}

/// What comes before the last separator of a time is its clock, and what comes
/// behind it its fraction.
proof fn lemma_clock_and_fraction(clock: Seq<char>, sep: char, f: Seq<char>)
    requires
        sep == ',' || sep == '.',
        forall|i: int| 0 <= i < clock.len() ==> clock[i] != ',',
        forall|i: int| 0 <= i < f.len() ==> f[i] != ',' && f[i] != '.',
    ensures
        ({
            let t = text::with_char(clock + seq![sep] + f, ',', '.');
            &&& t == clock + seq!['.'] + f
            &&& text::last_position(t, '.') == Some(clock.len() as int)
            &&& t.take(clock.len() as int) == clock
            &&& t.skip(clock.len() as int + 1) == f
        }),
{
    let t = text::with_char(clock + seq![sep] + f, ',', '.');
    let k = clock.len() as int;
    assert(t =~= clock + seq!['.'] + f);
    assert forall|j: int| k < j < t.len() implies t[j] != '.' by {
        assert(t[j] == f[j - k - 1]);
    }
    text_facts::lemma_last_position_is(t, '.', k);
    assert(t.take(k) =~= clock);
    assert(t.skip(k + 1) =~= f);
}

/// A clock that is not made of three fields with colons between them is refused.
pub proof fn law_clock_has_three_fields(clock: Seq<char>, sep: char, f: Seq<char>)
    requires
        sep == ',' || sep == '.',
        forall|i: int| 0 <= i < clock.len() ==> clock[i] != ',',
        forall|i: int| 0 <= i < f.len() ==> f[i] != ',' && f[i] != '.',
        text::pieces(clock, seq![':']).len() != 3,
    ensures
        subtitle::time_reading(clock + seq![sep] + f) == Reading::<int>::Refused(
            Complaint::Clock(clock),
        ),
{
    lemma_clock_and_fraction(clock, sep, f);
}

/// A time is read field by field: each field is a number, the first that is not
/// is complained of, and the fields add up to the time.
#[verifier::rlimit(40)]
pub proof fn law_time_fields(
    a: Seq<char>,
    b: Seq<char>,
    c: Seq<char>,
    sep: char,
    f: Seq<char>,
)
    requires
        sep == ',' || sep == '.',
        forall|i: int| 0 <= i < a.len() ==> a[i] != ',' && a[i] != ':',
        forall|i: int| 0 <= i < b.len() ==> b[i] != ',' && b[i] != ':',
        forall|i: int| 0 <= i < c.len() ==> c[i] != ',' && c[i] != ':',
        forall|i: int| 0 <= i < f.len() ==> f[i] != ',' && f[i] != '.',
    ensures
        ({
            let clock = a + seq![':'] + (b + seq![':'] + c);
            let r = subtitle::time_reading(clock + seq![sep] + f);
            let h = numbers::signed_value(a);
            let m = numbers::signed_value(b);
            let s = numbers::signed_value(c);
            let z = subtitle::fraction_reading(f);
            &&& h is None ==> r == Reading::<int>::Refused(Complaint::Hours(a))
            &&& h is Some && m is None ==> r == Reading::<int>::Refused(Complaint::Minutes(b))
            &&& h is Some && m is Some && s is None ==> r == Reading::<int>::Refused(
                Complaint::Seconds(c),
            )
            &&& h is Some && m is Some && s is Some && z is Refused ==> r == z
            &&& h is Some && m is Some && s is Some && z is Value ==> {
                let sum = subtitle::total_ms(h->0, m->0, s->0, z->Value_0);
                &&& sum is Some ==> r == Reading::Value(sum->0)
                &&& sum is None ==> r == Reading::<int>::Refused(
                    Complaint::Range(clock + seq!['.'] + f),
                )
            }
        }),
{
    let clock = a + seq![':'] + (b + seq![':'] + c);
    assert forall|i: int| 0 <= i < clock.len() implies clock[i] != ',' by {
        if i < a.len() {
            assert(clock[i] == a[i]);
        } else if a.len() < i < a.len() + 1 + b.len() {
            assert(clock[i] == b[i - a.len() - 1]);
        } else if a.len() + 1 + b.len() < i {
            assert(clock[i] == c[i - a.len() - b.len() - 2]);
        }
    }
    lemma_clock_and_fraction(clock, sep, f);
    text_facts::lemma_pieces_field(a, ':', b + seq![':'] + c);
    text_facts::lemma_pieces_field(b, ':', c);
    text_facts::lemma_pieces_last_field(c, ':');
    assert(text::pieces(clock, seq![':']) =~= seq![a, b, c]);
}

// ---------------------------------------------------------------------------
// Reading lines and blocks
// ---------------------------------------------------------------------------

/// A timestamp line is read as the times before and behind its first arrow, and
/// the first of them that cannot be read is complained of.
pub proof fn law_timestamp_parts(a: Seq<char>, b: Seq<char>)
    requires
        forall|j: int|
            0 <= j < a.len() ==> !text::occurs_at(a + seq!['-', '-', '>'] + b, seq!['-', '-', '>'], j),
    ensures
        ({
            let r = subtitle::timestamp_reading(a + seq!['-', '-', '>'] + b);
            let start = subtitle::time_reading(text::trimmed(a));
            let end = subtitle::time_reading(text::trimmed(b));
            &&& start is Refused ==> r == Reading::<(int, int)>::Refused(start->Refused_0)
            &&& start is Value && end is Refused ==> r == Reading::<(int, int)>::Refused(
                end->Refused_0,
            )
            &&& start is Value && end is Value ==> r == Reading::Value(
                (start->Value_0, end->Value_0),
            )
        }),
{
    let arrow = seq!['-', '-', '>'];
    let line = a + arrow + b;
    assert(arrow.len() == 3);
    text_laws::law_position(a, arrow, b);
    assert(line.take(a.len() as int) =~= a);
    assert(line.skip(a.len() as int + 3) =~= b);
}

/// A line without an arrow is no timestamp line.
pub proof fn law_timestamp_needs_arrow(line: Seq<char>)
    requires
        forall|j: int| !text::occurs_at(line, seq!['-', '-', '>'], j),
    ensures
        subtitle::timestamp_reading(line) == Reading::<(int, int)>::Refused(
            Complaint::TimestampLine(line),
        ),
{
    text_laws::law_no_position(line, seq!['-', '-', '>']);
}

/// A line as it stands in a file: it has no line end in it.
pub open spec fn is_line(s: Seq<char>) -> bool {
    forall|i: int| 0 <= i < s.len() ==> s[i] != '\n' && s[i] != '\r'
}

/// A line that holds something has no blank line to clear.
proof fn lemma_line_clear(s: Seq<char>, k: int)
    requires
        is_line(s),
        0 <= k < s.len(),
        !text::is_space(s[k]),
    ensures
        text::cleared(s) == s,
        !text::occurs(s, seq!['\n', '\n']),
        !text::occurs(s, seq!['\r', '\n']),
{
    text_facts::lemma_cleared_one(s);
    text_facts::lemma_no_pair_without(s, '\n', '\n');
    text_facts::lemma_no_pair_without(s, '\r', '\n');
}

/// A text without blank lines, without carriage returns before line feeds, and
/// without white space at its ends, is read as one block.
#[verifier::rlimit(40)]
proof fn lemma_one_block(block: Seq<char>)
    requires
        block.len() > 0,
        !text::is_space(block[0]),
        !text::is_space(block.last()),
        text::cleared(block) == block,
        !text::occurs(block, seq!['\n', '\n']),
        !text::occurs(block, seq!['\r', '\n']),
    ensures
        subtitle::block_reading(block) is Refused ==> subtitle::srt_reading(block) == Reading::<
            Seq<Cue>,
        >::Refused(subtitle::block_reading(block)->Refused_0),
        subtitle::block_reading(block) is Value ==> subtitle::srt_reading(block) == Reading::Value(
            match subtitle::block_reading(block)->Value_0 {
                Some(cue) => seq![cue],
                None => Seq::<Cue>::empty(),
            },
        ),
{
    let blank = seq!['\n', '\n'];
    text_facts::lemma_unix_text_same(block);
    text_facts::lemma_pieces_one(block, blank);
    text_facts::lemma_trimmed_same(block);
    let blocks = text::pieces(block, blank);
    assert(blocks == seq![block]);
    assert(blocks.drop_first() =~= Seq::empty());
    assert(subtitle::blocks_reading(blocks.drop_first()) == Reading::Value(Seq::<Cue>::empty()));
    match subtitle::block_reading(block) {
        Reading::Value(Some(cue)) => {
            assert(seq![cue] + Seq::<Cue>::empty() =~= seq![cue]);
        },
        _ => {},
    }
}

/// A line feed between two texts of which neither has a blank line, or begins or
/// ends where they meet with a line end, makes no blank line.
proof fn lemma_two_parts(a: Seq<char>, b: Seq<char>)
    requires
        a.len() > 0,
        b.len() > 0,
        a.last() != '\n',
        a.last() != '\r',
        b[0] != '\n',
        text::cleared(a) == a,
        text::cleared(b) == b,
        !text::occurs(a, seq!['\n', '\n']),
        !text::occurs(b, seq!['\n', '\n']),
        !text::occurs(a, seq!['\r', '\n']),
        !text::occurs(b, seq!['\r', '\n']),
    ensures
        text::cleared(a + seq!['\n'] + b) == a + seq!['\n'] + b,
        !text::occurs(a + seq!['\n'] + b, seq!['\n', '\n']),
        !text::occurs(a + seq!['\n'] + b, seq!['\r', '\n']),
{
    let lf = seq!['\n'];
    text_facts::lemma_cleared_concat(a, b);
    assert forall|i: int| !text::occurs_at(lf, seq!['\n', '\n'], i) by {
        text_facts::lemma_occurs_two(lf, '\n', '\n', i);
    }
    text_facts::lemma_no_pair_without(lf, '\r', '\n');
    text_facts::lemma_no_pair(a, lf, '\n', '\n');
    text_facts::lemma_no_pair(a, lf, '\r', '\n');
    text_facts::lemma_no_pair(a + lf, b, '\n', '\n');
    text_facts::lemma_no_pair(a + lf, b, '\r', '\n');
}

/// A number, a timestamp line and text on lines of their own are read as an
/// entry with that number, those times and that text. A number that cannot be
/// read is complained of first, and then the timestamp line.
#[verifier::rlimit(40)]
pub proof fn law_block_is_read(n: Seq<char>, t: Seq<char>, k: int, body: Seq<char>)
    requires
        is_line(n),
        n.len() > 0,
        !text::is_space(n[0]),
        is_line(t),
        0 <= k < t.len(),
        !text::is_space(t[k]),
        subtitle_laws::stands_in_block(body),
    ensures
        ({
            let r = subtitle::srt_reading(n + seq!['\n'] + (t + seq!['\n'] + body));
            let index = numbers::unsigned_value(text::trimmed(n), usize::MAX as int);
            let times = subtitle::timestamp_reading(t);
            &&& index is None ==> r == Reading::<Seq<Cue>>::Refused(Complaint::SequenceNumber(n))
            &&& index is Some && times is Refused ==> r == Reading::<Seq<Cue>>::Refused(
                times->Refused_0,
            )
            &&& index is Some && times is Value ==> r == Reading::Value(
                seq![
                    Cue {
                        index: index->0,
                        start: times->Value_0.0,
                        end: times->Value_0.1,
                        text: body,
                    },
                ],
            )
        }),
{
    let lf = seq!['\n'];
    let rest = t + lf + body;
    let block = n + lf + rest;
    subtitle_laws::lemma_stands(body);
    lemma_line_clear(n, 0);
    lemma_line_clear(t, k);
    assert(t.last() == t[t.len() - 1]);
    assert(n.last() == n[n.len() - 1]);
    lemma_two_parts(t, body);
    assert(rest[0] == t[0]);
    lemma_two_parts(n, rest);
    assert(block[0] == n[0]);
    assert(block.last() == body.last());
    lemma_one_block(block);
    text_facts::lemma_lines_front(n, rest);
    text_facts::lemma_lines_front(t, body);
    text_facts::lemma_joined_lines(body);
    let lines = text::lines_of(block);
    let more = text::lines_of(body);
    assert(lines =~= seq![n] + (seq![t] + more));
    assert(lines[0] == n);
    assert(lines[1] == t);
    assert(lines.skip(2) =~= more);
}

/// A block of a line or of two lines is no entry, whatever it says.
#[verifier::rlimit(40)]
pub proof fn law_short_block(n: Seq<char>, t: Seq<char>)
    requires
        is_line(n),
        n.len() > 0,
        !text::is_space(n[0]),
        !text::is_space(n.last()),
        is_line(t),
        t.len() > 0,
        !text::is_space(t.last()),
    ensures
        subtitle::srt_reading(n) == Reading::Value(Seq::<Cue>::empty()),
        subtitle::srt_reading(n + seq!['\n'] + t) == Reading::Value(Seq::<Cue>::empty()),
        subtitle::srt_reading(Seq::<char>::empty()) == Reading::Value(Seq::<Cue>::empty()),
{
    let lf = seq!['\n'];
    let both = n + lf + t;
    lemma_line_clear(n, 0);
    lemma_line_clear(t, t.len() - 1);
    assert(n.last() == n[n.len() - 1]);
    lemma_two_parts(n, t);
    assert(both[0] == n[0]);
    assert(both.last() == t.last());
    lemma_one_block(n);
    lemma_one_block(both);
    text_facts::lemma_lines_front(n, t);
    text_laws::law_lines(n, t);
    text_laws::law_lines(t, t);
    assert(text::lines_of(n).len() == 1);
    assert(text::lines_of(both).len() == 2);
    subtitle_laws::law_srt_round_trip(Seq::<Cue>::empty());
    assert(subtitle::srt_text(Seq::<Cue>::empty()) =~= Seq::empty());
    assert(subtitle_laws::renumbered(Seq::<Cue>::empty()) =~= Seq::empty());
}

/// Files with a blank line between them are read one after the other: their
/// entries follow each other, and what is wrong with the first of them is
/// complained of first.
pub proof fn law_files_follow(a: Seq<char>, w: Seq<char>, b: Seq<char>)
    requires
        forall|i: int| 0 <= i < w.len() ==> text::is_space(#[trigger] w[i]),
    ensures
        ({
            let r = subtitle::srt_reading(a + seq!['\n'] + w + seq!['\n'] + b);
            let x = subtitle::srt_reading(a);
            let y = subtitle::srt_reading(b);
            &&& x is Refused ==> r == x
            &&& x is Value && y is Refused ==> r == y
            &&& x is Value && y is Value ==> r == Reading::Value(x->Value_0 + y->Value_0)
        }),
{
    subtitle_laws::law_blank_line_sets_apart(a, w, b);
}

// ---------------------------------------------------------------------------
// Writing
// ---------------------------------------------------------------------------

/// A written time is `HH:MM:SS,mmm`: digits but for two colons and a comma, with
/// fewer than sixty minutes and seconds, no more than two digits for the hours
/// below a hundred, and parts that make up the time, or zero for a negative one.
#[verifier::rlimit(40)]
pub proof fn law_written_time(ms: int, i: int)
    ensures
        ({
            let t = subtitle::time_text(ms);
            let n = t.len() as int;
            let hours = numbers::digits_value(t.take(n - 10));
            let minutes = 10 * (t[n - 9] as int - 48) + (t[n - 8] as int - 48);
            let seconds = 10 * (t[n - 6] as int - 48) + (t[n - 5] as int - 48);
            let millis = 100 * (t[n - 3] as int - 48) + 10 * (t[n - 2] as int - 48) + (t[n
                - 1] as int - 48);
            &&& n >= 12
            &&& n == 12 <==> ms < 360_000_000
            &&& n > 12 ==> t[0] != '0'
            &&& t[n - 10] == ':'
            &&& t[n - 7] == ':'
            &&& t[n - 4] == ','
            &&& 0 <= i < n && i != n - 10 && i != n - 7 && i != n - 4 ==> '0' <= t[i] <= '9'
            &&& minutes < 60
            &&& seconds < 60
            &&& 3_600_000 * hours + 60_000 * minutes + 1_000 * seconds + millis == if ms < 0 {
                0
            } else {
                ms
            }
        }),
{
    let v = subtitle::clamped(ms);
    let h = v / 3_600_000;
    let m = v % 3_600_000 / 60_000;
    let s = v % 60_000 / 1_000;
    let z = v % 1_000;
    let a = numbers::padded(h, 2);
    let b = numbers::padded(m, 2);
    let c = numbers::padded(s, 2);
    let d = numbers::padded(z, 3);
    numbers::lemma_padded_value(h, 2);
    numbers::lemma_padded_value(m, 2);
    numbers::lemma_padded_value(s, 2);
    numbers::lemma_padded_value(z, 3);
    lemma_small_lengths(m);
    lemma_small_lengths(s);
    lemma_small_lengths(z);
    lemma_small_lengths(h);
    text_laws::law_decimal(h, 0);
    lemma_clock_shape(a, b, c, d, i);
    assert(subtitle::time_text(ms) =~= a + seq![':'] + b + seq![':'] + c + seq![','] + d);
    assert(3_600_000 * h + 60_000 * m + 1_000 * s + z == v);
    assert(h < 100 <==> ms < 360_000_000);
    assert(m < 60 && s < 60);
}

/// Where the parts of a written time stand.
proof fn lemma_clock_shape(a: Seq<char>, b: Seq<char>, c: Seq<char>, d: Seq<char>, i: int)
    requires
        b.len() == 2,
        c.len() == 2,
        d.len() == 3,
        a.len() > 0,
        numbers::all_digits(a),
        numbers::all_digits(b),
        numbers::all_digits(c),
        numbers::all_digits(d),
    ensures
        ({
            let t = a + seq![':'] + b + seq![':'] + c + seq![','] + d;
            let n = t.len() as int;
            &&& n == a.len() + 10
            &&& t.take(n - 10) == a
            &&& t[0] == a[0]
            &&& t[n - 10] == ':'
            &&& t[n - 7] == ':'
            &&& t[n - 4] == ','
            &&& 0 <= i < n && i != n - 10 && i != n - 7 && i != n - 4 ==> '0' <= t[i] <= '9'
            &&& 10 * (t[n - 9] as int - 48) + (t[n - 8] as int - 48) == numbers::digits_value(b)
            &&& 10 * (t[n - 6] as int - 48) + (t[n - 5] as int - 48) == numbers::digits_value(c)
            &&& 100 * (t[n - 3] as int - 48) + 10 * (t[n - 2] as int - 48) + (t[n - 1] as int - 48)
                == numbers::digits_value(d)
        }),
{
    let t = a + seq![':'] + b + seq![':'] + c + seq![','] + d;
    let n = t.len() as int;
    let k = a.len() as int;
    assert(n == k + 10);
    assert(t.take(k) =~= a);
    lemma_two_digits(b);
    lemma_two_digits(c);
    lemma_three_digits(d);
    assert(t[n - 9] == b[0] && t[n - 8] == b[1]);
    assert(t[n - 6] == c[0] && t[n - 5] == c[1]);
    assert(t[n - 3] == d[0] && t[n - 2] == d[1] && t[n - 1] == d[2]);
    if 0 <= i < k {
        assert(t[i] == a[i]);
        assert(numbers::is_digit(a[i]));
    }
    assert(numbers::is_digit(b[0]) && numbers::is_digit(b[1]));
    assert(numbers::is_digit(c[0]) && numbers::is_digit(c[1]));
    assert(numbers::is_digit(d[0]) && numbers::is_digit(d[1]) && numbers::is_digit(d[2]));
}

/// How many places small numbers take.
proof fn lemma_small_lengths(n: int)
    requires
        0 <= n,
    ensures
        n < 100 ==> numbers::padded(n, 2).len() == 2,
        n >= 100 ==> numbers::padded(n, 2).len() > 2 && numbers::padded(n, 2)
            == numbers::decimal(n),
        n < 1000 ==> numbers::padded(n, 3).len() == 3,
{
    reveal_with_fuel(numbers::decimal, 3);
    if n >= 100 {
        numbers::lemma_decimal_value(n / 10 / 10);
        assert(numbers::padded(n, 2) =~= numbers::decimal(n));
    }
}

/// A timestamp line is written as its two times with an arrow between them.
pub proof fn law_written_line(start: int, end: int)
    ensures
        subtitle::timestamp_text(start, end) == subtitle::time_text(start) + seq![
            ' ',
            '-',
            '-',
            '>',
            ' ',
        ] + subtitle::time_text(end),
{
}

/// An entry behind others is written behind them and a blank line: its place in
/// the list, its times and its text, each on lines of its own.
#[verifier::rlimit(40)]
pub proof fn law_written_file(list: Seq<Cue>, cue: Cue)
    ensures
        ({
            let lf = seq!['\n'];
            let entry = numbers::decimal(list.len() as int + 1) + lf + (subtitle::time_text(
                cue.start,
            ) + seq![' ', '-', '-', '>', ' '] + subtitle::time_text(cue.end)) + lf + cue.text + lf;
            &&& subtitle::srt_text(Seq::<Cue>::empty()).len() == 0
            &&& list.len() == 0 ==> subtitle::srt_text(list.push(cue)) == entry
            &&& list.len() > 0 ==> subtitle::srt_text(list.push(cue)) == subtitle::srt_text(list)
                + lf + entry
        }),
{
    let lf = seq!['\n'];
    let all = list.push(cue);
    let p = subtitle::block_texts(list);
    let b = subtitle::block_text(list.len() as int + 1, cue);
    assert(subtitle::block_texts(all) =~= p.push(b));
    text_laws::law_joined(p, b, lf);
    if list.len() == 0 {
        assert(p.push(b) =~= seq![b]);
    }
}

// ---------------------------------------------------------------------------
// Shifting
// ---------------------------------------------------------------------------

/// Every time of every entry is moved by just the offset, or stops at zero, and
/// nothing else of the entry changes.
pub proof fn law_shift_moves(list: Seq<Cue>, offset: int, i: int)
    requires
        0 <= i < list.len(),
    ensures
        ({
            let moved = subtitle::shifted(list, offset);
            &&& moved.len() == list.len()
            &&& moved[i].index == list[i].index
            &&& moved[i].text == list[i].text
            &&& list[i].start + offset >= 0 ==> moved[i].start - list[i].start == offset
            &&& list[i].start + offset < 0 ==> moved[i].start == 0
            &&& list[i].end + offset >= 0 ==> moved[i].end - list[i].end == offset
            &&& list[i].end + offset < 0 ==> moved[i].end == 0
        }),
{
}

/// A list can be shifted if and only if each of its entries can, and an entry
/// can if and only if its moved times fit in 64 bits.
pub proof fn law_shift_fits(list: Seq<Cue>, cue: Cue, offset: int)
    ensures
        subtitle::shift_fits(Seq::<Cue>::empty(), offset),
        subtitle::shift_fits(list.push(cue), offset) <==> subtitle::shift_fits(list, offset)
            && -0x8000_0000_0000_0000 <= cue.start + offset <= 0x7fff_ffff_ffff_ffff
            && -0x8000_0000_0000_0000 <= cue.end + offset <= 0x7fff_ffff_ffff_ffff,
{
    let all = list.push(cue);
    if subtitle::shift_fits(all, offset) {
        assert(all[list.len() as int] == cue);
        assert forall|i: int| 0 <= i < list.len() implies subtitle::fits(
            (#[trigger] list[i]).start + offset,
        ) && subtitle::fits(list[i].end + offset) by {
            assert(all[i] == list[i]);
        }
    }
}

// ---------------------------------------------------------------------------
// What can be written and read again
// ---------------------------------------------------------------------------

/// A text stands in a block where each of its lines holds something and does not
/// end with a carriage return, and the last does not end with white space.
pub proof fn law_text_stands(line: Seq<char>, k: int, rest: Seq<char>)
    requires
        forall|i: int| 0 <= i < line.len() ==> line[i] != '\n',
        0 <= k < line.len(),
        !text::is_space(line[k]),
    ensures
        !text::is_space(line.last()) ==> subtitle_laws::stands_in_block(line),
        line.last() != '\r' && subtitle_laws::stands_in_block(rest)
            ==> subtitle_laws::stands_in_block(line + seq!['\n'] + rest),
{
    let lf = seq!['\n'];
    text_facts::lemma_pieces_last_field(line, '\n');
    assert forall|j: int| !text::occurs_at(line, seq!['\r', '\n'], j) by {
        text_facts::lemma_occurs_two(line, '\r', '\n', j);
    }
    if line.last() != '\r' && subtitle_laws::stands_in_block(rest) {
        let whole = line + lf + rest;
        subtitle_laws::lemma_stands(rest);
        text_facts::lemma_pieces_field(line, '\n', rest);
        let p = text::pieces(whole, lf);
        assert forall|i: int| 0 <= i < p.len() implies !text::all_space(#[trigger] p[i]) by {
            if i == 0 {
                assert(p[0] == line);
            } else {
                assert(p[i] == text::pieces(rest, lf)[i - 1]);
            }
        }
        assert(whole.last() == rest.last());
        text_facts::lemma_no_pair_without(lf, '\r', '\n');
        text_facts::lemma_no_pair(line, lf, '\r', '\n');
        text_facts::lemma_no_pair(line + lf, rest, '\r', '\n');
    }
}

/// A list can be written and read again where each of its entries can.
pub proof fn law_list_is_writable(list: Seq<Cue>, cue: Cue)
    ensures
        subtitle_laws::writable(Seq::<Cue>::empty()),
        subtitle_laws::writable(list) && subtitle_laws::stands_in_block(cue.text)
            ==> subtitle_laws::writable(list.push(cue)),
        subtitle_laws::times_fit(Seq::<Cue>::empty()),
        subtitle_laws::times_fit(list) && cue.start <= 0x7fff_ffff_ffff_ffff && cue.end
            <= 0x7fff_ffff_ffff_ffff ==> subtitle_laws::times_fit(list.push(cue)),
{
}

/// What is read again has the entries that were written, in order, with their
/// places as numbers and zero for negative times.
pub proof fn law_renumbered(list: Seq<Cue>, i: int)
    requires
        0 <= i < list.len(),
    ensures
        ({
            let r = subtitle_laws::renumbered(list);
            &&& r.len() == list.len()
            &&& r[i].index == i + 1
            &&& r[i].text == list[i].text
            &&& r[i].start == if list[i].start < 0 {
                0
            } else {
                list[i].start
            }
            &&& r[i].end == if list[i].end < 0 {
                0
            } else {
                list[i].end
            }
        }),
{
}

} // verus!
