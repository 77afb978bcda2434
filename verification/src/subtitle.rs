//! SubRip subtitles: reading, shifting and writing.

use vstd::prelude::*;
use vstd::slice::slice_subrange;

use crate::numbers;
use crate::text;
use crate::text_facts;

verus! {

// ---------------------------------------------------------------------------
// Entries
// ---------------------------------------------------------------------------

/// A single subtitle entry.
#[derive(Debug, Clone)]
pub struct SubEntry {
    pub index: usize,
    pub start_ms: i64,
    pub end_ms: i64,
    pub text: String,
}

/// What an entry says: its number, when it is shown, and its text.
#[verifier::ext_equal]
pub struct Cue {
    pub index: int,
    pub start: int,
    pub end: int,
    pub text: Seq<char>,
}

impl View for SubEntry {
    type V = Cue;

    open spec fn view(&self) -> Cue {
        Cue {
            index: self.index as int,
            start: self.start_ms as int,
            end: self.end_ms as int,
            text: self.text@,
        }
    }
}

/// What a list of entries says.
pub open spec fn cues(entries: Seq<SubEntry>) -> Seq<Cue> {
    entries.map_values(|e: SubEntry| e@)
}

// ---------------------------------------------------------------------------
// What reading gives
// ---------------------------------------------------------------------------

/// Why a text was refused, with the part of it that could not be read.
pub enum Complaint {
    SequenceNumber(Seq<char>),
    TimestampLine(Seq<char>),
    Separator(Seq<char>),
    Clock(Seq<char>),
    Hours(Seq<char>),
    Minutes(Seq<char>),
    Seconds(Seq<char>),
    Fraction(Seq<char>),
    Range(Seq<char>),
}

/// What comes of reading a text: a value, or a refusal with its reason.
pub enum Reading<T> {
    Value(T),
    Refused(Complaint),
}

/// The outcome `r` of a reader is `m`, where `what` says what a value means.
pub open spec fn agrees<T, V>(
    r: Result<T, String>,
    m: Reading<V>,
    what: spec_fn(T) -> V,
) -> bool {
    match r {
        Ok(v) => m == Reading::Value(what(v)),
        Err(e) => m matches Reading::Refused(why) && e@ == message(why),
    }
}

/// What `{:?}` writes for a string: the string in double quotes, with quotes,
/// backslashes and characters that do not print escaped.
pub uninterp spec fn debug_text(s: Seq<char>) -> Seq<char>;

/// Printable ASCII characters, quotes and backslashes aside.
pub open spec fn is_plain(s: Seq<char>) -> bool {
    forall|i: int|
        0 <= i < s.len() ==> ' ' <= #[trigger] s[i] <= '~' && s[i] != '"' && s[i] != '\\'
}

/// `s` in double quotes, with what needs it escaped.
pub open spec fn quoted(s: Seq<char>) -> Seq<char> {
    if is_plain(s) {
        seq!['"'] + s + seq!['"']
    } else {
        debug_text(s)
    }
}

/// The message of a refusal: what was looked for, and the part that was found
/// instead, in quotes.
pub open spec fn message(why: Complaint) -> Seq<char> {
    match why {
        Complaint::SequenceNumber(s) => "Cannot parse sequence number: "@ + quoted(s),
        Complaint::TimestampLine(s) => "Invalid timestamp line: "@ + quoted(s),
        Complaint::Separator(s) => "No millisecond separator in: "@ + quoted(s),
        Complaint::Clock(s) => "Expected HH:MM:SS, got: "@ + quoted(s),
        Complaint::Hours(s) => "Bad hours: "@ + quoted(s),
        Complaint::Minutes(s) => "Bad minutes: "@ + quoted(s),
        Complaint::Seconds(s) => "Bad seconds: "@ + quoted(s),
        Complaint::Fraction(s) => "Bad ms: "@ + quoted(s),
        Complaint::Range(s) => "Time out of range: "@ + quoted(s),
    }
}

/// The 64-bit range.
pub open spec fn fits(x: int) -> bool {
    i64::MIN <= x <= i64::MAX
}

/// The milliseconds of a time, where every step of the sum fits.
pub open spec fn total_ms(h: int, m: int, s: int, ms: int) -> Option<int> {
    let hours = h * 3_600_000;
    let minutes = m * 60_000;
    let seconds = s * 1_000;
    if fits(hours) && fits(minutes) && fits(hours + minutes) && fits(seconds) && fits(
        hours + minutes + seconds,
    ) && fits(hours + minutes + seconds + ms) {
        Some(hours + minutes + seconds + ms)
    } else {
        None
    }
}

/// What a fraction of a second stands for in milliseconds: its first three
/// bytes, with zeros behind them up to three characters. A fraction in which a
/// character reaches across the third byte stands for nothing.
pub open spec fn fraction_reading(frac: Seq<char>) -> Reading<int> {
    match text::first_bytes(frac, 3) {
        None => Reading::Refused(Complaint::Fraction(frac)),
        Some(cut) => match numbers::signed_value(cut + numbers::zeros(3 - cut.len())) {
            Some(ms) => Reading::Value(ms),
            None => Reading::Refused(Complaint::Fraction(frac)),
        },
    }
}

/// What the three fields before the fraction, and the fraction, stand for in
/// the time `t`, which must fit in 64 bits of milliseconds.
pub open spec fn fields_reading(
    t: Seq<char>,
    parts: Seq<Seq<char>>,
    frac: Seq<char>,
) -> Reading<int> {
    match numbers::signed_value(parts[0]) {
        None => Reading::Refused(Complaint::Hours(parts[0])),
        Some(h) => match numbers::signed_value(parts[1]) {
            None => Reading::Refused(Complaint::Minutes(parts[1])),
            Some(m) => match numbers::signed_value(parts[2]) {
                None => Reading::Refused(Complaint::Seconds(parts[2])),
                Some(s) => match fraction_reading(frac) {
                    Reading::Value(ms) => match total_ms(h, m, s, ms) {
                        Some(total) => Reading::Value(total),
                        None => Reading::Refused(Complaint::Range(t)),
                    },
                    other => other,
                },
            },
        },
    }
}

/// What a time such as `HH:MM:SS,mmm` stands for in milliseconds. A full stop
/// serves as well as the comma.
pub open spec fn time_reading(s: Seq<char>) -> Reading<int> {
    let t = text::with_char(s, ',', '.');
    match text::last_position(t, '.') {
        None => Reading::Refused(Complaint::Separator(t)),
        Some(k) => {
            let parts = text::pieces(t.take(k), seq![':']);
            if parts.len() != 3 {
                Reading::Refused(Complaint::Clock(t.take(k)))
            } else {
                fields_reading(t, parts, t.skip(k + 1))
            }
        },
    }
}

/// What a line such as `HH:MM:SS,mmm --> HH:MM:SS,mmm` stands for: when the
/// entry is first and last shown. White space round the arrow is optional.
pub open spec fn timestamp_reading(line: Seq<char>) -> Reading<(int, int)> {
    match text::position_of(line, seq!['-', '-', '>']) {
        None => Reading::Refused(Complaint::TimestampLine(line)),
        Some(i) => match time_reading(text::trimmed(line.take(i))) {
            Reading::Refused(e) => Reading::Refused(e),
            Reading::Value(start) => match time_reading(text::trimmed(line.skip(i + 3))) {
                Reading::Refused(e) => Reading::Refused(e),
                Reading::Value(end) => Reading::Value((start, end)),
            },
        },
    }
}

/// What one block stands for: a number, a timestamp line and lines of text.
/// A block of fewer than three lines stands for no entry.
pub open spec fn block_reading(block: Seq<char>) -> Reading<Option<Cue>> {
    let lines = text::lines_of(block);
    if lines.len() < 3 {
        Reading::Value(None)
    } else {
        match numbers::unsigned_value(text::trimmed(lines[0]), usize::MAX as int) {
            None => Reading::Refused(Complaint::SequenceNumber(lines[0])),
            Some(index) => match timestamp_reading(lines[1]) {
                Reading::Refused(e) => Reading::Refused(e),
                Reading::Value((start, end)) => Reading::Value(
                    Some(
                        Cue {
                            index,
                            start,
                            end,
                            text: text::joined(lines.skip(2), seq!['\n']),
                        },
                    ),
                ),
            },
        }
    }
}

/// What a list of blocks stands for, up to the first that cannot be read.
pub open spec fn blocks_reading(blocks: Seq<Seq<char>>) -> Reading<Seq<Cue>>
    decreases blocks.len(),
{
    if blocks.len() == 0 {
        Reading::Value(Seq::empty())
    } else {
        match block_reading(text::trimmed(blocks[0])) {
            Reading::Refused(e) => Reading::Refused(e),
            Reading::Value(first) => match blocks_reading(blocks.drop_first()) {
                Reading::Refused(e) => Reading::Refused(e),
                Reading::Value(rest) => Reading::Value(
                    match first {
                        Some(cue) => seq![cue] + rest,
                        None => rest,
                    },
                ),
            },
        }
    }
}

/// What a SubRip file stands for: the entries of the blocks that blank lines
/// set apart, be they empty or white space alone.
pub open spec fn srt_reading(content: Seq<char>) -> Reading<Seq<Cue>> {
    blocks_reading(text::pieces(text::cleared(text::unix_text(content)), seq!['\n', '\n']))
}

// ---------------------------------------------------------------------------
// Reading
// ---------------------------------------------------------------------------

/// `<str as Debug>::fmt`, by way of `format!("{:?}", s)`: the quoted and
/// escaped form of `s`, which depends on nothing but `s`. Printable ASCII text
/// without quotes and backslashes is quoted as it stands; which other
/// characters are escaped is left to the standard library.
#[verifier::external_body]
fn debug_string(s: &str) -> (r: String)
    ensures
        r@ == debug_text(s@),
        is_plain(s@) ==> r@ == seq!['"'] + s@ + seq!['"'],
{
    format!("{:?}", s)
}

/// The message `label` with the quoted text `s` behind it.
fn complaint(label: &str, s: &[char]) -> (r: String)
    ensures
        r@ == label@ + quoted(s@),
{
    let quoted: String = debug_string(text::string_of(s).as_str());
    let mut out: String = label.to_owned();
    out.append(quoted.as_str());
    out
}

/// Reads a fraction of a second.
fn read_fraction(frac: &[char]) -> (r: Result<i64, String>)
    ensures
        agrees(r, fraction_reading(frac@), |v: i64| v as int),
{
    match text::cut_bytes(frac, 3) {
        None => Err(complaint("Bad ms: ", frac)),
        Some(cut) => {
            let mut field: Vec<char> = vstd::slice::slice_to_vec(cut);
            proof {
                assert(cut@ + numbers::zeros(0) =~= cut@);
            }
            while field.len() < 3
                invariant
                    field@.len() >= cut@.len(),
                    field@.len() <= 3 || field@.len() == cut@.len(),
                    field@ == cut@ + numbers::zeros(field@.len() - cut@.len()),
                decreases 3 - field@.len(),
            {
                proof {
                    let k = field@.len() - cut@.len();
                    assert(numbers::zeros(k).push('0') =~= numbers::zeros(k + 1));
                }
                field.push('0');
            }
            proof {
                assert(numbers::zeros(field@.len() - cut@.len()) =~= numbers::zeros(
                    3 - cut@.len(),
                ));
            }
            match numbers::parse_i64(field.as_slice()) {
                Some(ms) => Ok(ms),
                None => Err(complaint("Bad ms: ", frac)),
            }
        },
    }
}

/// The milliseconds of a time, where every step of the sum fits.
fn checked_total(h: i64, m: i64, s: i64, ms: i64) -> (r: Option<i64>)
    ensures
        match r {
            Some(v) => total_ms(h as int, m as int, s as int, ms as int) == Some(v as int),
            None => total_ms(h as int, m as int, s as int, ms as int) is None,
        },
{
    match (h.checked_mul(3_600_000), m.checked_mul(60_000), s.checked_mul(1_000)) {
        (Some(hours), Some(minutes), Some(seconds)) => match hours.checked_add(minutes) {
            Some(a) => match a.checked_add(seconds) {
                Some(b) => b.checked_add(ms),
                None => None,
            },
            None => None,
        },
        _ => None,
    }
}

/// Reads a time.
fn read_time(s: &[char]) -> (r: Result<i64, String>)
    ensures
        agrees(r, time_reading(s@), |v: i64| v as int),
{
    let colon: [char; 1] = [':'];
    proof {
        assert(colon@ =~= seq![':']);
    }
    let t: Vec<char> = text::replace_char(s, ',', '.');
    match text::rfind(t.as_slice(), '.') {
        None => Err(complaint("No millisecond separator in: ", t.as_slice())),
        Some(k) => {
            let hms: &[char] = slice_subrange(t.as_slice(), 0, k);
            let frac: &[char] = slice_subrange(t.as_slice(), k + 1, t.len());
            let parts: Vec<Vec<char>> = text::split(hms, colon.as_slice());
            proof {
                assert(hms@ =~= t@.take(k as int));
                assert(frac@ =~= t@.skip(k + 1));
                assert(text::texts(parts@) == text::pieces(t@.take(k as int), seq![':']));
            }
            if parts.len() != 3 {
                return Err(complaint("Expected HH:MM:SS, got: ", hms));
            }
            proof {
                let p = text::texts(parts@);
                assert(p[0] == parts@[0]@ && p[1] == parts@[1]@ && p[2] == parts@[2]@);
            }
            match numbers::parse_i64(parts[0].as_slice()) {
                None => Err(complaint("Bad hours: ", parts[0].as_slice())),
                Some(h) => match numbers::parse_i64(parts[1].as_slice()) {
                    None => Err(complaint("Bad minutes: ", parts[1].as_slice())),
                    Some(m) => match numbers::parse_i64(parts[2].as_slice()) {
                        None => Err(complaint("Bad seconds: ", parts[2].as_slice())),
                        Some(sec) => match read_fraction(frac) {
                            Err(e) => Err(e),
                            Ok(ms) => match checked_total(h, m, sec, ms) {
                                Some(total) => Ok(total),
                                None => Err(complaint("Time out of range: ", t.as_slice())),
                            },
                        },
                    },
                },
            }
        },
    }
}

/// Reads a timestamp line.
fn read_timestamp_line(line: &[char]) -> (r: Result<(i64, i64), String>)
    ensures
        agrees(r, timestamp_reading(line@), |v: (i64, i64)| (v.0 as int, v.1 as int)),
{
    let arrow: [char; 3] = ['-', '-', '>'];
    proof {
        assert(arrow@ =~= seq!['-', '-', '>']);
    }
    match text::find(line, arrow.as_slice()) {
        None => Err(complaint("Invalid timestamp line: ", line)),
        Some(i) => {
            let size: usize = line.len();
            let before: &[char] = slice_subrange(line, 0, i);
            let after: &[char] = slice_subrange(line, i + 3, size);
            proof {
                assert(before@ =~= line@.take(i as int));
                assert(after@ =~= line@.skip(i + 3));
            }
            match read_time(text::trim(before)) {
                Err(e) => Err(e),
                Ok(start) => match read_time(text::trim(after)) {
                    Err(e) => Err(e),
                    Ok(end) => Ok((start, end)),
                },
            }
        },
    }
}

/// What a block's entry says.
pub open spec fn entry_cue(e: Option<SubEntry>) -> Option<Cue> {
    match e {
        Some(entry) => Some(entry@),
        None => None,
    }
}

/// Reads one block.
fn read_block(block: &[char]) -> (r: Result<Option<SubEntry>, String>)
    ensures
        agrees(r, block_reading(block@), |e: Option<SubEntry>| entry_cue(e)),
{
    let newline: [char; 1] = ['\n'];
    proof {
        assert(newline@ =~= seq!['\n']);
    }
    let lines: Vec<Vec<char>> = text::split_lines(block);
    proof {
        assert(text::texts(lines@) == text::lines_of(block@));
    }
    if lines.len() < 3 {
        return Ok(None);
    }
    proof {
        let p = text::texts(lines@);
        assert(p[0] == lines@[0]@ && p[1] == lines@[1]@);
    }
    match numbers::parse_usize(text::trim(lines[0].as_slice())) {
        None => Err(complaint("Cannot parse sequence number: ", lines[0].as_slice())),
        Some(index) => match read_timestamp_line(lines[1].as_slice()) {
            Err(e) => Err(e),
            Ok((start_ms, end_ms)) => {
                let body: Vec<char> = text::join_from(&lines, 2, newline.as_slice());
                let text: String = text::string_of(body.as_slice());
                Ok(Some(SubEntry { index, start_ms, end_ms, text }))
            },
        },
    }
}

/// Parse a SubRip file into a list of [`SubEntry`] values.
///
/// The file consists of blocks separated by blank lines. Each block contains:
/// 1. A sequence number
/// 2. A timestamp line: `HH:MM:SS,mmm --> HH:MM:SS,mmm`
/// 3. One or more lines of subtitle text
pub fn parse_srt(content: &str) -> (r: Result<Vec<SubEntry>, String>)
    ensures
        agrees(r, srt_reading(content@), |v: Vec<SubEntry>| cues(v@)),
{
    let blank: [char; 2] = ['\n', '\n'];
    proof {
        assert(blank@ =~= seq!['\n', '\n']);
    }
    let chars: Vec<char> = text::chars_of(content);
    let unix: Vec<char> = text::to_unix_text(chars.as_slice());
    let clear: Vec<char> = text::clear_blank_lines(unix.as_slice());
    let blocks: Vec<Vec<char>> = text::split(clear.as_slice(), blank.as_slice());
    let ghost all = text::texts(blocks@);
    let mut entries: Vec<SubEntry> = Vec::new();
    let mut i: usize = 0;
    proof {
        assert(all.skip(0) =~= all);
        match blocks_reading(all) {
            Reading::Value(rest) => {
                assert(cues(entries@) + rest =~= rest);
            },
            _ => {},
        }
    }
    while i < blocks.len()
        invariant
            i <= blocks@.len(),
            all == text::texts(blocks@),
            blocks_reading(all) == match blocks_reading(all.skip(i as int)) {
                Reading::Value(rest) => Reading::Value(cues(entries@) + rest),
                other => other,
            },
            blocks_reading(all) == srt_reading(content@),
        decreases blocks@.len() - i,
    {
        let ghost here = all.skip(i as int);
        let ghost before = cues(entries@);
        proof {
            assert(here[0] == blocks@[i as int]@);
            assert(here.drop_first() =~= all.skip(i + 1));
        }
        match read_block(text::trim(blocks[i].as_slice())) {
            Err(e) => {
                return Err(e);
            },
            Ok(None) => {},
            Ok(Some(entry)) => {
                proof {
                    assert(cues(entries@.push(entry)) =~= before.push(entry@));
                    match blocks_reading(here.drop_first()) {
                        Reading::Value(rest) => {
                            assert(before + (seq![entry@] + rest) =~= before.push(entry@) + rest);
                        },
                        _ => {},
                    }
                }
                entries.push(entry);
            },
        }
        i += 1;
    }
    proof {
        assert(cues(entries@) + Seq::<Cue>::empty() =~= cues(entries@));
    }
    Ok(entries)
}

/// Parse a timestamp line of the form `HH:MM:SS,mmm --> HH:MM:SS,mmm`.
/// Handles varied spacing around `-->` (e.g. no spaces, extra spaces, tabs).
pub fn parse_timestamp_line(line: &str) -> (r: Result<(i64, i64), String>)
    ensures
        agrees(r, timestamp_reading(line@), |v: (i64, i64)| (v.0 as int, v.1 as int)),
{
    let chars: Vec<char> = text::chars_of(line);
    read_timestamp_line(chars.as_slice())
}

/// Parse a single time `HH:MM:SS,mmm` into milliseconds.
pub fn parse_srt_time(s: &str) -> (r: Result<i64, String>)
    ensures
        agrees(r, time_reading(s@), |v: i64| v as int),
{
    let chars: Vec<char> = text::chars_of(s);
    read_time(chars.as_slice())
}

// ---------------------------------------------------------------------------
// Writing
// ---------------------------------------------------------------------------

/// `x`, or zero where `x` is negative.
pub open spec fn clamped(x: int) -> int {
    if x < 0 {
        0
    } else {
        x
    }
}

/// The time `HH:MM:SS,mmm` for `ms` milliseconds. A negative time is written
/// as zero.
pub open spec fn time_text(ms: int) -> Seq<char> {
    let t = clamped(ms);
    numbers::padded(t / 3_600_000, 2) + seq![':'] + numbers::padded(t % 3_600_000 / 60_000, 2)
        + seq![':'] + numbers::padded(t % 60_000 / 1_000, 2) + seq![','] + numbers::padded(
        t % 1_000,
        3,
    )
}

/// The timestamp line of an entry.
pub open spec fn timestamp_text(start: int, end: int) -> Seq<char> {
    time_text(start) + seq![' ', '-', '-', '>', ' '] + time_text(end)
}

/// The block that is written for `cue` as entry `number`.
pub open spec fn block_text(number: int, cue: Cue) -> Seq<char> {
    numbers::decimal(number) + seq!['\n'] + timestamp_text(cue.start, cue.end) + seq!['\n'] + cue.text
        + seq!['\n']
}

/// The blocks that are written for `list`, numbered from one.
pub open spec fn block_texts(list: Seq<Cue>) -> Seq<Seq<char>> {
    Seq::new(list.len(), |i: int| block_text(i + 1, list[i]))
}

/// The file that is written for `list`.
pub open spec fn srt_text(list: Seq<Cue>) -> Seq<char> {
    text::joined(block_texts(list), seq!['\n'])
}

/// Appends the time for `ms` to `out`.
fn push_time(out: &mut String, ms: i64)
    ensures
        final(out)@ == old(out)@ + time_text(ms as int),
{
    // Negative times are invalid in a SubRip file.
    let t: u64 = if ms < 0 {
        0
    } else {
        ms as u64
    };
    let h: u64 = t / 3_600_000;
    let m: u64 = t % 3_600_000 / 60_000;
    let s: u64 = t % 60_000 / 1_000;
    let millis: u64 = t % 1_000;
    numbers::push_padded(out, h, 2);
    out.push(':');
    numbers::push_padded(out, m, 2);
    out.push(':');
    numbers::push_padded(out, s, 2);
    out.push(',');
    numbers::push_padded(out, millis, 3);
    proof {
        assert(out@ =~= old(out)@ + time_text(ms as int));
    }
}

/// Format milliseconds back to `HH:MM:SS,mmm`.
pub fn ms_to_srt_time(ms: i64) -> (r: String)
    ensures
        r@ == time_text(ms as int),
{
    let mut out = String::new();
    push_time(&mut out, ms);
    proof {
        text_facts::lemma_nothing_in_front(time_text(ms as int));
    }
    out
}

/// Appends the block for `entry` as entry `number` to `out`.
fn push_block(out: &mut String, number: u64, entry: &SubEntry)
    ensures
        final(out)@ == old(out)@ + block_text(number as int, entry@),
{
    numbers::push_decimal(out, number);
    out.push('\n');
    push_time(out, entry.start_ms);
    out.append(" --> ");
    push_time(out, entry.end_ms);
    out.push('\n');
    out.append(entry.text.as_str());
    out.push('\n');
    proof {
        reveal_strlit(" --> ");
        assert(" --> "@ =~= seq![' ', '-', '-', '>', ' ']);
        assert(out@ =~= old(out)@ + block_text(number as int, entry@));
    }
}

/// Serialise a list of entries to SubRip format.
pub fn write_srt(entries: &[SubEntry]) -> (r: String)
    ensures
        r@ == srt_text(cues(entries@)),
{
    let ghost all = block_texts(cues(entries@));
    let mut out = String::new();
    let mut i: usize = 0;
    while i < entries.len()
        invariant
            i <= entries@.len(),
            all == block_texts(cues(entries@)),
            out@ == text::joined(all.take(i as int), seq!['\n']),
        decreases entries@.len() - i,
    {
        proof {
            text_facts::lemma_joined_push(all.take(i as int), seq!['\n'], all[i as int]);
            assert(all.take(i as int).push(all[i as int]) =~= all.take(i + 1));
        }
        let ghost before = out@;
        if i > 0 {
            out.push('\n');
        }
        push_block(&mut out, i as u64 + 1, &entries[i]);
        proof {
            assert(all[i as int] == block_text(i + 1, entries@[i as int]@));
            assert(out@ =~= text::joined(all.take(i + 1), seq!['\n']));
        }
        i += 1;
    }
    proof {
        assert(all.take(all.len() as int) =~= all);
    }
    out
}

// ---------------------------------------------------------------------------
// Shifting
// ---------------------------------------------------------------------------

/// `cue` moved by `offset` milliseconds, and no further back than zero.
pub open spec fn shifted_cue(cue: Cue, offset: int) -> Cue {
    Cue { start: clamped(cue.start + offset), end: clamped(cue.end + offset), ..cue }
}

/// `list` moved by `offset` milliseconds.
pub open spec fn shifted(list: Seq<Cue>, offset: int) -> Seq<Cue> {
    list.map_values(|c: Cue| shifted_cue(c, offset))
}

/// Every time of `list` moved by `offset` fits in 64 bits.
pub open spec fn shift_fits(list: Seq<Cue>, offset: int) -> bool {
    forall|i: int|
        0 <= i < list.len() ==> fits((#[trigger] list[i]).start + offset) && fits(
            list[i].end + offset,
        )
}

/// Apply a constant offset (in milliseconds) to all entries, clamping to 0.
pub fn apply_offset(entries: &[SubEntry], offset_ms: i64) -> (r: Vec<SubEntry>)
    requires
        shift_fits(cues(entries@), offset_ms as int),
    ensures
        cues(r@) == shifted(cues(entries@), offset_ms as int),
{
    let ghost all = shifted(cues(entries@), offset_ms as int);
    let mut out: Vec<SubEntry> = Vec::new();
    let mut i: usize = 0;
    while i < entries.len()
        invariant
            i <= entries@.len(),
            all == shifted(cues(entries@), offset_ms as int),
            shift_fits(cues(entries@), offset_ms as int),
            cues(out@) == all.take(i as int),
        decreases entries@.len() - i,
    {
        let e: &SubEntry = &entries[i];
        proof {
            assert(cues(entries@)[i as int] == e@);
        }
        let start: i64 = e.start_ms + offset_ms;
        let end: i64 = e.end_ms + offset_ms;
        let moved = SubEntry {
            index: e.index,
            start_ms: if start < 0 {
                0
            } else {
                start
            },
            end_ms: if end < 0 {
                0
            } else {
                end
            },
            text: e.text.clone(),
        };
        proof {
            assert(moved@ =~= all[i as int]);
            assert(cues(out@.push(moved)) =~= cues(out@).push(moved@));
            assert(all.take(i + 1) =~= all.take(i as int).push(all[i as int]));
        }
        out.push(moved);
        i += 1;
    }
    proof {
        assert(all.take(all.len() as int) =~= all);
    }
    out
}

} // verus!
