use chronosub::signal::entries_to_expected_signal;
use chronosub::subtitle::{
    apply_offset, ms_to_srt_time, parse_srt, parse_srt_time, parse_timestamp_line, write_srt, SubEntry,
};

const SAMPLE_SRT: &str = "\
1
00:00:01,500 --> 00:00:04,000
Hello, world!

2
00:00:05,000 --> 00:00:07,500
How are you?
";

fn entry(index: usize, start_ms: i64, end_ms: i64, text: &str) -> SubEntry {
    SubEntry { index, start_ms, end_ms, text: text.to_string() }
}

fn parts(e: &SubEntry) -> (usize, i64, i64, &str) {
    (e.index, e.start_ms, e.end_ms, e.text.as_str())
}

#[test]
fn test_parse_srt() {
    let entries = parse_srt(SAMPLE_SRT).unwrap();
    assert_eq!(entries.len(), 2);
    assert_eq!(entries[0].start_ms, 1_500);
    assert_eq!(entries[0].end_ms, 4_000);
    assert_eq!(entries[0].text, "Hello, world!");
    assert_eq!(entries[1].start_ms, 5_000);
    assert_eq!(entries[1].end_ms, 7_500);
}

#[test]
fn test_apply_offset_positive() {
    let entries = parse_srt(SAMPLE_SRT).unwrap();
    let shifted = apply_offset(&entries, 2_000);
    assert_eq!(shifted[0].start_ms, 3_500);
    assert_eq!(shifted[0].end_ms, 6_000);
}

#[test]
fn test_apply_offset_negative_clamp() {
    let entries = parse_srt(SAMPLE_SRT).unwrap();
    // Shifting by -10s should clamp first entry to 0
    let shifted = apply_offset(&entries, -10_000);
    assert_eq!(shifted[0].start_ms, 0);
    assert_eq!(shifted[0].end_ms, 0);
}

#[test]
fn test_roundtrip() {
    let entries = parse_srt(SAMPLE_SRT).unwrap();
    let out = write_srt(&entries);
    let re_parsed = parse_srt(&out).unwrap();
    assert_eq!(re_parsed.len(), entries.len());
    for (a, b) in entries.iter().zip(re_parsed.iter()) {
        assert_eq!(a.start_ms, b.start_ms);
        assert_eq!(a.end_ms, b.end_ms);
    }
}

#[test]
fn test_parse_timestamp_line_flexible_arrow() {
    // SRTs in the wild use varying spacing around -->
    let variants = [
        "00:00:01,500 --> 00:00:04,000",  // standard
        "00:00:01,500-->00:00:04,000",    // no spaces
        "00:00:01,500  -->  00:00:04,000", // extra spaces
    ];
    for v in &variants {
        let (start, end) = parse_timestamp_line(v)
            .unwrap_or_else(|e| panic!("Failed on {:?}: {}", v, e));
        assert_eq!(start, 1_500, "start mismatch for {:?}", v);
        assert_eq!(end, 4_000, "end mismatch for {:?}", v);
    }
}

#[test]
fn test_ms_to_srt_time() {
    assert_eq!(ms_to_srt_time(0), "00:00:00,000");
    assert_eq!(ms_to_srt_time(3_661_001), "01:01:01,001");
    assert_eq!(ms_to_srt_time(-500), "00:00:00,000"); // clamp
}

#[test]
fn test_expected_signal() {
    let entries = parse_srt(SAMPLE_SRT).unwrap();
    // 100 Hz → 10 ms per sample; 10 seconds = 1000 samples
    let signal: Vec<f32> = entries_to_expected_signal(&entries, 1000, 100)
        .into_iter()
        .map(|set| if set { 1.0 } else { 0.0 })
        .collect();
    // entry 1: 1500ms -> 4000ms  =  indices 150..400
    assert_eq!(signal[149], 0.0);
    assert_eq!(signal[150], 1.0);
    assert_eq!(signal[399], 1.0);
    assert_eq!(signal[400], 0.0);
}

#[test]
fn numbers_and_texts_are_read() {
    let entries = parse_srt(SAMPLE_SRT).unwrap();
    assert_eq!(parts(&entries[0]), (1, 1_500, 4_000, "Hello, world!"));
    assert_eq!(parts(&entries[1]), (2, 5_000, 7_500, "How are you?"));
}

#[test]
fn text_of_several_lines() {
    let entries = parse_srt("7\n00:00:00,000 --> 00:00:01,000\none\n  two\nthree").unwrap();
    assert_eq!(parts(&entries[0]), (7, 0, 1_000, "one\n  two\nthree"));
}

#[test]
fn empty_files_have_no_entries() {
    assert_eq!(parse_srt("").unwrap().len(), 0);
    assert_eq!(parse_srt("\n\n \t\n\n\r\n").unwrap().len(), 0);
}

#[test]
fn short_blocks_are_passed_over() {
    let content = "note\n\n1\n00:00:00,000 --> 00:00:01,000\n\nbad\nnumber\n\n\
                   2\n00:00:02,000 --> 00:00:03,000\ntext\n";
    let entries = parse_srt(content).unwrap();
    assert_eq!(entries.len(), 1);
    assert_eq!(parts(&entries[0]), (2, 2_000, 3_000, "text"));
}

#[test]
fn runs_of_blank_lines_are_one_break() {
    let content = "\n\n\n1\n0:0:0,0 --> 0:0:1,0\na\n\n\n\n\n2\n0:0:2,0 --> 0:0:3,0\nb\n\n\n";
    let entries = parse_srt(content).unwrap();
    assert_eq!(entries.len(), 2);
    assert_eq!(parts(&entries[0]), (1, 0, 1_000, "a"));
    assert_eq!(parts(&entries[1]), (2, 2_000, 3_000, "b"));
}

#[test]
fn line_ends_of_either_kind() {
    let dos = SAMPLE_SRT.replace('\n', "\r\n");
    let a = parse_srt(SAMPLE_SRT).unwrap();
    let b = parse_srt(&dos).unwrap();
    assert_eq!(a.len(), b.len());
    for (x, y) in a.iter().zip(b.iter()) {
        assert_eq!(parts(x), parts(y));
    }
}

#[test]
fn blank_lines_of_white_space() {
    let content = "1\n00:00:01,000 --> 00:00:02,000\nA\n \n2\n00:00:03,000 --> 00:00:04,000\nB\n";
    let entries = parse_srt(content).unwrap();
    assert_eq!(entries.len(), 2);
    assert_eq!(parts(&entries[0]), (1, 1_000, 2_000, "A"));
    assert_eq!(parts(&entries[1]), (2, 3_000, 4_000, "B"));
    for blank in ["", " ", "\t", "\u{3000} ", "\r", "\r\r", " \n", "\n \r\n\t"] {
        let content = format!("\t\n1\n0:0:1,0 --> 0:0:2,0\nA\n{blank}\n2\n0:0:3,0 --> 0:0:4,0\nB\n \n");
        let entries = parse_srt(&content).unwrap();
        assert_eq!(entries.len(), 2, "{:?}", blank);
        assert_eq!(parts(&entries[0]), (1, 1_000, 2_000, "A"));
        assert_eq!(parts(&entries[1]), (2, 3_000, 4_000, "B"));
    }
    // Characters that only look like nothing make no blank line.
    let entries = parse_srt("1\n0:0:1,0 --> 0:0:2,0\nA\n\u{200b}\nB").unwrap();
    assert_eq!(parts(&entries[0]), (1, 1_000, 2_000, "A\n\u{200b}\nB"));
}

#[test]
fn carriage_returns_before_a_line_feed() {
    let entries = parse_srt("1\n0:0:0,0 --> 0:0:1,0\na\r\r\nb").unwrap();
    assert_eq!(parts(&entries[0]), (1, 0, 1_000, "a\nb"));
    assert_eq!(parse_srt(&write_srt(&entries)).unwrap()[0].text, "a\nb");
    // One too many is left in the text, and is lost when it is read again.
    let entries = parse_srt("1\n0:0:0,0 --> 0:0:1,0\na\r\r\r\nb").unwrap();
    assert_eq!(parts(&entries[0]), (1, 0, 1_000, "a\r\nb"));
    assert_eq!(parse_srt(&write_srt(&entries)).unwrap()[0].text, "a\nb");
}

#[test]
fn files_side_by_side() {
    let a = "1\n0:0:0,0 --> 0:0:1,0\na";
    let b = "5\n0:0:2,0 --> 0:0:3,0\nb";
    for (x, y) in [
        (a.to_string(), b.to_string()),
        (format!("{a}\n"), format!("\n{b}")),
        (format!("{a}\r"), format!("\r\n{b}")),
        (a.replace('\n', "\r\n"), format!("\n\n{b}\n")),
    ] {
        let first = parse_srt(&x).unwrap();
        let second = parse_srt(&y).unwrap();
        for blank in ["", " ", "\t\r", "\n"] {
            let both = parse_srt(&format!("{x}\n{blank}\n{y}")).unwrap();
            assert_eq!(both.len(), 2);
            assert_eq!(parts(&both[0]), parts(&first[0]));
            assert_eq!(parts(&both[1]), parts(&second[0]));
        }
    }
}

#[test]
fn the_first_complaint_counts() {
    let bad_number = "x\n0:0:0,0 --> 0:0:1,0\na";
    let bad_line = "1\nno arrow\na";
    let good = "1\n0:0:0,0 --> 0:0:1,0\na";
    let e = parse_srt(&format!("{good}\n\n{bad_line}\n\n{bad_number}")).unwrap_err();
    assert_eq!(e, "Invalid timestamp line: \"no arrow\"");
    let e = parse_srt(&format!("{good}\n\n{bad_number}\n\n{bad_line}")).unwrap_err();
    assert_eq!(e, "Cannot parse sequence number: \"x\"");
}

#[test]
fn sequence_numbers() {
    let with = |n: &str| parse_srt(&format!("{n}\n0:0:0,0 --> 0:0:1,0\na"));
    assert_eq!(with("+12").unwrap()[0].index, 12);
    assert_eq!(with("007\t").unwrap()[0].index, 7);
    assert_eq!(with("18446744073709551615").unwrap()[0].index, usize::MAX);
    assert_eq!(
        with("18446744073709551616").unwrap_err(),
        "Cannot parse sequence number: \"18446744073709551616\""
    );
    assert_eq!(with("-1").unwrap_err(), "Cannot parse sequence number: \"-1\"");
    assert_eq!(with("1 2").unwrap_err(), "Cannot parse sequence number: \"1 2\"");
    // The line is quoted as it stands, with its white space and its quotes.
    assert_eq!(with("\"1\"\t").unwrap_err(), "Cannot parse sequence number: \"\\\"1\\\"\\t\"");
}

#[test]
fn every_complaint_about_a_time() {
    let e = |s: &str| parse_srt_time(s).unwrap_err();
    assert_eq!(e("00:00:01"), "No millisecond separator in: \"00:00:01\"");
    assert_eq!(e(""), "No millisecond separator in: \"\"");
    assert_eq!(e("00:01,000"), "Expected HH:MM:SS, got: \"00:01\"");
    assert_eq!(e("0:0:0:0,000"), "Expected HH:MM:SS, got: \"0:0:0:0\"");
    assert_eq!(e("xx:00:01,000"), "Bad hours: \"xx\"");
    assert_eq!(e(":00:01,000"), "Bad hours: \"\"");
    assert_eq!(e("00:0 0:01,000"), "Bad minutes: \"0 0\"");
    assert_eq!(e("00:00:1s,000"), "Bad seconds: \"1s\"");
    assert_eq!(e("00:00:1,5,000"), "Bad seconds: \"1.5\"");
    assert_eq!(e("00:00:01,abcd"), "Bad ms: \"abcd\"");
    assert_eq!(e("00:00:01,é"), "Bad ms: \"é\"");
    assert_eq!(e("a\\b:\u{1}"), "No millisecond separator in: \"a\\\\b:\\u{1}\"");
}

#[test]
fn every_complaint_about_a_timestamp_line() {
    let e = |s: &str| parse_timestamp_line(s).unwrap_err();
    assert_eq!(
        e("00:00:01,500 -> 00:00:04,000"),
        "Invalid timestamp line: \"00:00:01,500 -> 00:00:04,000\""
    );
    assert_eq!(e("x --> y"), "No millisecond separator in: \"x\"");
    assert_eq!(e("0:0:1,0 --> y"), "No millisecond separator in: \"y\"");
    // The first arrow is the one that counts.
    assert_eq!(
        e("0:0:1,0 --> 0:0:2,0 --> 0:0:3,0"),
        "Expected HH:MM:SS, got: \"0:0:2.0 --> 0:0:3\""
    );
}

#[test]
fn fractions_of_a_second() {
    let ms = |s: &str| parse_srt_time(s).unwrap();
    assert_eq!(ms("0:0:0,5"), 500);
    assert_eq!(ms("0:0:0,05"), 50);
    assert_eq!(ms("0:0:0,123456"), 123);
    assert_eq!(ms("0:0:0,"), 0);
    assert_eq!(ms("0:0:0,+5"), 50);
    assert_eq!(ms("0:0:1,-50"), 950);
    assert_eq!(ms("0:0:0.250"), 250);
    // Bytes beyond the third are not looked at, whatever they are.
    assert_eq!(ms("0:0:0,123é"), 123);
    assert_eq!(parse_srt_time("0:0:0,1é").unwrap_err(), "Bad ms: \"1é\"");
}

#[test]
fn signs_in_a_time() {
    assert_eq!(parse_srt_time("-1:00:00,000").unwrap(), -3_600_000);
    assert_eq!(parse_srt_time("+1:-1:+1,000").unwrap(), 3_541_000);
    assert_eq!(parse_srt_time("99:99:99,999").unwrap(), 362_439_999);
}

#[test]
fn times_out_of_range() {
    let e = |s: &str| parse_srt_time(s).unwrap_err();
    for time in [
        "9223372036854775807:00:00.000",
        "0:9223372036854775807:0.000",
        "0:0:9223372036854775807.0",
        "2562047788015:12:55.808",
    ] {
        assert_eq!(e(time), format!("Time out of range: \"{time}\""));
    }
    assert_eq!(parse_srt_time("2562047788015:12:55,807"), Ok(i64::MAX));
    assert_eq!(e("9223372036854775808:0:0,0"), "Bad hours: \"9223372036854775808\"");
    let e = parse_srt("1\n9223372036854775807:0:0,0 --> 0:0:1,0\na").unwrap_err();
    assert_eq!(e, "Time out of range: \"9223372036854775807:0:0.0\"");
}

#[test]
fn fractions_cut_inside_a_character() {
    let e = |s: &str| parse_srt_time(s).unwrap_err();
    assert_eq!(e("00:00:00,éé"), "Bad ms: \"éé\"");
    assert_eq!(e("0:0:0,12é"), "Bad ms: \"12é\"");
    assert_eq!(e("0:0:0,🎬"), "Bad ms: \"🎬\"");
    assert_eq!(parse_timestamp_line("0:0:1,0 --> 0:0:0,12é").unwrap_err(), "Bad ms: \"12é\"");
    assert_eq!(parse_srt("1\n0:0:0,12é --> 0:0:1,0\na").unwrap_err(), "Bad ms: \"12é\"");
}

#[test]
fn comma_or_full_stop() {
    for (a, b) in [("01:02:03,004", "01:02:03.004"), ("1,2:3:4,5", "1.2:3:4.5"), ("x,", "x.")] {
        assert_eq!(parse_srt_time(a), parse_srt_time(b));
    }
}

#[test]
fn spacing_round_the_arrow() {
    let want = parse_timestamp_line("00:00:01,500-->00:00:04,000").unwrap();
    for line in [
        "00:00:01,500\t-->\t00:00:04,000",
        "00:00:01,500\u{3000}-->\u{a0}\u{2009}00:00:04,000",
        "  00:00:01,500 --> 00:00:04,000  ",
    ] {
        assert_eq!(parse_timestamp_line(line).unwrap(), want);
    }
}

#[test]
fn times_come_back() {
    for ms in [0, 1, 999, 1_000, 59_999, 60_000, 3_599_999, 3_600_000, 360_000_000, i64::MAX] {
        assert_eq!(parse_srt_time(&ms_to_srt_time(ms)).unwrap(), ms);
    }
    assert_eq!(parse_srt_time(&ms_to_srt_time(i64::MIN)).unwrap(), 0);
    assert_eq!(ms_to_srt_time(359_999_999), "99:59:59,999");
    assert_eq!(ms_to_srt_time(360_000_000), "100:00:00,000");
    assert_eq!(ms_to_srt_time(i64::MAX), "2562047788015:12:55,807");
}

#[test]
fn timestamp_lines_come_back() {
    let line = format!("{} --> {}", ms_to_srt_time(61_001), ms_to_srt_time(-5));
    assert_eq!(line, "00:01:01,001 --> 00:00:00,000");
    assert_eq!(parse_timestamp_line(&line).unwrap(), (61_001, 0));
}

#[test]
fn written_file() {
    let entries = [entry(9, 1_500, 4_000, "Hello"), entry(4, -1, 3_600_000, "a\nb")];
    assert_eq!(
        write_srt(&entries),
        "1\n00:00:01,500 --> 00:00:04,000\nHello\n\n2\n00:00:00,000 --> 01:00:00,000\na\nb\n"
    );
    assert_eq!(write_srt(&[]), "");
}

#[test]
fn entries_come_back() {
    let mut entries = Vec::new();
    for i in 0..12usize {
        let at = i as i64 * 1_234;
        entries.push(entry(100 - i, at, at + 999, &format!("  line {i}\nand more\u{2026}")));
    }
    let again = parse_srt(&write_srt(&entries)).unwrap();
    assert_eq!(again.len(), entries.len());
    for (i, (a, b)) in entries.iter().zip(again.iter()).enumerate() {
        assert_eq!(b.index, i + 1);
        assert_eq!((a.start_ms, a.end_ms), (b.start_ms, b.end_ms));
        assert_eq!(a.text, b.text);
    }
    assert_eq!(parse_srt(&write_srt(&[])).unwrap().len(), 0);
}

#[test]
fn entries_that_do_not_come_back() {
    // An empty text leaves a block of two lines.
    assert_eq!(parse_srt(&write_srt(&[entry(1, 0, 1, "")])).unwrap().len(), 0);
    // A blank line breaks the block.
    let again = parse_srt(&write_srt(&[entry(1, 0, 1, "a\n\nb")])).unwrap();
    assert_eq!(again.len(), 1);
    assert_eq!(again[0].text, "a");
    // White space at the end is lost.
    assert_eq!(parse_srt(&write_srt(&[entry(1, 0, 1, "a \n")])).unwrap()[0].text, "a");
}

#[test]
fn what_was_read_is_written_and_read_again() {
    let content = "\u{20}3\r\n00:00:01.5-->00:00:02\u{2c}25 \r\n first\r\nsecond \r\n\r\n\r\n8\n-0:0:1,0 --> 0:0:9,0\nx\ry";
    let read = parse_srt(content).unwrap();
    assert_eq!(parts(&read[0]), (3, 1_500, 2_250, " first\nsecond"));
    assert_eq!(parts(&read[1]), (8, 1_000, 9_000, "x\ry"));
    let again = parse_srt(&write_srt(&read)).unwrap();
    assert_eq!(again.len(), 2);
    assert_eq!(parts(&again[0]), (1, 1_500, 2_250, " first\nsecond"));
    assert_eq!(parts(&again[1]), (2, 1_000, 9_000, "x\ry"));
}

#[test]
fn shifting() {
    let list = vec![entry(4, 1_000, 2_500, "a"), entry(9, 3_000, 4_000, "b")];
    let shown = |v: &[SubEntry]| -> Vec<(usize, i64, i64, String)> {
        v.iter().map(|e| (e.index, e.start_ms, e.end_ms, e.text.clone())).collect()
    };
    let moved = apply_offset(&list, -2_000);
    assert_eq!(
        shown(&moved),
        vec![(4, 0, 500, "a".to_string()), (9, 1_000, 2_000, "b".to_string())]
    );
    // By zero, and there and back.
    assert_eq!(shown(&apply_offset(&list, 0)), shown(&list));
    assert_eq!(shown(&apply_offset(&apply_offset(&list, 700), -700)), shown(&list));
    assert_eq!(shown(&apply_offset(&apply_offset(&list, -1_000), 1_000)), shown(&list));
    assert_ne!(shown(&apply_offset(&moved, 2_000)), shown(&list));
    // Twice, once.
    for (a, b) in [(500, -200), (-900, 100), (-2_000, -500), (-9_000, 0)] {
        assert_eq!(
            shown(&apply_offset(&apply_offset(&list, a), b)),
            shown(&apply_offset(&list, a + b))
        );
    }
    // The order and the time on screen.
    for offset in [-5_000, -1_500, 0, 1_500] {
        let m = apply_offset(&list, offset);
        assert!(m[0].start_ms <= m[1].start_ms && m[0].end_ms <= m[1].end_ms);
        for (x, y) in list.iter().zip(m.iter()) {
            assert!(y.end_ms - y.start_ms <= x.end_ms - x.start_ms);
            assert!(y.start_ms >= 0 && y.start_ms <= y.end_ms);
            if x.start_ms + offset >= 0 {
                assert_eq!(y.end_ms - y.start_ms, x.end_ms - x.start_ms);
            }
        }
    }
    assert_eq!(apply_offset(&[entry(1, 0, i64::MAX, "z")], i64::MIN)[0].end_ms, 0);
}

#[test]
fn samples_of_a_signal() {
    // Shown at time 0, the time of sample 0, and over at 10 ms.
    assert_eq!(entries_to_expected_signal(&[entry(1, 0, 5, "a")], 2, 100), vec![true, false]);
    assert_eq!(entries_to_expected_signal(&[entry(1, 0, 10, "a")], 2, 100), vec![true, false]);
    assert_eq!(entries_to_expected_signal(&[entry(1, 0, 11, "a")], 2, 100), vec![true, true]);
    let signal = entries_to_expected_signal(&[entry(1, 14, 41, "a")], 6, 100);
    assert_eq!(signal, vec![false, false, true, true, true, false]);
    for i in 0..6i64 {
        assert_eq!(signal[i as usize], 14 * 100 <= 1_000 * i && 1_000 * i < 41 * 100);
    }
    // At 30 samples a second.
    let signal = entries_to_expected_signal(&[entry(1, 33, 67, "a")], 4, 30);
    assert_eq!(signal, vec![false, true, true, false]);
    let overlap = entries_to_expected_signal(&[entry(1, 0, 20, "a"), entry(2, 10, 30, "b")], 4, 100);
    assert_eq!(overlap, vec![true, true, true, false]);
    // Times before zero, entries that end before they start, and entries beyond the end.
    assert_eq!(entries_to_expected_signal(&[entry(1, -500, 10, "a")], 3, 100), vec![true, false, false]);
    assert_eq!(entries_to_expected_signal(&[entry(1, -500, -10, "a")], 2, 100), vec![false, false]);
    assert_eq!(entries_to_expected_signal(&[entry(1, -500, 0, "a")], 2, 100), vec![false, false]);
    assert_eq!(entries_to_expected_signal(&[entry(1, 20, 10, "a")], 3, 100), vec![false, false, false]);
    assert_eq!(entries_to_expected_signal(&[entry(1, 20, i64::MAX, "a")], 3, 100), vec![false, false, true]);
    assert_eq!(entries_to_expected_signal(&[], 2, 100), vec![false, false]);
    assert_eq!(entries_to_expected_signal(&[entry(1, 0, 1_000, "a")], 0, 100), Vec::<bool>::new());
    assert_eq!(entries_to_expected_signal(&[entry(1, 0, 1_000, "a")], 2, 0), vec![false, false]);
}

#[test]
fn a_moved_signal() {
    let list = [entry(1, 130, 255, "a"), entry(2, 400, 410, "b")];
    let before = entries_to_expected_signal(&list, 60, 100);
    let after = entries_to_expected_signal(&apply_offset(&list, 70), 60, 100);
    for i in 0..53 {
        assert_eq!(after[i + 7], before[i]);
    }
    // What is moved beyond the start is cut off, and the rest is in place.
    let after = entries_to_expected_signal(&apply_offset(&list, -200), 60, 100);
    for i in 20..60 {
        assert_eq!(after[i - 20], before[i]);
    }
}
