use chronosub::numbers::{parse_i64, parse_u64, parse_usize, push_decimal, push_padded};
use chronosub::text;

fn chars(s: &str) -> Vec<char> {
    text::chars_of(s)
}

fn string(v: &[char]) -> String {
    text::string_of(v)
}

fn strings(v: Vec<Vec<char>>) -> Vec<String> {
    v.iter().map(|p| string(p)).collect()
}

const TEXTS: [&str; 16] = [
    "",
    "a",
    "\n",
    "\r\n",
    "a\nb",
    "a\r\nb\r\n",
    "a\n\nb\n\n\nc",
    "\r\r\n\n",
    " \t x y \u{3000}",
    "--->-->",
    "aaaa",
    "é🎬é",
    "v1.2.3",
    "a/b//c/",
    "\u{85}\u{200b}z\u{2028}",
    "x\r",
];

#[test]
fn strings_and_characters() {
    for s in TEXTS {
        assert_eq!(chars(s), s.chars().collect::<Vec<char>>());
        assert_eq!(string(&chars(s)), s);
        assert_eq!(text::concat(s, "tail\u{2026}"), format!("{s}tail\u{2026}"));
        for t in TEXTS {
            assert_eq!(text::same(s, t), s == t);
        }
    }
}

#[test]
fn white_space() {
    for n in 0..=0x10ffffu32 {
        if let Some(c) = char::from_u32(n) {
            assert_eq!(text::is_white(c), c.is_whitespace(), "{:?}", c);
        }
    }
    for s in TEXTS {
        assert_eq!(string(text::trim(&chars(s))), s.trim());
    }
}

#[test]
fn runs_of_a_character() {
    for s in ["vvv1", "1v", "v", "", "a//", "//", "/a/b"] {
        assert_eq!(string(text::trim_leading(&chars(s), 'v')), s.trim_start_matches('v'));
        assert_eq!(string(text::trim_trailing(&chars(s), '/')), s.trim_end_matches('/'));
    }
}

#[test]
fn searching() {
    for s in TEXTS {
        for pat in ["-->", "a", "\n\n", "aa", "xyz", "\r\n", "é"] {
            let at = s.find(pat).map(|b| s[..b].chars().count());
            assert_eq!(text::find(&chars(s), &chars(pat)), at, "{:?} in {:?}", pat, s);
            assert_eq!(text::contains(&chars(s), &chars(pat)), s.contains(pat));
            assert_eq!(text::stands_at(&chars(s), &chars(pat), 0), s.starts_with(pat));
        }
        for c in ['a', '\n', '.', 'é'] {
            let at = s.rfind(c).map(|b| s[..b].chars().count());
            assert_eq!(text::rfind(&chars(s), c), at);
        }
    }
}

#[test]
fn splitting_and_joining() {
    for s in TEXTS {
        for sep in ["\n\n", "/", ".", "aa", "-->", "\r\n"] {
            let want: Vec<String> = s.split(sep).map(str::to_string).collect();
            let got = text::split(&chars(s), &chars(sep));
            assert_eq!(string(&text::join_from(&got, 0, &chars(sep))), s);
            assert_eq!(strings(got), want);
        }
        let lines: Vec<String> = s.lines().map(str::to_string).collect();
        assert_eq!(strings(text::split_lines(&chars(s))), lines, "{:?}", s);
        assert_eq!(string(&text::to_unix_text(&chars(s))), s.replace("\r\n", "\n"));
        assert_eq!(string(&text::replace_char(&chars(s), 'a', '.')), s.replace('a', "."));
        let cleared: Vec<&str> =
            s.split('\n').map(|line| if line.trim().is_empty() { "" } else { line }).collect();
        assert_eq!(string(&text::clear_blank_lines(&chars(s))), cleared.join("\n"));
        assert_eq!(text::is_blank(&chars(s)), s.trim().is_empty());
    }
    assert_eq!(string(&text::clear_blank_lines(&chars(" \t\na \n\r\n  b\n "))), "\na \n\n  b\n");
    let parts = vec![chars("a"), chars("b"), chars("c")];
    assert_eq!(string(&text::join_from(&parts, 1, &chars(", "))), "b, c");
    assert_eq!(string(&text::join_from(&parts, 3, &chars(", "))), "");
}

#[test]
fn bytes() {
    for c in ['a', '\u{7f}', '\u{80}', '\u{7ff}', '\u{800}', '\u{ffff}', '\u{10000}', '🎬'] {
        assert_eq!(text::width(c), c.len_utf8());
    }
    for s in TEXTS {
        for n in 0..8usize {
            let want = s.get(..n.min(s.len())).map(str::to_string);
            assert_eq!(text::cut_bytes(&chars(s), n).map(string), want, "{:?} at {}", s, n);
        }
    }
}

const NUMBERS: [&str; 24] = [
    "", "+", "-", "0", "+0", "-0", "7", "007", "+12", "-12", "--1", "+-1", "1 ", " 1", "1_0", "1.0",
    "٣", "9223372036854775807", "9223372036854775808", "-9223372036854775808",
    "-9223372036854775809", "18446744073709551615", "18446744073709551616", "99999999999999999999999",
];

#[test]
fn numbers_are_read() {
    for s in NUMBERS {
        assert_eq!(parse_u64(&chars(s)), s.parse::<u64>().ok(), "{:?}", s);
        assert_eq!(parse_usize(&chars(s)), s.parse::<usize>().ok(), "{:?}", s);
        assert_eq!(parse_i64(&chars(s)), s.parse::<i64>().ok(), "{:?}", s);
    }
}

#[test]
fn numbers_are_written() {
    for n in [0u64, 5, 9, 10, 99, 100, 1_234, u64::MAX] {
        let mut s = "n=".to_string();
        push_decimal(&mut s, n);
        assert_eq!(s, format!("n={n}"));
        for w in 0..6usize {
            let mut t = String::new();
            push_padded(&mut t, n, w);
            assert_eq!(t, format!("{:0w$}", n, w = w));
        }
    }
}
