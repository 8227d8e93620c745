use git_status::cli::{has_flag, interval_ms, interval_text, run_mode, RunMode};
use git_status::text::{
    before_first, find, is_white, join_with, lines_of, parse_i32, parse_u32, push_decimal,
    split_on, split_once, starts_with, strip_prefix, trim, trim_end, trim_end_matches, trim_start,
};

const SAMPLES: [&str; 12] = [
    "",
    " ",
    "a",
    " a b ",
    "\u{a0}x\u{2009}",
    "a\nb\n",
    "a\r\nb\r",
    "\n\n",
    "...a...b",
    "[]]",
    "é, ü,",
    "=x==",
];

#[test]
fn white_space_is_the_unicode_property() {
    for n in 0..=0x10ffff_u32 {
        if let Some(c) = char::from_u32(n) {
            assert_eq!(is_white(c), c.is_whitespace(), "{n:x}");
        }
    }
}

#[test]
fn primitives_agree_with_the_standard_library() {
    for s in SAMPLES {
        assert_eq!(trim(s), s.trim());
        assert_eq!(trim_start(s), s.trim_start());
        assert_eq!(trim_end(s), s.trim_end());
        assert_eq!(trim_end_matches(s, ']'), s.trim_end_matches(']'));
        assert_eq!(lines_of(s), s.lines().collect::<Vec<_>>());
        for c in ['\n', ',', ' '] {
            let parts = split_on(s, c);
            assert_eq!(parts, s.split(c).collect::<Vec<_>>());
            assert_eq!(join_with(&parts, &c.to_string()), s);
        }
        for p in ["", "a", "...", "=", " b", "é,"] {
            assert_eq!(starts_with(s, p), s.starts_with(p));
            assert_eq!(strip_prefix(s, p), s.strip_prefix(p));
            assert_eq!(split_once(s, p), s.split_once(p));
            assert_eq!(find(s, p).is_some(), s.find(p).is_some());
        }
        assert_eq!(before_first(s, "..."), s.split("...").next().unwrap());
    }
}

#[test]
fn numbers_read_as_the_standard_library_reads_them() {
    for s in [
        "", "+", "-", "0", "-0", "+7", "--1", "+-1", "007", "12a", " 1", "1 ", "٣",
        "4294967295", "4294967296", "00000000000000000000042", "99999999999999999999999",
        "2147483647", "2147483648", "-2147483648", "-2147483649",
    ] {
        assert_eq!(parse_u32(s), s.parse::<u32>().ok(), "{s}");
        assert_eq!(parse_i32(s), s.parse::<i32>().ok(), "{s}");
    }
}

#[test]
fn decimals() {
    for n in [0, 1, 9, 10, 99, 100, 1234567890, u64::MAX] {
        let mut s = "x".to_string();
        push_decimal(&mut s, n);
        assert_eq!(s, format!("x{n}"));
    }
}

fn args(list: &[&str]) -> Vec<String> {
    list.iter().map(|s| s.to_string()).collect()
}

#[test]
fn flags_select_the_mode() {
    assert_eq!(run_mode(&args(&[])), RunMode::Interval);
    assert_eq!(run_mode(&args(&["--interval", "2"])), RunMode::Interval);
    assert_eq!(run_mode(&args(&["--once", "--json"])), RunMode::Json);
    assert_eq!(run_mode(&args(&["--once"])), RunMode::Once);
    assert_eq!(run_mode(&args(&["--json", "--toggle"])), RunMode::Toggle);
    assert_eq!(run_mode(&args(&["--toggle", "--disable"])), RunMode::Disable);
    assert_eq!(run_mode(&args(&["--disable", "--enable"])), RunMode::Enable);
    assert_eq!(run_mode(&args(&["--enable", "--daemon"])), RunMode::Daemon);
    assert!(has_flag(&args(&["x", "--once"]), "--once"));
    assert!(!has_flag(&args(&["--onc"]), "--once"));
}

#[test]
fn intervals() {
    assert_eq!(interval_text(&args(&[])), None);
    assert_eq!(interval_text(&args(&["--interval"])), None);
    assert_eq!(interval_text(&args(&["a", "--interval", "2", "--interval", "3"])), Some("2"));
    assert_eq!(interval_ms(None), 3000);
    assert_eq!(interval_ms(Some(250)), 250);
    assert_eq!(interval_ms(Some(0)), 0);
}
