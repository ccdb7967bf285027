use rust_discord_bot::decimal::{i64_to_string, parse_u64_str, u64_to_string};
use rust_discord_bot::text::{
    after_last_str, collapse_white_space_str, join_strings, nonblank_lines_of, remove_all_str,
    trim_end_matches_str, trim_end_str, trim_start_str, trim_str, words_of,
};

#[test]
fn trim_removes_unicode_white_space() {
    assert_eq!(trim_str("  \t hello world \n\u{3000}"), "hello world");
    assert_eq!(trim_start_str("  a b  "), "a b  ");
    assert_eq!(trim_end_str("  a b \r\n"), "  a b");
    assert_eq!(trim_str(""), "");
    assert_eq!(trim_str(" \u{a0} "), "");
}

#[test]
fn trim_is_idempotent() {
    let once = trim_str("\n  x y  \t");
    assert_eq!(trim_str(&once), once);
}

#[test]
fn remove_all_matches_str_replace() {
    let s = "hey @Rin#7236 how are you @Rin#7236";
    assert_eq!(remove_all_str(s, "@Rin#7236"), s.replace("@Rin#7236", ""));
    assert_eq!(remove_all_str("aaa", "aa"), "a");
    assert_eq!(remove_all_str("abc", ""), "abc");
}

#[test]
fn trim_end_matches_strips_repeatedly() {
    assert_eq!(trim_end_matches_str("ok<e><e>", "<e>"), "ok");
    assert_eq!(trim_end_matches_str("ok", "<e>"), "ok");
    let m = "<｜end▁of▁sentence｜>";
    let s = format!("reply{m}{m}");
    assert_eq!(trim_end_matches_str(&s, m), s.trim_end_matches(m));
}

#[test]
fn after_last_is_last_split_piece() {
    for s in ["a</check>b</check>c", "no marker", "</check>", "x</check>", ""] {
        assert_eq!(after_last_str(s, "</check>"), s.split("</check>").last().unwrap());
    }
}

#[test]
fn words_and_collapse_match_split_whitespace() {
    let s = "  Hello \t  World\nagain  ";
    let expected: Vec<&str> = s.split_whitespace().collect();
    assert_eq!(words_of(s), expected);
    assert_eq!(collapse_white_space_str(s), expected.join(" "));
    assert_eq!(collapse_white_space_str("   "), "");
}

#[test]
fn join_strings_matches_join() {
    let parts = vec!["a".to_string(), "b".to_string(), "c".to_string()];
    assert_eq!(join_strings(&parts, ", "), "a, b, c");
    assert_eq!(join_strings(&Vec::new(), ", "), "");
    assert_eq!(join_strings(&vec!["x".to_string()], ", "), "x");
}

#[test]
fn nonblank_lines_match_lines_trim_filter() {
    let s = "{\"a\":1}\r\n\n   \n  {\"done\":true} \nlast";
    let expected: Vec<String> =
        s.lines().map(|l| l.trim().to_string()).filter(|l| !l.is_empty()).collect();
    assert_eq!(nonblank_lines_of(s), expected);
    assert!(nonblank_lines_of("").is_empty());
    assert!(nonblank_lines_of("\n\n").is_empty());
}

#[test]
fn decimal_rendering_matches_display() {
    for n in [0u64, 7, 10, 99, 100, 1234567890, u64::MAX] {
        assert_eq!(u64_to_string(n), n.to_string());
    }
    for n in [0i64, -1, 42, -9876, i64::MIN, i64::MAX] {
        assert_eq!(i64_to_string(n), n.to_string());
    }
}

#[test]
fn parse_matches_from_str() {
    for s in ["0", "42", "+7", "007", "", "+", "-1", "12a", "18446744073709551615", "18446744073709551616"] {
        assert_eq!(parse_u64_str(s), s.parse::<u64>().ok(), "input {s:?}");
    }
}

#[test]
fn decimal_roundtrip() {
    for n in [0u64, 5, 1234, u64::MAX] {
        assert_eq!(parse_u64_str(&u64_to_string(n)), Some(n));
    }
}
