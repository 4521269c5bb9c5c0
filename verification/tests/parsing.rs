use zhistory::entry::{parse_entry, parse_timestamp};
use zhistory::window::{build_window, build_window_now, within, TimeMode};

#[test]
fn timestamp_of_extended_line() {
    assert_eq!(parse_timestamp(": 1000:0;ls -la"), Some(1000));
    assert_eq!(parse_timestamp(": 1699999999:12;git status"), Some(1699999999));
}

#[test]
fn timestamp_negative_value() {
    assert_eq!(parse_timestamp(": -5:0;x"), Some(-5));
}

#[test]
fn timestamp_absent_without_colon() {
    assert_eq!(parse_timestamp("ls -la"), None);
    assert_eq!(parse_timestamp(""), None);
}

#[test]
fn timestamp_absent_on_malformed_field() {
    assert_eq!(parse_timestamp(": abc:0;x"), None);
    assert_eq!(parse_timestamp("a:"), None);
    assert_eq!(parse_timestamp(": :0;x"), None);
}

#[test]
fn timestamp_bounds() {
    assert_eq!(
        parse_timestamp(": 9223372036854775807:0;x"),
        Some(i64::MAX)
    );
    assert_eq!(parse_timestamp(": 9223372036854775808:0;x"), None);
    assert_eq!(
        parse_timestamp(": -9223372036854775808:0;x"),
        Some(i64::MIN)
    );
    assert_eq!(parse_timestamp(": -9223372036854775809:0;x"), None);
}

#[test]
fn plain_line_parses_without_timestamp() {
    let e = parse_entry(String::from("cargo build --release"));
    assert_eq!(e.raw_text, "cargo build --release");
    assert_eq!(e.command, "cargo build --release");
    assert_eq!(e.timestamp, None);
}

#[test]
fn extended_line_parses_fully() {
    let e = parse_entry(String::from(": 1000:0;git status"));
    assert_eq!(e.raw_text, ": 1000:0;git status");
    assert_eq!(e.command, "git status");
    assert_eq!(e.timestamp, Some(1000));
}

#[test]
fn command_keeps_everything_after_first_semicolon() {
    let e = parse_entry(String::from(": 1000:0;echo a;echo b"));
    assert_eq!(e.command, "echo a;echo b");
}

#[test]
fn day_window_boundaries() {
    let now = 1_700_000_000;
    assert!(within(now, TimeMode::LastDay, now));
    assert!(within(now - 86_400, TimeMode::LastDay, now));
    assert!(!within(now - 86_401, TimeMode::LastDay, now));
    assert!(within(now + 5, TimeMode::LastDay, now));
}

#[test]
fn month_window_boundaries() {
    let now = 1_700_000_000;
    assert!(within(now - 2_592_000, TimeMode::LastMonth, now));
    assert!(!within(now - 2_592_001, TimeMode::LastMonth, now));
    assert!(within(now + 2_592_000, TimeMode::LastMonth, now));
    assert!(!within(now + 2_592_001, TimeMode::LastMonth, now));
}

#[test]
fn all_time_window_accepts_everything() {
    assert!(within(i64::MIN, TimeMode::AllTime, 0));
    assert!(within(i64::MAX, TimeMode::AllTime, 0));
}

#[test]
fn window_caps_to_requested_size_newest_first() {
    let lines: Vec<String> = vec![
        String::from("one"),
        String::from("two"),
        String::from("three"),
        String::from("four"),
        String::from("five"),
    ];
    let w = build_window(lines, TimeMode::AllTime, &None, 3, 0);
    assert_eq!(w.len(), 3);
    assert_eq!(w[0].raw_text, "five");
    assert_eq!(w[1].raw_text, "four");
    assert_eq!(w[2].raw_text, "three");
}

#[test]
fn three_records_window_of_two() {
    let lines: Vec<String> = vec![
        String::from(": 1000:0;ls -la"),
        String::from(": 2000:0;git status"),
        String::from(": 3000:0;echo hi"),
    ];
    let w = build_window(lines, TimeMode::AllTime, &None, 2, 0);
    assert_eq!(w.len(), 2);
    assert_eq!(w[0].raw_text, ": 3000:0;echo hi");
    assert_eq!(w[0].command, "echo hi");
    assert_eq!(w[0].timestamp, Some(3000));
    assert_eq!(w[1].raw_text, ": 2000:0;git status");
    assert_eq!(w[1].command, "git status");
}

#[test]
fn day_window_drops_old_and_untimed_lines() {
    let now = 1_700_000_000;
    let lines: Vec<String> = vec![
        format!(": {}:0;recent", now - 100),
        format!(": {}:0;ancient", now - 1_000_000),
        String::from("no timestamp here"),
    ];
    let w = build_window(lines, TimeMode::LastDay, &None, 10, now);
    assert_eq!(w.len(), 1);
    assert_eq!(w[0].command, "recent");
}

#[test]
fn search_term_filters_at_load() {
    let lines: Vec<String> = vec![
        String::from(": 1:0;git status"),
        String::from(": 2:0;ls -la"),
        String::from(": 3:0;git push"),
    ];
    let w = build_window(lines, TimeMode::AllTime, &Some(String::from("git")), 10, 0);
    assert_eq!(w.len(), 2);
    assert_eq!(w[0].command, "git push");
    assert_eq!(w[1].command, "git status");
}

#[test]
fn window_now_keeps_untimed_lines_without_constraint() {
    let lines: Vec<String> = vec![String::from("alpha"), String::from("beta")];
    let w = build_window_now(lines, TimeMode::AllTime, &None, 5);
    assert_eq!(w.len(), 2);
    assert_eq!(w[0].raw_text, "beta");
    assert_eq!(w[1].raw_text, "alpha");
}
