use event_hooks::history::{
    history_entries, history_preview_lines, history_window_start, keep_entry,
    preview_of_trimmed, truncate_preview, HISTORY_SEARCH_MAX_BYTES, HISTORY_SEARCH_MAX_ENTRIES,
};

fn log(lines: &[&str]) -> Vec<u8> {
    let mut s = String::new();
    for l in lines {
        s.push_str(l);
        s.push('\n');
    }
    s.into_bytes()
}

#[test]
fn loads_most_recent_entries_first() {
    let buf = log(&[
        r#"{"session_id":"s","ts":1,"text":"first"}"#,
        r#"{"session_id":"s","ts":2,"text":"second"}"#,
        r#"{"session_id":"s","ts":3,"text":"third"}"#,
    ]);
    assert_eq!(
        vec!["third".to_string(), "second".to_string(), "first".to_string()],
        history_entries(&buf, false)
    );
}

#[test]
fn drops_duplicate_consecutive_entries() {
    let buf = log(&[
        r#"{"session_id":"s","ts":1,"text":"dup"}"#,
        r#"{"session_id":"s","ts":2,"text":"dup"}"#,
        r#"{"session_id":"s","ts":3,"text":"unique"}"#,
    ]);
    assert_eq!(
        vec!["unique".to_string(), "dup".to_string()],
        history_entries(&buf, false)
    );
}

#[test]
fn non_adjacent_repeats_are_kept() {
    let buf = log(&[r#"{"text":"a"}"#, r#"{"text":"b"}"#, r#"{"text":"a"}"#]);
    assert_eq!(vec!["a", "b", "a"], history_entries(&buf, false));
}

#[test]
fn blank_invalid_and_empty_lines_are_skipped() {
    let buf = log(&[
        r#"{"text":"keep"}"#,
        "   ",
        "not json",
        r#"{"text":""}"#,
        r#"{"text":5}"#,
        r#"  {"text":"last"}  "#,
    ]);
    assert_eq!(vec!["last", "keep"], history_entries(&buf, false));
}

#[test]
fn line_without_final_newline_is_read() {
    let buf = b"{\"text\":\"a\"}\r\n{\"text\":\"b\"}".to_vec();
    assert_eq!(vec!["b", "a"], history_entries(&buf, false));
}

#[test]
fn partial_first_line_of_a_window_is_dropped() {
    let buf = b"xt\":\"cut\"}\n{\"text\":\"whole\"}\n".to_vec();
    assert_eq!(vec!["whole"], history_entries(&buf, true));
    let buf = b"{\"text\":\"only\"}\n".to_vec();
    assert!(history_entries(&buf, true).is_empty());
    assert_eq!(vec!["only"], history_entries(&buf, false));
}

#[test]
fn window_without_newline_gives_nothing() {
    let buf = b"{\"text\":\"x\"}".to_vec();
    assert!(history_entries(&buf, true).is_empty());
    assert!(history_entries(&Vec::new(), false).is_empty());
}

#[test]
fn invalid_utf8_is_replaced() {
    let mut buf = b"{\"text\":\"a".to_vec();
    buf.push(0xff);
    buf.extend_from_slice(b"\"}\n");
    assert_eq!(vec!["a\u{FFFD}".to_string()], history_entries(&buf, false));
}

#[test]
fn at_most_the_maximum_number_of_entries() {
    let mut lines = Vec::new();
    for i in 0..(HISTORY_SEARCH_MAX_ENTRIES + 5) {
        lines.push(format!("{{\"text\":\"e{i}\"}}"));
    }
    let refs: Vec<&str> = lines.iter().map(|s| s.as_str()).collect();
    let out = history_entries(&log(&refs), false);
    assert_eq!(out.len(), HISTORY_SEARCH_MAX_ENTRIES);
    assert_eq!(out[0], format!("e{}", HISTORY_SEARCH_MAX_ENTRIES + 4));
    assert_eq!(out[HISTORY_SEARCH_MAX_ENTRIES - 1], "e5");
}

#[test]
fn window_start_keeps_the_tail() {
    assert_eq!(history_window_start(0), 0);
    assert_eq!(history_window_start(HISTORY_SEARCH_MAX_BYTES), 0);
    assert_eq!(history_window_start(HISTORY_SEARCH_MAX_BYTES + 10), 10);
    assert_eq!(HISTORY_SEARCH_MAX_BYTES, 1048576);
}

#[test]
fn keep_entry_skips_absent_and_repeated() {
    let mut out = vec!["dup".to_string()];
    keep_entry(&mut out, Some("dup".to_string()));
    assert_eq!(out, vec!["dup"]);
    keep_entry(&mut out, None);
    assert_eq!(out, vec!["dup"]);
    keep_entry(&mut out, Some("new".to_string()));
    assert_eq!(out, vec!["dup", "new"]);
    let mut empty: Vec<String> = Vec::new();
    keep_entry(&mut empty, Some("x".to_string()));
    assert_eq!(empty, vec!["x"]);
}

#[test]
fn short_previews_are_trimmed_only() {
    assert_eq!(truncate_preview("  hello \t"), "hello");
    assert_eq!(truncate_preview(""), "");
    let exact = "a".repeat(200);
    assert_eq!(truncate_preview(&exact), exact);
}

#[test]
fn long_previews_end_with_an_ellipsis() {
    let long = "b".repeat(201);
    let out = truncate_preview(&format!("  {long}  "));
    assert_eq!(out.chars().count(), 200);
    assert_eq!(out, format!("{}\u{2026}", "b".repeat(199)));
    let wide = "\u{e9}".repeat(250);
    assert_eq!(preview_of_trimmed(&wide), format!("{}\u{2026}", "\u{e9}".repeat(199)));
}

#[test]
fn preview_splits_first_line_from_the_rest() {
    let p = history_preview_lines("  title  \nsecond line\n  third  ");
    assert_eq!(p.first, "title");
    assert_eq!(p.rest, Some("second line   third".to_string()));
    let p = history_preview_lines("single");
    assert_eq!(p.first, "single");
    assert_eq!(p.rest, None);
    let p = history_preview_lines("head\n   \n");
    assert_eq!(p.first, "head");
    assert_eq!(p.rest, None);
    let p = history_preview_lines("");
    assert_eq!(p.first, "");
    assert_eq!(p.rest, None);
}
