use todotui::todo::item::{is_date, is_priority, ParsedLine};

#[test]
fn parse_empty_line() {
    let p = ParsedLine::new("", 0);
    assert_eq!(p.raw, "");
    assert_eq!(p.body, "");
    assert!(!p.complete);
    assert_eq!(p.priority, None);
    assert_eq!(p.start_date, None);
    assert_eq!(p.completion_date, None);
    assert!(p.contexts.is_empty());
    assert!(p.tags.is_empty());
}

#[test]
fn parse_whitespace_only_line() {
    let p = ParsedLine::new("   \t  ", 3);
    assert_eq!(p.index, 3);
    assert_eq!(p.body, "");
    assert!(!p.complete);
}

#[test]
fn parse_garbage_line() {
    let p = ParsedLine::new("\u{1}\u{2}\u{3} \u{fffd}\u{7f} ::::", 9);
    assert!(!p.complete);
    assert_eq!(p.priority, None);
    // The only structured effect garbage can have is as extension pairs.
    assert_eq!(p.index, 9);
}

#[test]
fn field_round_trip() {
    let p = ParsedLine::new("x 2021-01-02 (A) 2021-01-01 buy @milk +errand due:2021-02-01", 0);
    assert!(p.complete);
    assert_eq!(p.completion_date.as_deref(), Some("2021-01-02"));
    assert_eq!(p.priority, Some('A'));
    assert_eq!(p.start_date.as_deref(), Some("2021-01-01"));
    assert_eq!(p.contexts, vec!["@milk".to_string()]);
    assert_eq!(p.tags, vec!["+errand".to_string()]);
    assert_eq!(p.due_date.as_deref(), Some("2021-02-01"));
    assert!(p.body.contains("(A) buy @milk +errand due:2021-02-01"));
}

#[test]
fn priority_shape_too_long() {
    assert_eq!(is_priority("(AB)"), None);
    let p = ParsedLine::new("(AB) stuff", 0);
    assert_eq!(p.priority, None);
    assert_eq!(p.body, "(AB) stuff");
}

#[test]
fn priority_shape_too_short() {
    assert_eq!(is_priority("(A"), None);
    let p = ParsedLine::new("(A stuff", 0);
    assert_eq!(p.priority, None);
    assert_eq!(p.body, "(A stuff");
}

#[test]
fn date_shape_no_calendar_check() {
    assert!(is_date("2021-13-99"));
    assert!(!is_date("2021-1-01"));
}

#[test]
fn state_once_fallthrough() {
    let p = ParsedLine::new("@home buy milk", 0);
    assert_eq!(p.contexts, vec!["@home".to_string()]);
    assert_eq!(p.priority, None);
    assert_eq!(p.start_date, None);
    assert!(!p.complete);
    assert_eq!(p.body, "@home buy milk");
}

#[test]
fn date_after_body_not_reinterpreted() {
    // The first token enters Body, so the later date-shaped token is body
    // text, not a start date.
    let p = ParsedLine::new("pay rent 2021-05-01", 0);
    assert_eq!(p.start_date, None);
    assert_eq!(p.body, "pay rent 2021-05-01");
}

#[test]
fn completion_marker_requires_whitespace() {
    let p = ParsedLine::new("xylophone lessons", 0);
    assert!(!p.complete);
    assert_eq!(p.body, "xylophone lessons");
}

#[test]
fn completion_date_only_after_marker() {
    // Without a marker the leading date is tried as priority, then start
    // date, and lands as the start date.
    let p = ParsedLine::new("2021-01-02 call mom", 0);
    assert!(!p.complete);
    assert_eq!(p.completion_date, None);
    assert_eq!(p.start_date.as_deref(), Some("2021-01-02"));
    assert_eq!(p.body, "call mom");
}

#[test]
fn completed_with_date() {
    let p = ParsedLine::new("x 2020-12-31 done thing", 0);
    assert!(p.complete);
    assert_eq!(p.completion_date.as_deref(), Some("2020-12-31"));
    assert_eq!(p.body, "done thing");
}

#[test]
fn completed_without_date() {
    let p = ParsedLine::new("x done thing", 0);
    assert!(p.complete);
    assert_eq!(p.completion_date, None);
    assert_eq!(p.body, "done thing");
}

#[test]
fn priority_reinserted_into_body() {
    let p = ParsedLine::new("(B) water plants", 0);
    assert_eq!(p.priority, Some('B'));
    assert_eq!(p.body, "(B) water plants");
}

#[test]
fn priority_only_line_keeps_trailing_space() {
    let p = ParsedLine::new("(C)", 0);
    assert_eq!(p.priority, Some('C'));
    assert_eq!(p.body, "(C) ");
}

#[test]
fn trailing_newlines_stripped() {
    let p = ParsedLine::new("buy milk\r\n", 0);
    assert_eq!(p.raw, "buy milk");
    assert_eq!(p.body, "buy milk");
}

#[test]
fn hidden_extension_exact_value() {
    let p = ParsedLine::new("secret h:1", 0);
    assert!(p.hidden);
    assert!(p.extensions.is_empty());
}

#[test]
fn hidden_extension_other_value_is_generic() {
    let p = ParsedLine::new("secret h:2", 0);
    assert!(!p.hidden);
    assert_eq!(p.extensions, vec![("h".to_string(), "2".to_string())]);
}

#[test]
fn recurrence_extension() {
    let p = ParsedLine::new("water plants rec:1w", 0);
    assert_eq!(p.recurrence.as_deref(), Some("1w"));
}

#[test]
fn due_with_bad_date_is_generic_extension() {
    let p = ParsedLine::new("pay due:tomorrow", 0);
    assert_eq!(p.due_date, None);
    assert_eq!(p.extensions, vec![("due".to_string(), "tomorrow".to_string())]);
}

#[test]
fn threshold_extension() {
    let p = ParsedLine::new("later t:2022-02-02", 0);
    assert_eq!(p.threshold_date.as_deref(), Some("2022-02-02"));
}

#[test]
fn duplicate_contexts_kept_in_order() {
    let p = ParsedLine::new("a @x b @y c @x", 0);
    assert_eq!(
        p.contexts,
        vec!["@x".to_string(), "@y".to_string(), "@x".to_string()]
    );
}

#[test]
fn generic_extension_splits_once() {
    let p = ParsedLine::new("link url:http://a:b", 0);
    assert_eq!(
        p.extensions,
        vec![("url".to_string(), "http://a:b".to_string())]
    );
}

#[test]
fn later_due_date_wins() {
    let p = ParsedLine::new("due:2021-01-01 due:2021-02-02", 0);
    assert_eq!(p.due_date.as_deref(), Some("2021-02-02"));
}
