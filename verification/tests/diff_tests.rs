use std::path::PathBuf;

use spor::anchor::{Anchor, Context};
use spor::diff::{diff_texts, get_anchor_diff, report, LineDiff};
use spor::errors::ErrorKind;

fn anchor_of(text: &str, offset: u64, width: u64, context_width: u64) -> Anchor {
    let context = Context::new(text, offset, width, context_width).unwrap();
    let metadata = serde_yaml::from_str("foo: bar").unwrap();
    Anchor::new(
        &PathBuf::from("/foo/bar"),
        context,
        metadata,
        "utf-8".to_string(),
    )
    .unwrap()
}

#[test]
fn a_report_has_a_line_for_each_step() {
    let diffs = vec![
        LineDiff::Both("one".to_string(), "one".to_string()),
        LineDiff::Left("two".to_string()),
        LineDiff::Right("2".to_string()),
        LineDiff::Both("three".to_string(), "three".to_string()),
    ];
    let (changed, lines) = report(&diffs);
    assert!(changed);
    assert_eq!(lines, vec![" one", "-two", "+2", " three"]);
}

#[test]
fn a_report_of_equal_lines_is_no_change() {
    let diffs = vec![
        LineDiff::Both("one".to_string(), "one".to_string()),
        LineDiff::Both("".to_string(), "".to_string()),
    ];
    let (changed, lines) = report(&diffs);
    assert!(!changed);
    assert_eq!(lines, vec![" one", " "]);
}

#[test]
fn a_report_of_nothing() {
    let (changed, lines) = report(&vec![]);
    assert!(!changed);
    assert!(lines.is_empty());
}

#[test]
fn one_changed_step_is_a_change() {
    let (changed, lines) = report(&vec![LineDiff::Right("new".to_string())]);
    assert!(changed);
    assert_eq!(lines, vec!["+new"]);
    let (changed, lines) = report(&vec![LineDiff::Left("old".to_string())]);
    assert!(changed);
    assert_eq!(lines, vec!["-old"]);
}

#[test]
fn texts_are_compared_by_lines() {
    let (changed, lines) = diff_texts("a\nb\nc", "a\nx\nc");
    assert!(changed);
    assert_eq!(lines, vec![" a", "-b", "+x", " c"]);
}

#[test]
fn equal_texts_have_not_changed() {
    let (changed, lines) = diff_texts("a\nb", "a\nb");
    assert!(!changed);
    assert_eq!(lines, vec![" a", " b"]);
}

#[test]
fn an_anchor_in_an_unchanged_file_has_not_changed() {
    let text = "one\ntwo\nthree\nfour";
    let anchor = anchor_of(text, 4, 3, 4);
    let (changed, lines) = get_anchor_diff(&anchor, text).unwrap();
    assert!(!changed);
    assert_eq!(lines, vec![" one", " two", " thr"]);
}

#[test]
fn an_anchor_in_a_changed_file_has_changed() {
    let anchor = anchor_of("one\ntwo\nthree\nfour", 4, 3, 4);
    let (changed, lines) = get_anchor_diff(&anchor, "one\n2wo\nthree\nfour").unwrap();
    assert!(changed);
    assert_eq!(lines, vec![" one", "-two", "+2wo", " thr"]);
}

#[test]
fn an_anchor_beyond_the_end_of_its_file_is_invalid() {
    let anchor = anchor_of("one\ntwo\nthree\nfour", 4, 3, 4);
    assert_eq!(
        get_anchor_diff(&anchor, "one\nt").err(),
        Some(ErrorKind::InvalidTopic)
    );
}
