use std::path::PathBuf;

use spor::anchor::{Anchor, Context};
use spor::errors::ErrorKind;

#[test]
fn construct_context_with_topic_at_front_of_file() {
    Context::new("text", 0, 4, 3).unwrap();
}

#[test]
fn context_in_the_middle_of_a_text() {
    let context = Context::new("0123456789", 4, 2, 3).unwrap();
    assert_eq!(context.before(), "123");
    assert_eq!(context.topic(), "45");
    assert_eq!(context.after(), "678");
    assert_eq!(context.offset(), 4);
    assert_eq!(context.width(), 3);
    assert_eq!(context.full_text(), "12345678");
}

#[test]
fn context_is_shorter_near_the_ends_of_a_text() {
    let context = Context::new("0123456789", 1, 8, 3).unwrap();
    assert_eq!(context.before(), "0");
    assert_eq!(context.topic(), "12345678");
    assert_eq!(context.after(), "9");
    assert_eq!(context.offset(), 1);
    assert_eq!(context.width(), 3);

    let context = Context::new("text", 0, 4, 3).unwrap();
    assert_eq!(context.before(), "");
    assert_eq!(context.topic(), "text");
    assert_eq!(context.after(), "");
    assert_eq!(context.width(), 3);
}

#[test]
fn context_counts_characters() {
    let context = Context::new("añb€cd", 2, 2, 1).unwrap();
    assert_eq!(context.before(), "ñ");
    assert_eq!(context.topic(), "b€");
    assert_eq!(context.after(), "c");
    assert_eq!(context.offset(), 2);
}

#[test]
fn a_topic_beyond_the_text_is_invalid() {
    assert_eq!(Context::new("text", 0, 5, 3).err(), Some(ErrorKind::InvalidTopic));
    assert_eq!(Context::new("text", 4, 1, 3).err(), Some(ErrorKind::InvalidTopic));
    assert_eq!(Context::new("text", 9, 1, 3).err(), Some(ErrorKind::InvalidTopic));
    assert_eq!(Context::new("", 0, 1, 3).err(), Some(ErrorKind::InvalidTopic));
    assert_eq!(
        Context::new("text", u64::MAX, u64::MAX, 3).err(),
        Some(ErrorKind::InvalidTopic)
    );
    assert!(Context::new("text", 3, 1, u64::MAX).is_ok());
}

#[test]
fn an_empty_topic_is_invalid() {
    assert_eq!(Context::new("text", 0, 0, 3).err(), Some(ErrorKind::InvalidTopic));
}

#[test]
fn context_from_its_parts() {
    let context =
        Context::from_parts("ab".to_string(), 5, "cd".to_string(), "e".to_string(), 2).unwrap();
    assert_eq!(context.before(), "ab");
    assert_eq!(context.offset(), 5);
    assert_eq!(context.topic(), "cd");
    assert_eq!(context.after(), "e");
    assert_eq!(context.width(), 2);
    assert_eq!(context.full_text(), "abcde");

    // no topic
    assert!(Context::from_parts("ab".to_string(), 5, "".to_string(), "e".to_string(), 2).is_none());
    // more before the topic than the width
    assert!(Context::from_parts("abc".to_string(), 5, "d".to_string(), "e".to_string(), 2).is_none());
    // more after the topic than the width
    assert!(Context::from_parts("a".to_string(), 5, "d".to_string(), "efg".to_string(), 2).is_none());
    // more before the topic than the offset
    assert!(Context::from_parts("ab".to_string(), 1, "d".to_string(), "e".to_string(), 2).is_none());
    // beyond 64 bits
    assert!(
        Context::from_parts("".to_string(), u64::MAX, "d".to_string(), "".to_string(), 2).is_none()
    );
}

#[test]
fn an_anchor_keeps_its_parts() {
    let context = Context::new("asdf", 0, 4, 3).unwrap();
    let metadata: serde_yaml::Value = serde_yaml::from_str("foo: bar").unwrap();
    let anchor = Anchor::new(
        &PathBuf::from("/foo/bar"),
        context,
        metadata.clone(),
        "utf-8".to_string(),
    )
    .unwrap();
    assert_eq!(anchor.file_path(), &PathBuf::from("/foo/bar"));
    assert_eq!(anchor.encoding(), "utf-8");
    assert_eq!(anchor.metadata(), &metadata);
    assert_eq!(anchor.context().topic(), "asdf");
    assert_eq!(anchor.context().offset(), 0);
}

#[test]
fn an_anchor_needs_an_absolute_path() {
    let context = Context::new("asdf", 0, 4, 3).unwrap();
    let metadata: serde_yaml::Value = serde_yaml::from_str("foo: bar").unwrap();
    let anchor = Anchor::new(
        &PathBuf::from("foo/bar"),
        context,
        metadata,
        "utf-8".to_string(),
    );
    assert_eq!(anchor.err(), Some(ErrorKind::InvalidPath));
}

#[test]
fn with_path_goes_by_what_it_is_told() {
    let metadata: serde_yaml::Value = serde_yaml::from_str("foo: bar").unwrap();
    let context = Context::new("asdf", 0, 4, 3).unwrap();
    let anchor = Anchor::with_path(
        &PathBuf::from("/foo/bar"),
        false,
        context,
        metadata.clone(),
        "utf-8".to_string(),
    );
    assert_eq!(anchor.err(), Some(ErrorKind::InvalidPath));
    let context = Context::new("asdf", 0, 4, 3).unwrap();
    let anchor = Anchor::with_path(
        &PathBuf::from("/foo/bar"),
        true,
        context,
        metadata,
        "utf-8".to_string(),
    );
    assert!(anchor.is_ok());
}

#[test]
fn with_context_changes_the_context_alone() {
    let context = Context::new("asdf", 0, 4, 3).unwrap();
    let metadata: serde_yaml::Value = serde_yaml::from_str("foo: bar").unwrap();
    let anchor = Anchor::new(
        &PathBuf::from("/foo/bar"),
        context,
        metadata.clone(),
        "utf-8".to_string(),
    )
    .unwrap();
    let moved = anchor.with_context(Context::new("qwer\nasdf", 5, 4, 3).unwrap());
    assert_eq!(moved.file_path(), &PathBuf::from("/foo/bar"));
    assert_eq!(moved.encoding(), "utf-8");
    assert_eq!(moved.metadata(), &metadata);
    assert_eq!(moved.context().offset(), 5);
    assert_eq!(moved.context().before(), "er\n");
}
