use std::path::PathBuf;

use spor::alignment::align::{AlignmentCell, Alignments};
use spor::alignment::smith_waterman::align;
use spor::anchor::{Anchor, Context};
use spor::errors::ErrorKind;
use spor::scoring::{gap_penalty, score_func};
use spor::updating::{
    decode_text, index_in_topic, relocate, relocate_found, standard_align, update,
    update_bytes, update_text, UpdateError,
};

fn anchor_of(text: &str, offset: u64, width: u64, context_width: u64) -> Anchor {
    let context = Context::new(text, offset, width, context_width).unwrap();
    let metadata = serde_yaml::from_str("foo: bar").unwrap();
    Anchor::new(
        &PathBuf::from("/foo/bar"),
        context,
        metadata,
        "utf-8".to_string(),
    )
    .unwrap()
}

fn aligner(a: &str, b: &str) -> Result<Alignments, ErrorKind> {
    align(a, b, &score_func, &gap_penalty)
}

#[test]
fn successful_update() {
    let initial_text = "asdf";
    let final_text = "qwer\nasdf";

    let context = Context::new(initial_text, 0, 4, 3).unwrap();

    let metadata = serde_yaml::from_str("foo: bar").unwrap();

    let anchor = Anchor::new(
        &PathBuf::from("/foo/bar"),
        context,
        metadata,
        "utf-8".to_string(),
    )
    .unwrap();

    let updated_anchor = update_bytes(&anchor, final_text.as_bytes(), &aligner).unwrap();

    assert_eq!(updated_anchor.context().offset(), 5);
}

#[test]
fn update_across_an_insertion() {
    let anchor = anchor_of("asdf", 0, 4, 3);
    let updated = update(&anchor, "qwer\nasdf").unwrap();
    assert_eq!(updated.context().offset(), 5);
    assert_eq!(updated.context().topic(), "asdf");
    assert_eq!(updated.context().before(), "er\n");
    assert_eq!(updated.context().after(), "");
    assert_eq!(updated.context().width(), 3);
    assert_eq!(updated.file_path(), anchor.file_path());
    assert_eq!(updated.encoding(), anchor.encoding());
    assert_eq!(updated.metadata(), anchor.metadata());
}

#[test]
fn update_of_an_unchanged_text_changes_nothing() {
    let text = "the quick brown fox";
    let anchor = anchor_of(text, 0, 9, 30);
    assert_eq!(anchor.context().full_text(), text);
    let updated = update(&anchor, text).unwrap();
    assert_eq!(updated.context().offset(), anchor.context().offset());
    assert_eq!(updated.context().topic(), anchor.context().topic());
    assert_eq!(updated.context().before(), anchor.context().before());
    assert_eq!(updated.context().after(), anchor.context().after());

    let anchor = anchor_of(text, 4, 5, 4);
    let stored = anchor.context().full_text();
    assert_eq!(stored, "the quick bro");
    let updated = update(&anchor, &stored).unwrap();
    assert_eq!(updated.context().offset(), 4);
    assert_eq!(updated.context().topic(), "quick");
    assert_eq!(updated.context().before(), "the ");
    assert_eq!(updated.context().after(), " bro");
}

#[test]
fn update_with_a_shorter_topic() {
    // The "c" of the topic "bcd" has gone: the topic that is left is "bd".
    let anchor = anchor_of("abcde", 1, 3, 1);
    let updated = update(&anchor, "abde").unwrap();
    assert_eq!(updated.context().offset(), 1);
    assert_eq!(updated.context().topic(), "bd");
    assert_eq!(updated.context().before(), "a");
    assert_eq!(updated.context().after(), "e");
}

#[test]
fn update_without_alignments() {
    let anchor = anchor_of("asdf", 0, 4, 3);
    assert_eq!(update(&anchor, "").err(), Some(UpdateError::NoAlignments));
    assert_eq!(update(&anchor, "qwer").err(), Some(UpdateError::NoAlignments));
    assert_eq!(
        update_text(&anchor, "qwer", &aligner).err(),
        Some(UpdateError::NoAlignments)
    );
    assert_eq!(
        relocate(&anchor, "asdf", &vec![]).err(),
        Some(UpdateError::NoAlignments)
    );
    assert_eq!(
        relocate_found(&anchor, "asdf", Err(ErrorKind::NoAlignments)).err(),
        Some(UpdateError::NoAlignments)
    );
    assert_eq!(
        relocate_found(&anchor, "asdf", Ok((0, vec![]))).err(),
        Some(UpdateError::NoAlignments)
    );
}

#[test]
fn update_with_an_alignment_that_misses_the_topic() {
    // Only the text before the topic is found again.
    let anchor = anchor_of("abcXYZ", 3, 3, 3);
    assert_eq!(update(&anchor, "abc").err(), Some(UpdateError::InvalidAlignment));
    assert_eq!(
        relocate(&anchor, "abc", &vec![vec![]]).err(),
        Some(UpdateError::InvalidAlignment)
    );
    assert_eq!(
        relocate(
            &anchor,
            "abc",
            &vec![vec![
                AlignmentCell::RightGap { left: 3 },
                AlignmentCell::LeftGap { right: 0 }
            ]]
        )
        .err(),
        Some(UpdateError::InvalidAlignment)
    );
}

#[test]
fn update_with_an_alignment_beyond_the_text() {
    let anchor = anchor_of("asdf", 0, 4, 3);
    let alignment = vec![AlignmentCell::Both { left: 0, right: 7 }];
    assert_eq!(
        relocate(&anchor, "asdf", &vec![alignment]).err(),
        Some(UpdateError::InvalidTopic)
    );
}

#[test]
fn the_first_alignment_decides() {
    let anchor = anchor_of("asdf", 0, 4, 3);
    let first = vec![
        AlignmentCell::Both { left: 0, right: 2 },
        AlignmentCell::Both { left: 1, right: 3 },
    ];
    let second = vec![AlignmentCell::Both { left: 0, right: 0 }];
    let updated = relocate(&anchor, "xxasdf", &vec![first, second]).unwrap();
    assert_eq!(updated.context().offset(), 2);
    assert_eq!(updated.context().topic(), "as");
    assert_eq!(updated.context().before(), "xx");
    assert_eq!(updated.context().after(), "df");
}

#[test]
fn only_cells_of_the_topic_count() {
    // stored text "bcdef" with the topic "cd" at offset 2 of the old text
    let anchor = anchor_of("abcdefg", 2, 2, 1);
    assert_eq!(anchor.context().full_text(), "bcde");
    let alignment = vec![
        AlignmentCell::Both { left: 0, right: 4 },
        AlignmentCell::Both { left: 1, right: 5 },
        AlignmentCell::LeftGap { right: 6 },
        AlignmentCell::Both { left: 2, right: 7 },
        AlignmentCell::RightGap { left: 3 },
    ];
    let updated = relocate(&anchor, "0123456789", &vec![alignment]).unwrap();
    assert_eq!(updated.context().offset(), 5);
    assert_eq!(updated.context().topic(), "56");
    assert_eq!(updated.context().before(), "4");
    assert_eq!(updated.context().after(), "7");
}

#[test]
fn indices_in_the_topic() {
    let anchor = anchor_of("0123456789", 4, 2, 3);
    assert!(!index_in_topic(3, &anchor));
    assert!(index_in_topic(4, &anchor));
    assert!(index_in_topic(5, &anchor));
    assert!(!index_in_topic(6, &anchor));
    assert!(!index_in_topic(0, &anchor));
    assert!(!index_in_topic(u64::MAX, &anchor));
}

#[test]
fn standard_alignment_is_that_of_the_standard_policy() {
    assert_eq!(
        standard_align("GGTTGACTA", "TGTTACGG"),
        align("GGTTGACTA", "TGTTACGG", &score_func, &gap_penalty)
    );
    assert_eq!(standard_align("AAA", "BBB"), Err(ErrorKind::NoAlignments));
}

#[test]
fn decoding_utf_8() {
    assert_eq!(decode_text("utf-8", "qwer\nasdf".as_bytes()), Ok("qwer\nasdf".to_string()));
    assert_eq!(decode_text("utf-8", "añb€".as_bytes()), Ok("añb€".to_string()));
    assert_eq!(decode_text("UTF-8", &[]), Ok("".to_string()));
}

#[test]
fn decoding_another_encoding() {
    // 0xE9 is "é" in ISO 8859-1 (which the label names as windows-1252)
    assert_eq!(decode_text("latin1", &[0x63, 0x61, 0x66, 0xE9]), Ok("café".to_string()));
}

#[test]
fn decoding_with_an_unknown_label() {
    assert_eq!(
        decode_text("no-such-encoding", "asdf".as_bytes()),
        Err(UpdateError::EncodingError("Invalid encoding name.".to_string()))
    );
}

#[test]
fn decoding_bytes_that_are_no_text() {
    match decode_text("utf-8", &[0x61, 0xFF, 0x62]) {
        Err(UpdateError::EncodingError(message)) => assert!(!message.is_empty()),
        other => panic!("unexpected outcome: {:?}", other),
    }
}

#[test]
fn update_from_bytes_with_a_bad_encoding() {
    let context = Context::new("asdf", 0, 4, 3).unwrap();
    let metadata = serde_yaml::from_str("foo: bar").unwrap();
    let anchor = Anchor::new(
        &PathBuf::from("/foo/bar"),
        context,
        metadata,
        "klingon".to_string(),
    )
    .unwrap();
    assert_eq!(
        update_bytes(&anchor, "asdf".as_bytes(), &aligner).err(),
        Some(UpdateError::EncodingError("Invalid encoding name.".to_string()))
    );
}

#[test]
fn update_with_an_aligner_of_the_callers() {
    // an aligner that pairs the stored text with the end of the current text
    let to_the_end = |a: &str, b: &str| -> Result<Alignments, ErrorKind> {
        let n = a.chars().count();
        let m = b.chars().count();
        if n == 0 || n > m {
            return Err(ErrorKind::NoAlignments);
        }
        let alignment = (0..n)
            .map(|k| AlignmentCell::Both { left: k, right: m - n + k })
            .collect();
        Ok((1, vec![alignment]))
    };
    let anchor = anchor_of("asdf", 0, 4, 3);
    let updated = update_text(&anchor, "asdf, and asdf", &to_the_end).unwrap();
    assert_eq!(updated.context().offset(), 10);
    assert_eq!(updated.context().topic(), "asdf");
    assert_eq!(updated.context().before(), "nd ");
    assert_eq!(
        update_text(&anchor, "as", &to_the_end).err(),
        Some(UpdateError::NoAlignments)
    );
}

#[test]
fn update_of_an_unchanged_text_with_a_clipped_context() {
    // The context was taken from a longer text, of which the file now holds
    // the stored part alone: the topic is found at its place in that part.
    let anchor = anchor_of("0123456789", 5, 2, 2);
    let stored = anchor.context().full_text();
    assert_eq!(stored, "345678");
    let updated = update(&anchor, &stored).unwrap();
    assert_eq!(updated.context().offset(), 2);
    assert_eq!(updated.context().topic(), "56");
    assert_eq!(updated.context().before(), "34");
    assert_eq!(updated.context().after(), "78");
}
