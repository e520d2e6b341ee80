use std::path::PathBuf;

use spor::errors::{Error, ErrorKind};

#[test]
fn an_error_is_of_the_kind_it_was_made_from() {
    let e = Error::from(ErrorKind::NoAlignments);
    assert_eq!(e.find(), &ErrorKind::NoAlignments);
    let e = Error::from(ErrorKind::Io(std::io::ErrorKind::NotFound, "gone".to_string()));
    assert_eq!(
        e.find(),
        &ErrorKind::Io(std::io::ErrorKind::NotFound, "gone".to_string())
    );
}

#[test]
fn errors_of_each_made_kind() {
    assert_eq!(
        Error::other("something else").find(),
        &ErrorKind::Other("something else".to_string())
    );
    assert_eq!(
        Error::repository_not_found(PathBuf::from("/no/repo")).find(),
        &ErrorKind::RepositoryNotFound(PathBuf::from("/no/repo"))
    );
    assert_eq!(
        Error::repository_exists(PathBuf::from("/a/repo")).find(),
        &ErrorKind::RepositoryExists(PathBuf::from("/a/repo"))
    );
}

#[test]
fn kinds_are_told_apart() {
    assert_ne!(ErrorKind::NoAlignments, ErrorKind::InvalidAlignment);
    assert_ne!(ErrorKind::InvalidTopic, ErrorKind::InvalidPath);
    assert_ne!(
        ErrorKind::EncodingError("a".to_string()),
        ErrorKind::EncodingError("b".to_string())
    );
    assert_eq!(ErrorKind::InvalidTopic.clone(), ErrorKind::InvalidTopic);
    let io = ErrorKind::Io(std::io::ErrorKind::PermissionDenied, "no".to_string());
    assert_eq!(io.clone(), io);
    assert_ne!(
        io,
        ErrorKind::Io(std::io::ErrorKind::NotFound, "no".to_string())
    );
    let missing = ErrorKind::RepositoryNotFound(PathBuf::from("/no/repo"));
    assert_eq!(missing.clone(), missing);
}

#[test]
fn kinds_in_words() {
    assert_eq!(ErrorKind::NoAlignments.message(), "No alignment found");
    assert_eq!(
        ErrorKind::InvalidAlignment.message(),
        "Alignment does not map to source"
    );
    assert_eq!(ErrorKind::InvalidTopic.message(), "Unable to read topic");
    assert_eq!(
        ErrorKind::InvalidPath.message(),
        "Anchor file path's must be absolute"
    );
    assert_eq!(
        ErrorKind::EncodingError("invalid sequence".to_string()).message(),
        "invalid sequence"
    );
    assert_eq!(ErrorKind::Other("anything".to_string()).message(), "anything");
    assert_eq!(
        ErrorKind::RepositoryNotFound(PathBuf::from("/no/repo")).message(),
        "repository not found for \"/no/repo\""
    );
    assert_eq!(
        ErrorKind::RepositoryExists(PathBuf::from("/a/repo")).message(),
        "repository already exists: \"/a/repo\""
    );
    assert_eq!(
        ErrorKind::Io(std::io::ErrorKind::NotFound, "gone".to_string()).message(),
        "I/O error: NotFound gone"
    );
}
