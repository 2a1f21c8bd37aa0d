use wheelhoss::error::Error;

#[test]
fn message_names_the_file_that_could_not_be_opened() {
    let plain = Error::FailedToOpenFile("a.list".to_string(), None);
    assert_eq!(plain.message(), "Failed to open file \"a.list\"");
    let cause = std::io::Error::new(std::io::ErrorKind::Other, "no luck");
    let with_cause = Error::FailedToOpenFile("a.list".to_string(), Some(cause));
    assert_eq!(with_cause.message(), "Failed to open file \"a.list\": no luck");
}

#[test]
fn message_of_a_split_failure() {
    let e = Error::FailedToSplitFilename("mod.pyc".to_string());
    assert_eq!(
        e.message(),
        "Failed to split filename on \".cpython-\": mod.pyc"
    );
}

#[test]
fn message_of_an_incomplete_write() {
    let e = Error::FilesListWriteIncomplete("x/files.list".to_string());
    assert_eq!(
        e.message(),
        "Write to files list was incomplete: x/files.list"
    );
}

#[test]
fn message_of_an_io_error() {
    let e = Error::IoError(std::io::Error::new(std::io::ErrorKind::Other, "broken"));
    assert_eq!(e.message(), "IoError: broken");
}

#[test]
fn message_of_a_path_that_is_no_text() {
    let e = Error::UnableToProcessNonUtf8Path("a\u{fffd}b".to_string());
    assert_eq!(
        e.message(),
        "Unable to process this non-UTF-8 path: a\u{fffd}b"
    );
}

#[test]
fn io_error_converts_to_the_io_variant() {
    let e: Error = std::io::Error::new(std::io::ErrorKind::Other, "x").into();
    assert!(matches!(e, Error::IoError(_)));
}
