use rls_vfs::disk::{io_failed, open_failed, read_failed, text_of_bytes};
use rls_vfs::Error;

#[test]
fn error_descriptions() {
    assert_eq!(
        Error::OutOfSync("a.rs".to_owned()).description(),
        "file out of sync with filesystem"
    );
    assert_eq!(Error::Io(None, None).description(), "io::Error reading or writing path");
    assert_eq!(
        Error::UncommittedChanges("a.rs".to_owned()).description(),
        "changes exist which have not been written to disk"
    );
    assert_eq!(
        Error::BadLocation.description(),
        "client specified location not existing within a file"
    );
    assert_eq!(Error::FileNotCached.description(), "requested file was not cached in the VFS");
    assert_eq!(
        Error::NoUserDataForFile.description(),
        "file is cached but there is no user data for it"
    );
}

#[test]
fn error_texts() {
    assert_eq!(
        Error::OutOfSync("dir/a.rs".to_owned()).to_string(),
        "file dir/a.rs out of sync with filesystem"
    );
    assert_eq!(
        Error::UncommittedChanges("dir/a.rs".to_owned()).to_string(),
        "dir/a.rs has uncommitted changes"
    );
    assert_eq!(
        Error::Io(Some("a.rs".to_owned()), Some("gone".to_owned())).to_string(),
        "io::Error reading or writing path"
    );
    assert_eq!(
        Error::BadLocation.to_string(),
        "client specified location not existing within a file"
    );
    assert_eq!(Error::FileNotCached.to_string(), "requested file was not cached in the VFS");
    assert_eq!(
        Error::NoUserDataForFile.to_string(),
        "file is cached but there is no user data for it"
    );
}

#[test]
fn errors_compare_by_what_they_hold() {
    assert_eq!(Error::OutOfSync("a".to_owned()), Error::OutOfSync("a".to_owned()));
    assert_ne!(Error::OutOfSync("a".to_owned()), Error::OutOfSync("b".to_owned()));
    assert_ne!(Error::OutOfSync("a".to_owned()), Error::UncommittedChanges("a".to_owned()));
    assert_ne!(Error::BadLocation, Error::FileNotCached);
    let e = Error::Io(Some("a".to_owned()), None);
    assert_eq!(e.clone(), e);
}

#[test]
fn io_errors_for_a_file() {
    assert_eq!(
        io_failed("a.rs", "disk full".to_owned()),
        Error::Io(Some("a.rs".to_owned()), Some("disk full".to_owned()))
    );
    assert_eq!(
        open_failed("dir/a.rs"),
        Error::Io(Some("dir/a.rs".to_owned()), Some("Could not open file: dir/a.rs".to_owned()))
    );
    assert_eq!(
        read_failed("dir/a.rs"),
        Error::Io(Some("dir/a.rs".to_owned()), Some("Could not read file: dir/a.rs".to_owned()))
    );
}

#[test]
fn text_of_valid_bytes() {
    assert_eq!(text_of_bytes("a.rs", Vec::new()), Ok(String::new()));
    assert_eq!(text_of_bytes("a.rs", vec![0x66, 0x6f, 0x6f, 0x0a]), Ok("foo\n".to_owned()));
    assert_eq!(
        text_of_bytes("a.rs", vec![0x68, 0xc3, 0xa9, 0xe2, 0x82, 0xac, 0xf0, 0x9f, 0x98, 0x80]),
        Ok("hé€😀".to_owned())
    );
}

#[test]
fn text_of_invalid_bytes() {
    let invalid = Error::Io(Some("a.rs".to_owned()), Some("invalid utf-8".to_owned()));
    // A continuation byte alone, a cut-off character, an overlong encoding, a surrogate.
    assert_eq!(text_of_bytes("a.rs", vec![0x80]), Err(invalid.clone()));
    assert_eq!(text_of_bytes("a.rs", vec![0x66, 0xc3]), Err(invalid.clone()));
    assert_eq!(text_of_bytes("a.rs", vec![0xc0, 0xaf]), Err(invalid.clone()));
    assert_eq!(text_of_bytes("a.rs", vec![0xed, 0xa0, 0x80]), Err(invalid.clone()));
    assert_eq!(text_of_bytes("a.rs", vec![0xff]), Err(invalid));
}
