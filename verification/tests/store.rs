use rls_vfs::{coalesce_changes, Change, Error, FileLoader, Line, Span, Vfs, VfsInternal};

struct Sample;

impl FileLoader for Sample {
    fn read(file_name: &str) -> Result<String, Error> {
        Ok(format!("{}\nHello\nWorld\nHello, World!\n", file_name))
    }

    fn write(_file_name: &str, _text: &str) -> Result<(), Error> {
        Ok(())
    }
}

struct Broken;

impl FileLoader for Broken {
    fn read(file_name: &str) -> Result<String, Error> {
        Err(Error::Io(Some(file_name.to_owned()), Some("cannot read".to_owned())))
    }

    fn write(file_name: &str, _text: &str) -> Result<(), Error> {
        Err(Error::Io(Some(file_name.to_owned()), Some("cannot write".to_owned())))
    }
}

fn replace_in(file: &str, start: (usize, usize), end: (usize, usize), text: &str) -> Change {
    Change::ReplaceText {
        file: file.to_owned(),
        span: Span::from((start, end)),
        len: None,
        text: text.to_owned(),
    }
}

fn add_file(file: &str, text: &str) -> Change {
    Change::AddFile { file: file.to_owned(), text: text.to_owned() }
}

fn sorted(mut files: Vec<(String, String)>) -> Vec<(String, String)> {
    files.sort();
    files
}

fn pair(path: &str, text: &str) -> (String, String) {
    (path.to_owned(), text.to_owned())
}

fn data_of<T: FileLoader>(vfs: &mut VfsInternal<T, i32>, path: &str) -> Result<i32, Error> {
    vfs.with_user_data(path, |u| u.map(|(_, data)| *data))
}

#[test]
fn flush_of_unknown_file_changes_nothing() {
    let mut vfs = VfsInternal::<Sample, ()>::new();
    vfs.load_file("foo").unwrap();
    vfs.set_file("bar", "text");
    let before = sorted(vfs.get_cached_files());
    assert_eq!(vfs.flush_file("baz"), Ok(()));
    assert_eq!(sorted(vfs.get_cached_files()), before);
    assert_eq!(vfs.file_is_synced("foo"), Ok(true));
    assert_eq!(vfs.file_is_synced("bar"), Ok(false));
    // And once more.
    assert_eq!(vfs.flush_file("baz"), Ok(()));
    assert_eq!(sorted(vfs.get_cached_files()), before);
}

#[test]
fn flush_removes_only_the_named_file() {
    let mut vfs = VfsInternal::<Sample, ()>::new();
    vfs.set_file("a", "1");
    vfs.set_file("b", "2");
    vfs.set_file("c", "3");
    assert_eq!(vfs.flush_file("b"), Ok(()));
    assert_eq!(sorted(vfs.get_cached_files()), vec![pair("a", "1"), pair("c", "3")]);
    assert_eq!(vfs.file_is_synced("b"), Err(Error::FileNotCached));
}

#[test]
fn dirty_tracking() {
    let mut vfs = VfsInternal::<Sample, ()>::new();
    vfs.load_file("foo").unwrap();
    assert_eq!(vfs.file_is_synced("foo"), Ok(true));
    vfs.on_changes(&[replace_in("foo", (1, 1), (1, 4), "foo")]).unwrap();
    assert_eq!(vfs.file_is_synced("foo"), Ok(false));
    vfs.file_saved("foo").unwrap();
    assert_eq!(vfs.file_is_synced("foo"), Ok(true));
    vfs.on_changes(&[add_file("foo", "all new")]).unwrap();
    assert_eq!(vfs.file_is_synced("foo"), Ok(false));
    vfs.write_file("foo").unwrap();
    assert_eq!(vfs.file_is_synced("foo"), Ok(true));
    assert_eq!(vfs.load_file("foo"), Ok("all new".to_owned()));
}

#[test]
fn file_is_synced_needs_a_held_file() {
    let vfs = VfsInternal::<Sample, ()>::new();
    assert_eq!(vfs.file_is_synced("foo"), Err(Error::FileNotCached));
}

#[test]
fn file_saved_of_unknown_file_is_no_error() {
    let mut vfs = VfsInternal::<Sample, ()>::new();
    assert_eq!(vfs.file_saved("foo"), Ok(()));
    assert!(vfs.get_cached_files().is_empty());
}

#[test]
fn edits_clear_user_data() {
    let mut vfs = VfsInternal::<Sample, i32>::new();
    vfs.load_file("foo").unwrap();
    vfs.set_user_data("foo", Some(1)).unwrap();
    vfs.on_changes(&[replace_in("foo", (0, 0), (0, 0), "x")]).unwrap();
    assert_eq!(data_of(&mut vfs, "foo"), Err(Error::NoUserDataForFile));

    vfs.set_user_data("foo", Some(2)).unwrap();
    vfs.on_changes(&[add_file("foo", "whole")]).unwrap();
    assert_eq!(data_of(&mut vfs, "foo"), Err(Error::NoUserDataForFile));

    vfs.set_user_data("foo", Some(3)).unwrap();
    vfs.set_file("foo", "set");
    assert_eq!(data_of(&mut vfs, "foo"), Err(Error::NoUserDataForFile));
}

#[test]
fn saving_keeps_user_data() {
    let mut vfs = VfsInternal::<Sample, i32>::new();
    vfs.set_file("foo", "text");
    vfs.set_user_data("foo", Some(1)).unwrap();
    vfs.file_saved("foo").unwrap();
    assert_eq!(data_of(&mut vfs, "foo"), Ok(1));
    vfs.write_file("foo").unwrap();
    assert_eq!(data_of(&mut vfs, "foo"), Ok(1));
}

#[test]
fn set_file_makes_a_changed_file() {
    let mut vfs = VfsInternal::<Sample, ()>::new();
    vfs.set_file("foo", "one\ntwo\n");
    assert_eq!(vfs.file_is_synced("foo"), Ok(false));
    assert_eq!(vfs.load_file("foo"), Ok("one\ntwo\n".to_owned()));
    assert_eq!(vfs.load_line("foo", Line(1)), Ok("two\n".to_owned()));
    vfs.set_file("foo", "three");
    assert_eq!(vfs.get_cached_files(), vec![pair("foo", "three")]);
}

#[test]
fn load_line_through_the_store() {
    let mut vfs = VfsInternal::<Sample, ()>::new();
    assert_eq!(vfs.load_line("foo", Line(1)), Ok("Hello\n".to_owned()));
    assert_eq!(vfs.load_line("foo", Line(3)), Ok("Hello, World!\n".to_owned()));
    assert_eq!(vfs.load_line("foo", Line(4)), Ok(String::new()));
    assert_eq!(vfs.load_line("foo", Line(5)), Err(Error::BadLocation));
    // The failed request has loaded the file all the same.
    assert_eq!(vfs.load_line("bar", Line(9)), Err(Error::BadLocation));
    assert_eq!(vfs.file_is_synced("bar"), Ok(true));
}

#[test]
fn loader_errors_are_handed_on() {
    let mut vfs = VfsInternal::<Broken, ()>::new();
    let failed = Error::Io(Some("foo".to_owned()), Some("cannot read".to_owned()));
    assert_eq!(vfs.load_file("foo"), Err(failed.clone()));
    assert_eq!(vfs.load_line("foo", Line(0)), Err(failed.clone()));
    assert_eq!(vfs.ensure_file("foo"), Err(failed.clone()));
    assert_eq!(vfs.on_changes(&[replace_in("foo", (0, 0), (0, 0), "x")]), Err(failed.clone()));
    assert!(vfs.get_cached_files().is_empty());

    vfs.set_file("foo", "text");
    assert_eq!(vfs.load_file("foo"), Ok("text".to_owned()));
    assert_eq!(
        vfs.write_file("foo"),
        Err(Error::Io(Some("foo".to_owned()), Some("cannot write".to_owned())))
    );
    assert_eq!(vfs.file_is_synced("foo"), Ok(false));
}

#[test]
fn add_file_for_unknown_file_asks_the_loader_first() {
    let mut vfs = VfsInternal::<Broken, ()>::new();
    assert!(vfs.on_changes(&[add_file("foo", "text")]).is_err());
    assert!(vfs.get_cached_files().is_empty());

    let mut vfs = VfsInternal::<Sample, ()>::new();
    vfs.on_changes(&[add_file("foo", "text")]).unwrap();
    assert_eq!(vfs.get_cached_files(), vec![pair("foo", "text")]);
    assert_eq!(vfs.file_is_synced("foo"), Ok(false));
}

#[test]
fn write_needs_a_held_file() {
    let mut vfs = VfsInternal::<Sample, ()>::new();
    assert_eq!(vfs.write_file("foo"), Err(Error::FileNotCached));
    assert!(vfs.get_cached_files().is_empty());
}

#[test]
fn mark_written_follows_the_answer() {
    let mut vfs = VfsInternal::<Sample, ()>::new();
    vfs.set_file("foo", "text");
    assert_eq!(vfs.mark_written("foo", Err(Error::BadLocation)), Err(Error::BadLocation));
    assert_eq!(vfs.file_is_synced("foo"), Ok(false));
    assert_eq!(vfs.mark_written("foo", Ok(())), Ok(()));
    assert_eq!(vfs.file_is_synced("foo"), Ok(true));
    assert_eq!(vfs.mark_written("bar", Ok(())), Ok(()));
    assert_eq!(vfs.get_cached_files().len(), 1);
}

#[test]
fn cache_loaded_follows_the_answer() {
    let mut vfs = VfsInternal::<Broken, ()>::new();
    assert_eq!(vfs.cache_loaded("foo", Err(Error::BadLocation)), Err(Error::BadLocation));
    assert!(vfs.get_cached_files().is_empty());
    assert_eq!(vfs.cache_loaded("foo", Ok("text".to_owned())), Ok(()));
    assert_eq!(vfs.get_cached_files(), vec![pair("foo", "text")]);
    assert_eq!(vfs.file_is_synced("foo"), Ok(true));
}

#[test]
fn change_loaded_follows_the_answer() {
    let good = replace_in("foo", (0, 0), (0, 1), "T");
    let bad = replace_in("foo", (7, 0), (7, 0), "x");
    let mut vfs = VfsInternal::<Broken, ()>::new();
    assert_eq!(
        vfs.change_loaded("foo", Err(Error::FileNotCached), &[&good]),
        Err(Error::FileNotCached)
    );
    assert!(vfs.get_cached_files().is_empty());
    assert_eq!(
        vfs.change_loaded("foo", Ok("text".to_owned()), &[&good, &bad]),
        Err(Error::BadLocation)
    );
    assert!(vfs.get_cached_files().is_empty());
    assert_eq!(vfs.change_loaded("foo", Ok("text".to_owned()), &[&good]), Ok(()));
    assert_eq!(vfs.get_cached_files(), vec![pair("foo", "Text")]);
    assert_eq!(vfs.file_is_synced("foo"), Ok(false));
}

#[test]
fn changes_are_sorted_by_file_in_order() {
    let batch = [
        replace_in("b", (0, 0), (0, 0), "1"),
        replace_in("a", (0, 0), (0, 0), "2"),
        replace_in("b", (0, 0), (0, 0), "3"),
        add_file("c", "4"),
        replace_in("a", (0, 0), (0, 0), "5"),
        replace_in("b", (0, 0), (0, 0), "6"),
    ];
    let groups = coalesce_changes(&batch);
    let shape: Vec<(&str, Vec<&str>)> = groups
        .iter()
        .map(|(path, changes)| {
            let texts = changes
                .iter()
                .map(|change| match change {
                    Change::AddFile { text, .. } => text.as_str(),
                    Change::ReplaceText { text, .. } => text.as_str(),
                })
                .collect();
            (*path, texts)
        })
        .collect();
    assert_eq!(
        shape,
        vec![("b", vec!["1", "3", "6"]), ("a", vec!["2", "5"]), ("c", vec!["4"])]
    );
    assert!(coalesce_changes(&[]).is_empty());
}

#[test]
fn batch_for_several_files() {
    let mut vfs = VfsInternal::<Sample, ()>::new();
    vfs.on_changes(&[
        replace_in("foo", (0, 0), (0, 0), "X"),
        replace_in("bar", (1, 0), (1, 5), "Bye"),
        replace_in("foo", (0, 0), (0, 0), "Y"),
    ])
    .unwrap();
    assert_eq!(
        sorted(vfs.get_cached_files()),
        vec![
            pair("bar", "bar\nBye\nWorld\nHello, World!\n"),
            pair("foo", "YXfoo\nHello\nWorld\nHello, World!\n"),
        ]
    );
    assert_eq!(sorted(vfs.get_changes()), sorted(vfs.get_cached_files()));
}

#[test]
fn failed_batch_keeps_what_was_done_in_a_held_file() {
    let mut vfs = VfsInternal::<Sample, i32>::new();
    vfs.load_file("foo").unwrap();
    vfs.set_user_data("foo", Some(1)).unwrap();
    let r = vfs.on_changes(&[
        replace_in("foo", (1, 1), (1, 4), "foo"),
        replace_in("foo", (9, 9), (9, 9), "bad"),
        replace_in("foo", (0, 0), (0, 0), "never"),
    ]);
    assert_eq!(r, Err(Error::BadLocation));
    assert_eq!(vfs.load_file("foo"), Ok("foo\nHfooo\nWorld\nHello, World!\n".to_owned()));
    assert_eq!(vfs.file_is_synced("foo"), Ok(false));
    assert_eq!(data_of(&mut vfs, "foo"), Err(Error::NoUserDataForFile));
}

#[test]
fn failed_batch_does_not_hold_a_file_that_was_just_read() {
    let mut vfs = VfsInternal::<Sample, ()>::new();
    let r = vfs.on_changes(&[
        replace_in("foo", (1, 1), (1, 4), "foo"),
        replace_in("foo", (9, 9), (9, 9), "bad"),
    ]);
    assert_eq!(r, Err(Error::BadLocation));
    assert!(vfs.get_cached_files().is_empty());
}

#[test]
fn failed_batch_keeps_the_files_before_and_skips_those_after() {
    let mut vfs = VfsInternal::<Sample, ()>::new();
    vfs.load_file("second").unwrap();
    vfs.load_file("third").unwrap();
    let r = vfs.on_changes(&[
        replace_in("first", (0, 0), (0, 0), "1"),
        replace_in("second", (9, 9), (9, 9), "bad"),
        replace_in("third", (0, 0), (0, 0), "3"),
    ]);
    assert_eq!(r, Err(Error::BadLocation));
    assert_eq!(vfs.load_file("first"), Ok("1first\nHello\nWorld\nHello, World!\n".to_owned()));
    assert_eq!(vfs.file_is_synced("first"), Ok(false));
    assert_eq!(vfs.file_is_synced("second"), Ok(true));
    assert_eq!(vfs.load_file("third"), Ok("third\nHello\nWorld\nHello, World!\n".to_owned()));
    assert_eq!(vfs.file_is_synced("third"), Ok(true));
}

#[test]
fn empty_batch_does_nothing() {
    let mut vfs = VfsInternal::<Sample, ()>::new();
    vfs.load_file("foo").unwrap();
    assert_eq!(vfs.on_changes(&[]), Ok(()));
    assert_eq!(vfs.file_is_synced("foo"), Ok(true));
    assert!(!vfs.has_changes());
}

#[test]
fn changes_lists_changed_files_only() {
    let mut vfs = VfsInternal::<Sample, ()>::new();
    vfs.load_file("clean").unwrap();
    vfs.set_file("dirty", "text");
    vfs.set_file("saved", "text");
    vfs.file_saved("saved").unwrap();
    assert_eq!(vfs.get_changes(), vec![pair("dirty", "text")]);
    assert!(vfs.has_changes());
    assert_eq!(vfs.get_cached_files().len(), 3);
}

#[test]
fn user_data_of_unknown_file() {
    let mut vfs = VfsInternal::<Sample, i32>::new();
    assert_eq!(data_of(&mut vfs, "foo"), Err(Error::FileNotCached));
    assert_eq!(vfs.ensure_user_data("foo", |_| Ok(1)), Err(Error::FileNotCached));
    assert_eq!(vfs.set_user_data("foo", None), Err(Error::FileNotCached));
    assert!(vfs.get_cached_files().is_empty());
}

#[test]
fn with_user_data_can_change_the_data() {
    let mut vfs = VfsInternal::<Sample, i32>::new();
    vfs.load_file("foo").unwrap();
    vfs.set_user_data("foo", Some(1)).unwrap();
    let r = vfs.with_user_data("foo", |u| {
        let (text, data) = u?;
        *data += text.len() as i32;
        Ok(())
    });
    assert_eq!(r, Ok(()));
    assert_eq!(data_of(&mut vfs, "foo"), Ok(31));
    assert_eq!(vfs.file_is_synced("foo"), Ok(true));
}

#[test]
fn clear_drops_every_file() {
    let mut vfs = VfsInternal::<Sample, ()>::new();
    vfs.load_file("foo").unwrap();
    vfs.set_file("bar", "text");
    vfs.clear();
    assert!(vfs.get_cached_files().is_empty());
    assert!(!vfs.has_changes());
    assert_eq!(vfs.file_is_synced("foo"), Err(Error::FileNotCached));
}

#[test]
fn vfs_does_what_the_store_does() {
    let mut vfs = Vfs::<Sample, i32>::new();
    assert!(vfs.get_cached_files().is_empty());
    assert!(!vfs.has_changes());
    assert_eq!(vfs.flush_file("foo"), Ok(()));
    assert_eq!(vfs.file_saved("foo"), Ok(()));
    assert_eq!(vfs.file_is_synced("foo"), Err(Error::FileNotCached));
    assert_eq!(vfs.write_file("foo"), Err(Error::FileNotCached));
    assert_eq!(vfs.set_user_data("foo", Some(1)), Err(Error::FileNotCached));

    assert_eq!(vfs.load_file("foo"), Ok("foo\nHello\nWorld\nHello, World!\n".to_owned()));
    assert_eq!(vfs.load_line("foo", Line(1)), Ok("Hello\n".to_owned()));
    assert_eq!(vfs.load_line("foo", Line(5)), Err(Error::BadLocation));
    assert_eq!(vfs.file_is_synced("foo"), Ok(true));

    assert_eq!(vfs.set_user_data("foo", Some(1)), Ok(()));
    assert_eq!(vfs.with_user_data("foo", |u| u.map(|(_, data)| *data)), Ok(1));
    assert_eq!(vfs.on_changes(&[replace_in("foo", (1, 1), (1, 4), "foo")]), Ok(()));
    assert_eq!(vfs.load_file("foo"), Ok("foo\nHfooo\nWorld\nHello, World!\n".to_owned()));
    assert!(vfs.has_changes());
    assert_eq!(vfs.get_changes(), vec![pair("foo", "foo\nHfooo\nWorld\nHello, World!\n")]);
    assert_eq!(
        vfs.with_user_data("foo", |u| u.map(|(_, data)| *data)),
        Err(Error::NoUserDataForFile)
    );
    assert_eq!(vfs.ensure_user_data("foo", |text| Ok(text.len() as i32)), Ok(()));
    assert_eq!(vfs.with_user_data("foo", |u| u.map(|(_, data)| *data)), Ok(30));

    assert_eq!(vfs.write_file("foo"), Ok(()));
    assert_eq!(vfs.file_is_synced("foo"), Ok(true));
    vfs.set_file("bar", "text");
    assert_eq!(vfs.get_cached_files().len(), 2);
    assert_eq!(vfs.flush_file("foo"), Ok(()));
    assert_eq!(vfs.get_cached_files(), vec![pair("bar", "text")]);
    vfs.clear();
    assert!(vfs.get_cached_files().is_empty());
}

#[test]
fn with_user_data_of_unknown_file_does_not_call() {
    let mut vfs = VfsInternal::<Sample, i32>::new();
    let mut called = false;
    let r = vfs.with_user_data("foo", |_| {
        called = true;
        Ok(1)
    });
    assert_eq!(r, Err(Error::FileNotCached));
    assert!(!called);
    // The file was not read on that account.
    assert!(vfs.get_cached_files().is_empty());

    let mut vfs = Vfs::<Sample, i32>::new();
    let mut called = false;
    let r = vfs.with_user_data("foo", |_| {
        called = true;
        Ok(1)
    });
    assert_eq!(r, Err(Error::FileNotCached));
    assert!(!called);
    assert!(vfs.get_cached_files().is_empty());
}

#[test]
fn with_user_data_without_data_calls_with_no_user_data() {
    let mut vfs = VfsInternal::<Sample, i32>::new();
    vfs.load_file("foo").unwrap();
    let mut seen = None;
    let r = vfs.with_user_data("foo", |u| {
        seen = Some(u.map(|(_, data)| *data));
        Ok(1)
    });
    assert_eq!(r, Ok(1));
    assert_eq!(seen, Some(Err(Error::NoUserDataForFile)));
}
