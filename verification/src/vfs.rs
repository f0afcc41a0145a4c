//! The store as callers hold it.

use vstd::prelude::*;
use crate::error::Error;
use crate::file::{
    ensured_user_data, hands_user_data, kept_user_data, takes_text, takes_user_data, Change,
    FileView,
};
use crate::store::{
    after_groups, as_text, changed_files, grouped, line_result, lists, load_outcome, read_gave,
    with_loaded, with_written, FileLoader, VfsInternal,
};
use crate::text_grid::Line;

verus! {

/// A store of file buffers by path. Files are read with the loader `T` when
/// they are first asked for, and written with it on request; `U` is the
/// kind of user data that callers attach to files.
pub struct Vfs<T: FileLoader, U>(VfsInternal<T, U>);

impl<T: FileLoader, U> Vfs<T, U> {
    #[verifier::type_invariant]
    spec fn holds_each_path_once(&self) -> bool {
        self.0.wf()
    }

    /// The files that are held, by path.
    pub closed spec fn view(&self) -> Map<Seq<char>, FileView<U>> {
        self.0@
    }

    /// Creates a new store that holds no file.
    pub fn new() -> (r: Self)
        ensures
            r@ == Map::<Seq<char>, FileView<U>>::empty(),
    {
        Vfs(VfsInternal::new())
    }

    /// Takes the store proper out, and leaves an empty one.
    fn take(&mut self) -> (inner: VfsInternal<T, U>)
        ensures
            inner.wf(),
            inner@ == old(self)@,
    {
        proof {
            use_type_invariant(&*self);
        }
        let mut inner = VfsInternal::new();
        std::mem::swap(&mut self.0, &mut inner);
        inner
    }

    /// Puts the store proper back.
    fn give(&mut self, inner: VfsInternal<T, U>)
        requires
            inner.wf(),
        ensures
            final(self)@ == inner@,
    {
        let mut inner = inner;
        std::mem::swap(&mut self.0, &mut inner);
    }

    /// Records that the file at `path`, as the store holds it, has been
    /// written to disk. Nothing happens where no such file is held.
    pub fn file_saved(&mut self, path: &str) -> (r: Result<(), Error>)
        ensures
            r == Ok::<(), Error>(()),
            old(self)@.contains_key(path@) ==> final(self)@ == old(self)@.insert(
                path@,
                old(self)@[path@].saved(),
            ),
            !old(self)@.contains_key(path@) ==> final(self)@ == old(self)@,
    {
        let mut inner = self.take();
        let r = inner.file_saved(path);
        self.give(inner);
        r
    }

    /// Removes the file at `path` from the store, with what was changed in
    /// memory and with its user data. Does not check whether the file is in
    /// sync with the disk, nor whether it is held.
    pub fn flush_file(&mut self, path: &str) -> (r: Result<(), Error>)
        ensures
            r == Ok::<(), Error>(()),
            final(self)@ == old(self)@.remove(path@),
            !old(self)@.contains_key(path@) ==> final(self)@ == old(self)@,
    {
        let mut inner = self.take();
        let r = inner.flush_file(path);
        self.give(inner);
        r
    }

    /// Whether the file at `path` is as it was when it was loaded or last
    /// saved. The file has to be held.
    pub fn file_is_synced(&self, path: &str) -> (r: Result<bool, Error>)
        ensures
            self@.contains_key(path@) ==> r == Ok::<bool, Error>(!self@[path@].changed),
            !self@.contains_key(path@) ==> r == Err::<bool, Error>(Error::FileNotCached),
    {
        proof {
            use_type_invariant(self);
        }
        self.0.file_is_synced(path)
    }

    /// Records a batch of changes. The changes are sorted by file; within a
    /// file they keep their order. The files are dealt with one after the
    /// other, in the order in which the batch first names them. A file that
    /// is held takes its changes as far as they go; one that is not is read
    /// first, and held if all of its changes could be applied. The first
    /// file that fails ends the batch with its error, and what was done
    /// before stays.
    pub fn on_changes(&mut self, changes: &[Change]) -> (r: Result<(), Error>)
        ensures
            exists|loaded: Seq<Result<String, Error>>|
                {
                    &&& forall|g: int|
                        0 <= g < grouped(changes@).len() && !old(self)@.contains_key(
                            grouped(changes@)[g].0,
                        ) && after_groups(old(self)@, grouped(changes@), loaded, g).1 is Ok
                            ==> read_gave::<T>(grouped(changes@)[g].0, #[trigger] loaded[g])
                    &&& #[trigger] after_groups(
                        old(self)@,
                        grouped(changes@),
                        loaded,
                        grouped(changes@).len() as int,
                    ) == (final(self)@, r)
                },
    {
        let mut inner = self.take();
        let r = inner.on_changes(changes);
        self.give(inner);
        r
    }

    /// The path and the text of every file that is held.
    pub fn get_cached_files(&self) -> (r: Vec<(String, String)>)
        ensures
            lists(r@, self@),
    {
        proof {
            use_type_invariant(self);
        }
        self.0.get_cached_files()
    }

    /// The path and the text of every file that was changed and not saved
    /// since.
    pub fn get_changes(&self) -> (r: Vec<(String, String)>)
        ensures
            lists(r@, changed_files(self@)),
    {
        proof {
            use_type_invariant(self);
        }
        self.0.get_changes()
    }

    /// Whether any file that is held was changed and not saved since.
    pub fn has_changes(&self) -> (r: bool)
        ensures
            r == exists|path: Seq<char>| #[trigger]
                self@.contains_key(path) && self@[path].changed,
    {
        proof {
            use_type_invariant(self);
        }
        self.0.has_changes()
    }

    /// Sets the text of the file at `path`, whether it was held or not. The
    /// file counts as changed, and has no user data.
    pub fn set_file(&mut self, path: &str, text: &str)
        ensures
            final(self)@ == old(self)@.insert(path@, FileView::<U>::edited(text@)),
    {
        let mut inner = self.take();
        inner.set_file(path, text);
        self.give(inner);
    }

    /// The text of the file at `path`. A file that is not held is read
    /// first, and held from then on.
    pub fn load_file(&mut self, path: &str) -> (r: Result<String, Error>)
        ensures
            old(self)@.contains_key(path@) ==> final(self)@ == old(self)@ && as_text(r) == Ok::<
                Seq<char>,
                Error,
            >(old(self)@[path@].text),
            !old(self)@.contains_key(path@) ==> exists|loaded: Result<String, Error>|
                {
                    &&& #[trigger] call_ensures(T::read, (path,), loaded)
                    &&& final(self)@ == with_loaded(old(self)@, path@, loaded)
                    &&& as_text(r) == as_text(loaded)
                },
    {
        let mut inner = self.take();
        let r = inner.load_file(path);
        self.give(inner);
        r
    }

    /// Line `line` of the file at `path`, with the newline that ends it. A
    /// file that is not held is read first, and held from then on. A line
    /// that the file does not have is a bad location.
    pub fn load_line(&mut self, path: &str, line: Line) -> (r: Result<String, Error>)
        ensures
            old(self)@.contains_key(path@) ==> final(self)@ == old(self)@ && as_text(r)
                == line_result(old(self)@[path@].text, line),
            !old(self)@.contains_key(path@) ==> exists|loaded: Result<String, Error>|
                {
                    &&& #[trigger] call_ensures(T::read, (path,), loaded)
                    &&& final(self)@ == with_loaded(old(self)@, path@, loaded)
                    &&& as_text(r) == match loaded {
                        Ok(text) => line_result(text@, line),
                        Err(e) => Err(e),
                    }
                },
    {
        let mut inner = self.take();
        let r = inner.load_line(path, line);
        self.give(inner);
        r
    }

    /// Writes the file at `path` with the loader; after a write that went
    /// well the file counts as saved. The file has to be held.
    pub fn write_file(&mut self, path: &str) -> (r: Result<(), Error>)
        ensures
            !old(self)@.contains_key(path@) ==> final(self)@ == old(self)@ && r == Err::<
                (),
                Error,
            >(Error::FileNotCached),
            old(self)@.contains_key(path@) ==> exists|text: &str|
                {
                    &&& text@ == old(self)@[path@].text
                    &&& #[trigger] call_ensures(T::write, (path, text), r)
                    &&& final(self)@ == with_written(old(self)@, path@, r)
                },
    {
        let mut inner = self.take();
        let r = inner.write_file(path);
        self.give(inner);
        r
    }

    /// Attaches `data` to the file at `path`, or with `None` removes what
    /// is attached. The file has to be held.
    pub fn set_user_data(&mut self, path: &str, data: Option<U>) -> (r: Result<(), Error>)
        ensures
            old(self)@.contains_key(path@) ==> r == Ok::<(), Error>(()) && final(self)@ == old(
                self,
            )@.insert(path@, old(self)@[path@].with_data(data)),
            !old(self)@.contains_key(path@) ==> r == Err::<(), Error>(Error::FileNotCached)
                && final(self)@ == old(self)@,
    {
        let mut inner = self.take();
        let r = inner.set_user_data(path, data);
        self.give(inner);
        r
    }

    /// Calls `f` with the text and the user data of the file at `path`, and
    /// hands on what `f` returns. Where the file has no user data, `f` gets
    /// `NoUserDataForFile` instead. `f` may change the user data. If it
    /// returns `NoUserDataForFile`, the user data is removed. The file has
    /// to be held: where it is not, `f` is not called, and the answer is
    /// `FileNotCached`.
    pub fn with_user_data<F, R>(&mut self, path: &str, f: F) -> (r: Result<R, Error>) where
        F: FnOnce(Result<(&str, &mut U), Error>) -> Result<R, Error>,

        requires
            old(self)@.contains_key(path@) ==> takes_user_data(f, old(self)@[path@]),
        ensures
            !old(self)@.contains_key(path@) ==> final(self)@ == old(self)@ && r == Err::<R, Error>(
                Error::FileNotCached,
            ),
            old(self)@.contains_key(path@) && old(self)@[path@].user_data is None ==> final(self)@
                == old(self)@ && call_ensures(f, (Err(Error::NoUserDataForFile),), r),
            old(self)@.contains_key(path@) && old(self)@[path@].user_data is Some ==> exists|
                given: Result<(&str, &mut U), Error>,
            |
                {
                    &&& hands_user_data(given, old(self)@[path@])
                    &&& #[trigger] call_ensures(f, (given,), r)
                    &&& final(self)@ == old(self)@.insert(
                        path@,
                        old(self)@[path@].with_data(kept_user_data(r, *final(given->Ok_0.1))),
                    )
                },
    {
        let mut inner = self.take();
        let r = inner.with_user_data(path, f);
        self.give(inner);
        r
    }

    /// Makes sure that the file at `path` has user data: where it has none,
    /// calls `f` with the text and keeps what it computes. That `f` finds
    /// `NoUserDataForFile` is no failure; any other error of `f` is handed
    /// on. The file has to be held.
    pub fn ensure_user_data<F>(&mut self, path: &str, f: F) -> (r: Result<(), Error>) where
        F: FnOnce(&str) -> Result<U, Error>,

        requires
            old(self)@.contains_key(path@) && old(self)@[path@].user_data is None ==> takes_text(
                f,
                old(self)@[path@].text,
            ),
        ensures
            !old(self)@.contains_key(path@) ==> final(self)@ == old(self)@ && r == Err::<
                (),
                Error,
            >(Error::FileNotCached),
            old(self)@.contains_key(path@) ==> exists|after: FileView<U>|
                {
                    &&& #[trigger] ensured_user_data(f, old(self)@[path@], after, r)
                    &&& final(self)@ == old(self)@.insert(path@, after)
                },
    {
        let mut inner = self.take();
        let r = inner.ensure_user_data(path, f);
        self.give(inner);
        r
    }

    /// Drops every file.
    pub fn clear(&mut self)
        ensures
            final(self)@ == Map::<Seq<char>, FileView<U>>::empty(),
    {
        let mut inner = self.take();
        inner.clear();
        self.give(inner);
    }
}

} // verus!
