//! The store: the buffers of all files that are held, by path.

use std::marker::PhantomData;
use vstd::prelude::*;
use vstd::string::*;
use crate::batch::{changed_paths, changes_for, coalesce_changes, lemma_changed_paths};
use crate::encoding::same_text;
use crate::error::Error;
use crate::file::{
    ensured_user_data, hands_user_data, kept_user_data, line_text, takes_text, takes_user_data,
    Change, File, FileView,
};
use crate::text_grid::Line;

verus! {

/// Where the store gets the text of a file that it does not hold, and where
/// it puts the text of one that is to be saved.
pub trait FileLoader {
    /// Reads the text of the file at `file_name`.
    fn read(file_name: &str) -> Result<String, Error>;

    /// Writes `text` to the file at `file_name`.
    fn write(file_name: &str, text: &str) -> Result<(), Error>;
}

/// A buffer and the path that it is held under.
struct Entry<U> {
    path: String,
    file: File<U>,
}

/// No path stands twice among the entries.
spec fn distinct_paths<U>(entries: Seq<Entry<U>>) -> bool {
    forall|i: int, j: int|
        0 <= i < j < entries.len() ==> (#[trigger] entries[i]).path@ != (#[trigger] entries[j]).path@
}

/// Whether one of the entries is held under `path`.
spec fn holds<U>(entries: Seq<Entry<U>>, path: Seq<char>) -> bool {
    exists|i: int| 0 <= i < entries.len() && (#[trigger] entries[i]).path@ == path
}

/// The index of an entry that is held under `path`.
spec fn index_of<U>(entries: Seq<Entry<U>>, path: Seq<char>) -> int {
    choose|i: int| 0 <= i < entries.len() && (#[trigger] entries[i]).path@ == path
}

/// The buffers by path.
spec fn table<U>(entries: Seq<Entry<U>>) -> Map<Seq<char>, FileView<U>> {
    Map::new(
        |path: Seq<char>| holds(entries, path),
        |path: Seq<char>| entries[index_of(entries, path)].file@,
    )
}

/// Each entry is found in the table under its path.
proof fn lemma_table<U>(entries: Seq<Entry<U>>)
    requires
        distinct_paths(entries),
    ensures
        forall|i: int|
            0 <= i < entries.len() ==> table(entries).contains_key(
                (#[trigger] entries[i]).path@,
            ) && table(entries)[entries[i].path@] == entries[i].file@,
        forall|path: Seq<char>|
            table(entries).contains_key(path) ==> 0 <= index_of(entries, path) < entries.len()
                && entries[index_of(entries, path)].path@ == path,
{
    assert forall|i: int| 0 <= i < entries.len() implies table(entries).contains_key(
        (#[trigger] entries[i]).path@,
    ) && table(entries)[entries[i].path@] == entries[i].file@ by {
        let path = entries[i].path@;
        assert(holds(entries, path));
        let j = index_of(entries, path);
        assert(i == j);
    }
}

/// Putting another buffer in the place of an entry, under the same path,
/// changes the table at that path only.
proof fn lemma_table_update<U>(entries: Seq<Entry<U>>, i: int, entry: Entry<U>)
    requires
        distinct_paths(entries),
        0 <= i < entries.len(),
        entry.path@ == entries[i].path@,
    ensures
        distinct_paths(entries.update(i, entry)),
        table(entries.update(i, entry)) == table(entries).insert(entry.path@, entry.file@),
{
    let after = entries.update(i, entry);
    assert forall|j: int, k: int| 0 <= j < k < after.len() implies (#[trigger] after[j]).path@ != (
    #[trigger] after[k]).path@ by {
        assert(after[j].path@ == entries[j].path@);
        assert(after[k].path@ == entries[k].path@);
    }
    lemma_table(entries);
    lemma_table(after);
    let expected = table(entries).insert(entry.path@, entry.file@);
    assert forall|path: Seq<char>| table(after).contains_key(path) <==> expected.contains_key(
        path,
    ) by {
        if table(after).contains_key(path) {
            let j = index_of(after, path);
            assert(entries[j].path@ == path);
        }
        if table(entries).contains_key(path) {
            let j = index_of(entries, path);
            assert(after[j].path@ == path);
        }
        assert(after[i].path@ == entry.path@);
    }
    assert forall|path: Seq<char>| table(after).contains_key(path) implies table(after)[path]
        == expected[path] by {
        let j = index_of(after, path);
        if j != i {
            assert(entries[j].path@ == path);
            assert(after[j] == entries[j]);
        }
    }
    assert(table(after) =~= expected);
}

/// A new entry under a path that is not held adds that path to the table.
proof fn lemma_table_push<U>(entries: Seq<Entry<U>>, entry: Entry<U>)
    requires
        distinct_paths(entries),
        !holds(entries, entry.path@),
    ensures
        distinct_paths(entries.push(entry)),
        table(entries.push(entry)) == table(entries).insert(entry.path@, entry.file@),
{
    let after = entries.push(entry);
    assert forall|j: int, k: int| 0 <= j < k < after.len() implies (#[trigger] after[j]).path@ != (
    #[trigger] after[k]).path@ by {
        assert(after[j] == entries[j]);
        if k < entries.len() {
            assert(after[k] == entries[k]);
        }
    }
    lemma_table(entries);
    lemma_table(after);
    let expected = table(entries).insert(entry.path@, entry.file@);
    assert forall|path: Seq<char>| table(after).contains_key(path) <==> expected.contains_key(
        path,
    ) by {
        if table(after).contains_key(path) {
            let j = index_of(after, path);
            if j < entries.len() {
                assert(entries[j].path@ == path);
            }
        }
        if table(entries).contains_key(path) {
            let j = index_of(entries, path);
            assert(after[j].path@ == path);
        }
        assert(after[entries.len() as int].path@ == entry.path@);
    }
    assert forall|path: Seq<char>| table(after).contains_key(path) implies table(after)[path]
        == expected[path] by {
        let j = index_of(after, path);
        if j < entries.len() {
            assert(entries[j].path@ == path);
            assert(after[j] == entries[j]);
        }
    }
    assert(table(after) =~= expected);
}

/// Taking an entry out takes its path out of the table.
proof fn lemma_table_remove<U>(entries: Seq<Entry<U>>, i: int)
    requires
        distinct_paths(entries),
        0 <= i < entries.len(),
    ensures
        distinct_paths(entries.remove(i)),
        table(entries.remove(i)) == table(entries).remove(entries[i].path@),
{
    let after = entries.remove(i);
    assert forall|j: int| 0 <= j < after.len() implies #[trigger] after[j] == entries[if j < i {
        j
    } else {
        j + 1
    }] by {}
    assert forall|j: int, k: int| 0 <= j < k < after.len() implies (#[trigger] after[j]).path@ != (
    #[trigger] after[k]).path@ by {
        let j0 = if j < i { j } else { j + 1 };
        let k0 = if k < i { k } else { k + 1 };
        assert(after[j] == entries[j0]);
        assert(after[k] == entries[k0]);
    }
    lemma_table(entries);
    lemma_table(after);
    let expected = table(entries).remove(entries[i].path@);
    assert forall|path: Seq<char>| table(after).contains_key(path) <==> expected.contains_key(
        path,
    ) by {
        if table(after).contains_key(path) {
            let j = index_of(after, path);
            let j0 = if j < i { j } else { j + 1 };
            assert(after[j] == entries[j0]);
            assert(entries[j0].path@ == path);
        }
        if expected.contains_key(path) {
            let j0 = index_of(entries, path);
            let j = if j0 < i { j0 } else { j0 - 1 };
            assert(after[j] == entries[j0]);
            assert(after[j].path@ == path);
        }
    }
    assert forall|path: Seq<char>| table(after).contains_key(path) implies table(after)[path]
        == expected[path] by {
        let j = index_of(after, path);
        let j0 = if j < i { j } else { j + 1 };
        assert(after[j] == entries[j0]);
        assert(entries[j0].path@ == path);
    }
    assert(table(after) =~= expected);
}

/// A change to the buffer of one entry changes the table at its path only.
proof fn lemma_entry_changed<U>(before: Seq<Entry<U>>, after: Seq<Entry<U>>, i: int)
    requires
        distinct_paths(before),
        0 <= i < before.len(),
        after.len() == before.len(),
        after[i].path@ == before[i].path@,
        forall|j: int| 0 <= j < before.len() && j != i ==> after[j] == before[j],
    ensures
        distinct_paths(after),
        table(after) == table(before).insert(before[i].path@, after[i].file@),
{
    lemma_table_update(before, i, after[i]);
    assert(after =~= before.update(i, after[i]));
}

/// The files among `files` that were changed and not saved since.
pub open spec fn changed_files<U>(files: Map<Seq<char>, FileView<U>>) -> Map<
    Seq<char>,
    FileView<U>,
> {
    Map::new(|path: Seq<char>| files.contains_key(path) && files[path].changed, |path: Seq<char>| files[path])
}

/// Whether `listing` names each of `files` once, by its path, with its text,
/// and nothing else.
pub open spec fn lists<U>(listing: Seq<(String, String)>, files: Map<Seq<char>, FileView<U>>) -> bool {
    &&& forall|i: int, j: int|
        0 <= i < j < listing.len() ==> (#[trigger] listing[i]).0@ != (#[trigger] listing[j]).0@
    &&& forall|i: int|
        0 <= i < listing.len() ==> files.contains_key((#[trigger] listing[i]).0@)
            && files[listing[i].0@].text == listing[i].1@
    &&& forall|path: Seq<char>| #[trigger]
        files.contains_key(path) ==> exists|i: int|
            0 <= i < listing.len() && (#[trigger] listing[i]).0@ == path
}

/// A result that holds a string, as a result that holds its characters.
pub open spec fn as_text(r: Result<String, Error>) -> Result<Seq<char>, Error> {
    match r {
        Ok(text) => Ok(text@),
        Err(e) => Err(e),
    }
}

/// What the caller hears of a load: whether it went well.
pub open spec fn load_outcome(loaded: Result<String, Error>) -> Result<(), Error> {
    match loaded {
        Ok(_) => Ok(()),
        Err(e) => Err(e),
    }
}

/// The files held once the loader was asked for the file at `path` and gave
/// `loaded`: a text is held under `path` as a buffer that is not changed and
/// has no user data; after an error nothing is new.
pub open spec fn with_loaded<U>(
    files: Map<Seq<char>, FileView<U>>,
    path: Seq<char>,
    loaded: Result<String, Error>,
) -> Map<Seq<char>, FileView<U>> {
    match loaded {
        Ok(text) => files.insert(path, FileView::loaded(text@)),
        Err(_) => files,
    }
}

/// The files held once the file at `path` was handed to the loader for
/// writing and `written` came back: after a write that went well the file
/// counts as saved.
pub open spec fn with_written<U>(
    files: Map<Seq<char>, FileView<U>>,
    path: Seq<char>,
    written: Result<(), Error>,
) -> Map<Seq<char>, FileView<U>> {
    if written is Ok && files.contains_key(path) {
        files.insert(path, files[path].saved())
    } else {
        files
    }
}

/// Line `line` of `text`, or `BadLocation` where `text` has no such line.
pub open spec fn line_result(text: Seq<char>, line: Line) -> Result<Seq<char>, Error> {
    match line_text(text, line.0 as int) {
        Some(found) => Ok(found),
        None => Err(Error::BadLocation),
    }
}

/// The files held, and what the caller hears, once the loader gave `loaded`
/// for the file at `path` and the changes of a batch that are for it were
/// tried on that: after an error of the loader nothing is new; a text takes
/// the changes, and is held under `path` if all of them could be applied.
pub open spec fn after_loaded_group<U>(
    files: Map<Seq<char>, FileView<U>>,
    path: Seq<char>,
    changes: Seq<&Change>,
    loaded: Result<String, Error>,
) -> (Map<Seq<char>, FileView<U>>, Result<(), Error>) {
    match loaded {
        Ok(text) => if FileView::<U>::loaded(text@).accepts(changes) {
            (files.insert(path, FileView::<U>::loaded(text@).after(changes)), Ok(()))
        } else {
            (files, Err(Error::BadLocation))
        },
        Err(e) => (files, Err(e)),
    }
}

/// The files held, and what the caller hears, once the changes of a batch
/// that are for `path` were dealt with. A file that is held takes the
/// changes as far as they go. For one that is not, the loader was asked and
/// gave `loaded`: after an error nothing is new; a text takes the changes,
/// and is held from then on if all of them could be applied.
pub open spec fn after_group<U>(
    files: Map<Seq<char>, FileView<U>>,
    path: Seq<char>,
    changes: Seq<&Change>,
    loaded: Result<String, Error>,
) -> (Map<Seq<char>, FileView<U>>, Result<(), Error>) {
    if files.contains_key(path) {
        (
            files.insert(path, files[path].after(changes)),
            if files[path].accepts(changes) {
                Ok(())
            } else {
                Err(Error::BadLocation)
            },
        )
    } else {
        after_loaded_group(files, path, changes, loaded)
    }
}

/// The changes of a batch by file: for each path that the batch names, in
/// the order in which the paths first appear, the changes for it, in the
/// order in which they stand in the batch.
pub open spec fn grouped<'a>(changes: Seq<Change>) -> Seq<(Seq<char>, Seq<&'a Change>)> {
    let n = changes.len() as int;
    Seq::new(
        changed_paths(changes, n).len(),
        |g: int| (changed_paths(changes, n)[g], changes_for(changes, changed_paths(changes, n)[g], n)),
    )
}

/// The files held, and what the caller hears, once the first `n` of `groups`
/// were dealt with one after the other, where the loader gave `loaded[g]`
/// when it was asked for the file of group `g`. The first group that fails
/// ends the run; what was done for the groups before it stays.
pub open spec fn after_groups<U>(
    files: Map<Seq<char>, FileView<U>>,
    groups: Seq<(Seq<char>, Seq<&Change>)>,
    loaded: Seq<Result<String, Error>>,
    n: int,
) -> (Map<Seq<char>, FileView<U>>, Result<(), Error>)
    decreases n,
{
    if n <= 0 {
        (files, Ok(()))
    } else {
        let (reached, r) = after_groups(files, groups, loaded, n - 1);
        if r is Err {
            (reached, r)
        } else {
            after_group(reached, groups[n - 1].0, groups[n - 1].1, loaded[n - 1])
        }
    }
}

/// Whether the loader `T`, asked for the file at `path`, can have given
/// `loaded`.
pub open spec fn read_gave<T: FileLoader>(path: Seq<char>, loaded: Result<String, Error>) -> bool {
    exists|name: &str| name@ == path && #[trigger] call_ensures(T::read, (name,), loaded)
}

/// Only what the loader gave for the groups that were dealt with counts, and
/// once a group has failed the outcome stands.
pub proof fn lemma_after_groups<U>(
    files: Map<Seq<char>, FileView<U>>,
    groups: Seq<(Seq<char>, Seq<&Change>)>,
    loaded: Seq<Result<String, Error>>,
    other: Seq<Result<String, Error>>,
    k: int,
    n: int,
)
    requires
        0 <= k <= n,
        forall|g: int| 0 <= g < k ==> loaded[g] == other[g],
    ensures
        after_groups(files, groups, loaded, k) == after_groups(files, groups, other, k),
        after_groups(files, groups, loaded, k).1 is Err ==> after_groups(files, groups, loaded, n)
            == after_groups(files, groups, loaded, k),
    decreases n,
{
    if k > 0 {
        lemma_after_groups(files, groups, loaded, other, k - 1, k - 1);
    }
    if k < n {
        lemma_after_groups(files, groups, loaded, other, k, n - 1);
    }
}

/// One more group dealt with: how the run over the groups of a batch goes on.
proof fn lemma_next_group<T: FileLoader, U>(
    start: Map<Seq<char>, FileView<U>>,
    sorted: Seq<(Seq<char>, Seq<&Change>)>,
    so_far: Seq<Result<String, Error>>,
    given: Result<String, Error>,
    before: Map<Seq<char>, FileView<U>>,
    now: Map<Seq<char>, FileView<U>>,
    r: Result<(), Error>,
)
    requires
        forall|h: int, k: int| 0 <= h < k < sorted.len() ==> sorted[h].0 != sorted[k].0,
        so_far.len() < sorted.len(),
        after_groups(start, sorted, so_far, so_far.len() as int) == (before, Ok::<(), Error>(())),
        after_group(before, sorted[so_far.len() as int].0, sorted[so_far.len() as int].1, given)
            == (now, r),
        forall|h: int|
            0 <= h < so_far.len() && !start.contains_key(sorted[h].0) ==> read_gave::<T>(
                sorted[h].0,
                #[trigger] so_far[h],
            ),
        forall|h: int|
            so_far.len() <= h < sorted.len() ==> (before.contains_key(#[trigger] sorted[h].0)
                <==> start.contains_key(sorted[h].0)),
        !before.contains_key(sorted[so_far.len() as int].0) ==> read_gave::<T>(
            sorted[so_far.len() as int].0,
            given,
        ),
    ensures
        after_groups(start, sorted, so_far.push(given), so_far.len() as int + 1) == (now, r),
        forall|h: int|
            0 <= h < so_far.len() + 1 && !start.contains_key(sorted[h].0) ==> read_gave::<T>(
                sorted[h].0,
                #[trigger] so_far.push(given)[h],
            ),
        forall|h: int|
            so_far.len() + 1 <= h < sorted.len() ==> (now.contains_key(#[trigger] sorted[h].0)
                <==> start.contains_key(sorted[h].0)),
        r is Err ==> after_groups(start, sorted, so_far.push(given), sorted.len() as int) == (
            now,
            r,
        ),
        r is Err ==> forall|h: int|
            0 <= h < sorted.len() && !start.contains_key(sorted[h].0) && after_groups(
                start,
                sorted,
                so_far.push(given),
                h,
            ).1 is Ok ==> read_gave::<T>(sorted[h].0, #[trigger] so_far.push(given)[h]),
{
    let g = so_far.len() as int;
    let loaded = so_far.push(given);
    lemma_after_groups(start, sorted, loaded, so_far, g, g);
    assert(loaded[g] == given);
    assert(after_groups(start, sorted, loaded, g + 1) == (now, r));
    assert forall|h: int| 0 <= h < g + 1 && !start.contains_key(sorted[h].0) implies read_gave::<T>(
        sorted[h].0,
        #[trigger] loaded[h],
    ) by {
        if h < g {
            assert(loaded[h] == so_far[h]);
        } else {
            assert(!before.contains_key(sorted[g].0));
        }
    }
    assert forall|h: int| g + 1 <= h < sorted.len() implies (now.contains_key(
        #[trigger] sorted[h].0,
    ) <==> start.contains_key(sorted[h].0)) by {
        assert(sorted[h].0 != sorted[g].0);
        assert(before.contains_key(sorted[h].0) <==> start.contains_key(sorted[h].0));
    }
    if r is Err {
        lemma_after_groups(start, sorted, loaded, loaded, g + 1, sorted.len() as int);
        assert forall|h: int|
            0 <= h < sorted.len() && !start.contains_key(sorted[h].0) && after_groups(
                start,
                sorted,
                loaded,
                h,
            ).1 is Ok implies read_gave::<T>(sorted[h].0, #[trigger] loaded[h]) by {
            if h > g {
                lemma_after_groups(start, sorted, loaded, loaded, g + 1, h);
            }
        }
    }
}

/// The store proper: every file that is held, by path. `T` is where files
/// that are not held are read from, and where files are written to.
pub struct VfsInternal<T, U> {
    entries: Vec<Entry<U>>,
    loader: PhantomData<T>,
}

impl<T, U> VfsInternal<T, U> {
    /// No path is held twice.
    pub closed spec fn wf(&self) -> bool {
        distinct_paths(self.entries@)
    }

    /// The files that are held, by path.
    pub closed spec fn view(&self) -> Map<Seq<char>, FileView<U>> {
        table(self.entries@)
    }
}

impl<T: FileLoader, U> VfsInternal<T, U> {
    /// A store that holds no file.
    pub fn new() -> (r: Self)
        ensures
            r.wf(),
            r@ == Map::<Seq<char>, FileView<U>>::empty(),
    {
        let r = VfsInternal { entries: Vec::new(), loader: PhantomData };
        assert(r@ =~= Map::<Seq<char>, FileView<U>>::empty());
        r
    }

    /// Drops every file.
    pub fn clear(&mut self)
        ensures
            final(self).wf(),
            final(self)@ == Map::<Seq<char>, FileView<U>>::empty(),
    {
        self.entries = Vec::new();
        assert(self@ =~= Map::<Seq<char>, FileView<U>>::empty());
    }

    /// Where the file at `path` is held, if it is.
    fn position(&self, path: &str) -> (r: Option<usize>)
        requires
            self.wf(),
        ensures
            match r {
                Some(i) => {
                    &&& i < self.entries@.len()
                    &&& self.entries@[i as int].path@ == path@
                    &&& self@.contains_key(path@)
                    &&& self@[path@] == self.entries@[i as int].file@
                },
                None => !self@.contains_key(path@),
            },
    {
        proof {
            lemma_table(self.entries@);
        }
        let mut i: usize = 0;
        while i < self.entries.len()
            invariant
                self.wf(),
                i <= self.entries@.len(),
                forall|j: int| 0 <= j < i ==> (#[trigger] self.entries@[j]).path@ != path@,
            decreases self.entries@.len() - i,
        {
            if same_text(self.entries[i].path.as_str(), path) {
                proof {
                    lemma_table(self.entries@);
                }
                return Some(i);
            }
            i = i + 1;
        }
        proof {
            lemma_table(self.entries@);
        }
        None
    }

    /// Holds `file` under `path`, in place of what was held there.
    fn put(&mut self, path: &str, file: File<U>)
        requires
            old(self).wf(),
        ensures
            final(self).wf(),
            final(self)@ == old(self)@.insert(path@, file@),
    {
        match self.position(path) {
            Some(i) => {
                self.entries[i].file = file;
                proof {
                    lemma_table_update(old(self).entries@, i as int, self.entries@[i as int]);
                    assert(self.entries@ =~= old(self).entries@.update(
                        i as int,
                        self.entries@[i as int],
                    ));
                }
            },
            None => {
                let entry = Entry { path: path.to_owned(), file };
                proof {
                    lemma_table(self.entries@);
                    lemma_table_push(self.entries@, entry);
                }
                self.entries.push(entry);
            },
        }
    }

    /// Records that the file at `path`, as the store holds it, has been
    /// written to disk. Nothing happens where no such file is held.
    pub fn file_saved(&mut self, path: &str) -> (r: Result<(), Error>)
        requires
            old(self).wf(),
        ensures
            final(self).wf(),
            r == Ok::<(), Error>(()),
            old(self)@.contains_key(path@) ==> final(self)@ == old(self)@.insert(
                path@,
                old(self)@[path@].saved(),
            ),
            !old(self)@.contains_key(path@) ==> final(self)@ == old(self)@,
    {
        if let Some(i) = self.position(path) {
            self.entries[i].file.mark_saved();
            proof {
                lemma_table_update(old(self).entries@, i as int, self.entries@[i as int]);
                assert(self.entries@ =~= old(self).entries@.update(
                    i as int,
                    self.entries@[i as int],
                ));
            }
        }
        Ok(())
    }

    /// Removes the file at `path` from the store, with what was changed in
    /// memory and with its user data. The disk is not touched. Nothing
    /// happens where no such file is held.
    pub fn flush_file(&mut self, path: &str) -> (r: Result<(), Error>)
        requires
            old(self).wf(),
        ensures
            final(self).wf(),
            r == Ok::<(), Error>(()),
            final(self)@ == old(self)@.remove(path@),
            !old(self)@.contains_key(path@) ==> final(self)@ == old(self)@,
    {
        match self.position(path) {
            Some(i) => {
                proof {
                    lemma_table_remove(self.entries@, i as int);
                }
                self.entries.remove(i);
            },
            None => {
                assert(self@ =~= old(self)@.remove(path@));
            },
        }
        Ok(())
    }

    /// Whether the file at `path` is as it was when it was loaded or last
    /// saved. The file has to be held.
    pub fn file_is_synced(&self, path: &str) -> (r: Result<bool, Error>)
        requires
            self.wf(),
        ensures
            self@.contains_key(path@) ==> r == Ok::<bool, Error>(!self@[path@].changed),
            !self@.contains_key(path@) ==> r == Err::<bool, Error>(Error::FileNotCached),
    {
        match self.position(path) {
            Some(i) => Ok(!self.entries[i].file.changed()),
            None => Err(Error::FileNotCached),
        }
    }

    /// Sets the text of the file at `path`, whether it was held or not. The
    /// file counts as changed, and has no user data.
    pub fn set_file(&mut self, path: &str, text: &str)
        requires
            old(self).wf(),
        ensures
            final(self).wf(),
            final(self)@ == old(self)@.insert(path@, FileView::<U>::edited(text@)),
    {
        self.put(path, File::from_edit(text.to_owned()));
    }

    /// Attaches `data` to the file at `path`, or with `None` removes what
    /// is attached. The file has to be held.
    pub fn set_user_data(&mut self, path: &str, data: Option<U>) -> (r: Result<(), Error>)
        requires
            old(self).wf(),
        ensures
            final(self).wf(),
            old(self)@.contains_key(path@) ==> r == Ok::<(), Error>(()) && final(self)@ == old(
                self,
            )@.insert(path@, old(self)@[path@].with_data(data)),
            !old(self)@.contains_key(path@) ==> r == Err::<(), Error>(Error::FileNotCached)
                && final(self)@ == old(self)@,
    {
        match self.position(path) {
            Some(i) => {
                self.entries[i].file.set_user_data(data);
                proof {
                    lemma_entry_changed(old(self).entries@, self.entries@, i as int);
                }
                Ok(())
            },
            None => Err(Error::FileNotCached),
        }
    }

    /// Whether any file that is held was changed and not saved since.
    pub fn has_changes(&self) -> (r: bool)
        requires
            self.wf(),
        ensures
            r == exists|path: Seq<char>| #[trigger]
                self@.contains_key(path) && self@[path].changed,
    {
        proof {
            lemma_table(self.entries@);
        }
        let mut i: usize = 0;
        while i < self.entries.len()
            invariant
                self.wf(),
                i <= self.entries@.len(),
                forall|j: int| 0 <= j < i ==> !(#[trigger] self.entries@[j]).file@.changed,
            decreases self.entries@.len() - i,
        {
            if self.entries[i].file.changed() {
                proof {
                    lemma_table(self.entries@);
                    assert(self@.contains_key(self.entries@[i as int].path@));
                }
                return true;
            }
            i = i + 1;
        }
        false
    }

    /// The path and the text of every file that is held.
    pub fn get_cached_files(&self) -> (r: Vec<(String, String)>)
        requires
            self.wf(),
        ensures
            lists(r@, self@),
    {
        proof {
            lemma_table(self.entries@);
        }
        let mut listing: Vec<(String, String)> = Vec::new();
        let mut i: usize = 0;
        while i < self.entries.len()
            invariant
                i <= self.entries@.len(),
                listing@.len() == i,
                forall|j: int|
                    0 <= j < i ==> (#[trigger] listing@[j]).0@ == self.entries@[j].path@
                        && listing@[j].1@ == self.entries@[j].file@.text,
            decreases self.entries@.len() - i,
        {
            let entry = &self.entries[i];
            listing.push((entry.path.clone(), entry.file.text().to_owned()));
            i = i + 1;
        }
        assert forall|path: Seq<char>| #[trigger] self@.contains_key(path) implies exists|i: int|
            0 <= i < listing@.len() && (#[trigger] listing@[i]).0@ == path by {
            let j = index_of(self.entries@, path);
            assert(listing@[j].0@ == path);
        }
        listing
    }

    /// The path and the text of every file that was changed and not saved
    /// since.
    pub fn get_changes(&self) -> (r: Vec<(String, String)>)
        requires
            self.wf(),
        ensures
            lists(r@, changed_files(self@)),
    {
        proof {
            lemma_table(self.entries@);
        }
        let mut listing: Vec<(String, String)> = Vec::new();
        let ghost mut from: Seq<int> = Seq::empty();
        let mut i: usize = 0;
        while i < self.entries.len()
            invariant
                i <= self.entries@.len(),
                listing@.len() == from.len(),
                forall|k: int|
                    0 <= k < from.len() ==> {
                        &&& 0 <= #[trigger] from[k] < i
                        &&& self.entries@[from[k]].file@.changed
                        &&& listing@[k].0@ == self.entries@[from[k]].path@
                        &&& listing@[k].1@ == self.entries@[from[k]].file@.text
                    },
                forall|k: int, l: int| 0 <= k < l < from.len() ==> from[k] < from[l],
                forall|j: int|
                    0 <= j < i && (#[trigger] self.entries@[j]).file@.changed ==> exists|k: int|
                        0 <= k < from.len() && #[trigger] from[k] == j,
            decreases self.entries@.len() - i,
        {
            let entry = &self.entries[i];
            if entry.file.changed() {
                listing.push((entry.path.clone(), entry.file.text().to_owned()));
                proof {
                    let ghost earlier = from;
                    from = from.push(i as int);
                    assert forall|j: int|
                        0 <= j < i + 1 && (#[trigger] self.entries@[j]).file@.changed implies exists|
                        k: int,
                    |
                        0 <= k < from.len() && #[trigger] from[k] == j by {
                        if j < i {
                            let k = choose|k: int| 0 <= k < earlier.len() && #[trigger] earlier[k] == j;
                            assert(from[k] == j);
                        } else {
                            assert(from[earlier.len() as int] == j);
                        }
                    }
                }
            }
            i = i + 1;
        }
        proof {
            let files = changed_files(self@);
            assert forall|k: int, l: int| 0 <= k < l < listing@.len() implies (
            #[trigger] listing@[k]).0@ != (#[trigger] listing@[l]).0@ by {
                assert(from[k] < from[l]);
            }
            assert forall|k: int| 0 <= k < listing@.len() implies files.contains_key(
                (#[trigger] listing@[k]).0@,
            ) && files[listing@[k].0@].text == listing@[k].1@ by {
                let j = from[k];
                assert(self@.contains_key(self.entries@[j].path@));
            }
            assert forall|path: Seq<char>| #[trigger] files.contains_key(path) implies exists|
                k: int,
            |
                0 <= k < listing@.len() && (#[trigger] listing@[k]).0@ == path by {
                let j = index_of(self.entries@, path);
                assert(self.entries@[j].file@.changed);
                let k = choose|k: int| 0 <= k < from.len() && #[trigger] from[k] == j;
                assert(listing@[k].0@ == path);
            }
        }
        listing
    }

    /// Takes what the loader gave for the file at `path`: a text is held
    /// from now on, as a buffer that is not changed and has no user data
    /// (in place of what was held under `path`, if anything was); an error
    /// is handed on.
    pub fn cache_loaded(&mut self, path: &str, loaded: Result<String, Error>) -> (r: Result<
        (),
        Error,
    >)
        requires
            old(self).wf(),
        ensures
            final(self).wf(),
            final(self)@ == with_loaded(old(self)@, path@, loaded),
            r == load_outcome(loaded),
    {
        match loaded {
            Ok(text) => {
                self.put(path, File::from_text(text));
                Ok(())
            },
            Err(e) => Err(e),
        }
    }

    /// Makes sure that the file at `path` is held: where it is not, the
    /// loader is asked for it.
    pub fn ensure_file(&mut self, path: &str) -> (r: Result<(), Error>)
        requires
            old(self).wf(),
        ensures
            final(self).wf(),
            old(self)@.contains_key(path@) ==> final(self)@ == old(self)@ && r == Ok::<(), Error>(
                (),
            ),
            !old(self)@.contains_key(path@) ==> exists|loaded: Result<String, Error>|
                {
                    &&& #[trigger] call_ensures(T::read, (path,), loaded)
                    &&& final(self)@ == with_loaded(old(self)@, path@, loaded)
                    &&& r == load_outcome(loaded)
                },
    {
        match self.position(path) {
            Some(_) => Ok(()),
            None => {
                let loaded = T::read(path);
                self.cache_loaded(path, loaded)
            },
        }
    }

    /// The text of the file at `path`. A file that is not held is asked of
    /// the loader first, and held from then on.
    pub fn load_file(&mut self, path: &str) -> (r: Result<String, Error>)
        requires
            old(self).wf(),
        ensures
            final(self).wf(),
            old(self)@.contains_key(path@) ==> final(self)@ == old(self)@ && as_text(r) == Ok::<
                Seq<char>,
                Error,
            >(old(self)@[path@].text),
            !old(self)@.contains_key(path@) ==> exists|loaded: Result<String, Error>|
                {
                    &&& #[trigger] call_ensures(T::read, (path,), loaded)
                    &&& final(self)@ == with_loaded(old(self)@, path@, loaded)
                    &&& as_text(r) == as_text(loaded)
                },
    {
        if let Err(e) = self.ensure_file(path) {
            return Err(e);
        }
        match self.position(path) {
            Some(i) => Ok(self.entries[i].file.text().to_owned()),
            None => Err(Error::FileNotCached),
        }
    }

    /// Line `line` of the file at `path`, with the newline that ends it. A
    /// file that is not held is asked of the loader first, and held from
    /// then on. A line that the file does not have is a bad location.
    pub fn load_line(&mut self, path: &str, line: Line) -> (r: Result<String, Error>)
        requires
            old(self).wf(),
        ensures
            final(self).wf(),
            old(self)@.contains_key(path@) ==> final(self)@ == old(self)@ && as_text(r)
                == line_result(old(self)@[path@].text, line),
            !old(self)@.contains_key(path@) ==> exists|loaded: Result<String, Error>|
                {
                    &&& #[trigger] call_ensures(T::read, (path,), loaded)
                    &&& final(self)@ == with_loaded(old(self)@, path@, loaded)
                    &&& as_text(r) == match loaded {
                        Ok(text) => line_result(text@, line),
                        Err(e) => Err(e),
                    }
                },
    {
        if let Err(e) = self.ensure_file(path) {
            return Err(e);
        }
        match self.position(path) {
            Some(i) => match self.entries[i].file.load_line(line) {
                Ok(found) => Ok(found.to_owned()),
                Err(e) => Err(e),
            },
            None => Err(Error::FileNotCached),
        }
    }

    /// Takes what the loader answered when it was handed the file at `path`
    /// for writing: after a write that went well the file counts as saved.
    /// The answer is handed on.
    pub fn mark_written(&mut self, path: &str, written: Result<(), Error>) -> (r: Result<
        (),
        Error,
    >)
        requires
            old(self).wf(),
        ensures
            final(self).wf(),
            final(self)@ == with_written(old(self)@, path@, written),
            r == written,
    {
        if written.is_ok() {
            let _ = self.file_saved(path);
        }
        written
    }

    /// Hands the file at `path` to the loader for writing; after a write
    /// that went well the file counts as saved. The file has to be held.
    pub fn write_file(&mut self, path: &str) -> (r: Result<(), Error>)
        requires
            old(self).wf(),
        ensures
            final(self).wf(),
            !old(self)@.contains_key(path@) ==> final(self)@ == old(self)@ && r == Err::<
                (),
                Error,
            >(Error::FileNotCached),
            old(self)@.contains_key(path@) ==> exists|text: &str|
                {
                    &&& text@ == old(self)@[path@].text
                    &&& #[trigger] call_ensures(T::write, (path, text), r)
                    &&& final(self)@ == with_written(old(self)@, path@, r)
                },
    {
        match self.position(path) {
            Some(i) => {
                let written = T::write(path, self.entries[i].file.text());
                self.mark_written(path, written)
            },
            None => Err(Error::FileNotCached),
        }
    }

    /// Calls `f` with the text and the user data of the file at `path`, and
    /// hands on what `f` returns. Where the file has no user data, `f` gets
    /// `NoUserDataForFile` instead. `f` may change the user data. If it
    /// returns `NoUserDataForFile`, the user data is removed. The file has
    /// to be held: where it is not, `f` is not called, and the answer is
    /// `FileNotCached`.
    pub fn with_user_data<F, R>(&mut self, path: &str, f: F) -> (r: Result<R, Error>) where
        F: FnOnce(Result<(&str, &mut U), Error>) -> Result<R, Error>,

        requires
            old(self).wf(),
            old(self)@.contains_key(path@) ==> takes_user_data(f, old(self)@[path@]),
        ensures
            final(self).wf(),
            !old(self)@.contains_key(path@) ==> final(self)@ == old(self)@ && r == Err::<R, Error>(
                Error::FileNotCached,
            ),
            old(self)@.contains_key(path@) && old(self)@[path@].user_data is None ==> final(self)@
                == old(self)@ && call_ensures(f, (Err(Error::NoUserDataForFile),), r),
            old(self)@.contains_key(path@) && old(self)@[path@].user_data is Some ==> exists|
                given: Result<(&str, &mut U), Error>,
            |
                {
                    &&& hands_user_data(given, old(self)@[path@])
                    &&& #[trigger] call_ensures(f, (given,), r)
                    &&& final(self)@ == old(self)@.insert(
                        path@,
                        old(self)@[path@].with_data(kept_user_data(r, *final(given->Ok_0.1))),
                    )
                },
    {
        match self.position(path) {
            Some(i) => {
                let r = self.entries[i].file.with_user_data(f);
                proof {
                    lemma_entry_changed(old(self).entries@, self.entries@, i as int);
                    if old(self)@[path@].user_data is None {
                        assert(self@ =~= old(self)@);
                    }
                }
                r
            },
            None => Err(Error::FileNotCached),
        }
    }

    /// Makes sure that the file at `path` has user data: where it has none,
    /// calls `f` with the text and keeps what it computes. That `f` finds
    /// `NoUserDataForFile` is no failure; any other error of `f` is handed
    /// on. The file has to be held.
    pub fn ensure_user_data<F>(&mut self, path: &str, f: F) -> (r: Result<(), Error>) where
        F: FnOnce(&str) -> Result<U, Error>,

        requires
            old(self).wf(),
            old(self)@.contains_key(path@) && old(self)@[path@].user_data is None ==> takes_text(
                f,
                old(self)@[path@].text,
            ),
        ensures
            final(self).wf(),
            !old(self)@.contains_key(path@) ==> final(self)@ == old(self)@ && r == Err::<
                (),
                Error,
            >(Error::FileNotCached),
            old(self)@.contains_key(path@) ==> exists|after: FileView<U>|
                {
                    &&& #[trigger] ensured_user_data(f, old(self)@[path@], after, r)
                    &&& final(self)@ == old(self)@.insert(path@, after)
                },
    {
        match self.position(path) {
            Some(i) => {
                let r = self.entries[i].file.ensure_user_data(f);
                proof {
                    lemma_entry_changed(old(self).entries@, self.entries@, i as int);
                    assert(ensured_user_data(
                        f,
                        old(self)@[path@],
                        self.entries@[i as int].file@,
                        r,
                    ));
                }
                r
            },
            None => Err(Error::FileNotCached),
        }
    }

    /// Deals with the changes of a batch that are for the file at `path`,
    /// which the loader was asked for and gave `loaded`: an error is handed
    /// on; a text takes the changes, and is held from then on if all of
    /// them could be applied (in place of what was held under `path`, if
    /// anything was).
    pub fn change_loaded(
        &mut self,
        path: &str,
        loaded: Result<String, Error>,
        changes: &[&Change],
    ) -> (r: Result<(), Error>)
        requires
            old(self).wf(),
        ensures
            final(self).wf(),
            (final(self)@, r) == after_loaded_group(old(self)@, path@, changes@, loaded),
    {
        let text = match loaded {
            Ok(text) => text,
            Err(e) => { return Err(e); },
        };
        let mut file = File::from_text(text);
        match file.make_change(changes) {
            Ok(()) => {
                self.put(path, file);
                Ok(())
            },
            Err(e) => Err(e),
        }
    }

    /// Deals with the changes of a batch that are for the file at `path`. A
    /// file that is held takes them as far as they go. One that is not is
    /// asked of the loader first, and is held from then on if all of the
    /// changes could be applied to it.
    pub fn change_file(&mut self, path: &str, changes: &[&Change]) -> (r: Result<(), Error>)
        requires
            old(self).wf(),
        ensures
            final(self).wf(),
            exists|loaded: Result<String, Error>|
                {
                    &&& !old(self)@.contains_key(path@) ==> call_ensures(T::read, (path,), loaded)
                    &&& #[trigger] after_group(old(self)@, path@, changes@, loaded) == (
                        final(self)@,
                        r,
                    )
                },
    {
        match self.position(path) {
            Some(i) => {
                let r = self.entries[i].file.make_change(changes);
                proof {
                    lemma_entry_changed(old(self).entries@, self.entries@, i as int);
                    let any: Result<String, Error> = Err(Error::FileNotCached);
                    assert(after_group(old(self)@, path@, changes@, any) == (self@, r));
                }
                r
            },
            None => {
                let loaded = T::read(path);
                let r = self.change_loaded(path, loaded, changes);
                assert(after_group(old(self)@, path@, changes@, loaded) == (self@, r));
                r
            },
        }
    }

    /// Applies a batch of changes. The changes are sorted by file; within a
    /// file they keep their order. Then the files are dealt with one after
    /// the other, in the order in which the batch first names them, as
    /// `change_file` does. The first file that fails ends the batch with
    /// its error, and what was done before stays.
    pub fn on_changes(&mut self, changes: &[Change]) -> (r: Result<(), Error>)
        requires
            old(self).wf(),
        ensures
            final(self).wf(),
            exists|loaded: Seq<Result<String, Error>>|
                {
                    &&& forall|g: int|
                        0 <= g < grouped(changes@).len() && !old(self)@.contains_key(
                            grouped(changes@)[g].0,
                        ) && after_groups(old(self)@, grouped(changes@), loaded, g).1 is Ok
                            ==> read_gave::<T>(grouped(changes@)[g].0, #[trigger] loaded[g])
                    &&& #[trigger] after_groups(
                        old(self)@,
                        grouped(changes@),
                        loaded,
                        grouped(changes@).len() as int,
                    ) == (final(self)@, r)
                },
    {
        let groups = coalesce_changes(changes);
        let ghost sorted = grouped(changes@);
        let ghost mut loaded: Seq<Result<String, Error>> = Seq::empty();
        proof {
            lemma_changed_paths(changes@, changes@.len() as int);
        }
        let mut g: usize = 0;
        while g < groups.len()
            invariant
                self.wf(),
                g <= groups@.len(),
                groups@.len() == sorted.len(),
                sorted == grouped(changes@),
                forall|h: int|
                    0 <= h < groups@.len() ==> (#[trigger] groups@[h]).0@ == sorted[h].0
                        && groups@[h].1@ == sorted[h].1,
                forall|h: int, k: int| 0 <= h < k < sorted.len() ==> sorted[h].0 != sorted[k].0,
                loaded.len() == g,
                after_groups(old(self)@, sorted, loaded, g as int) == (self@, Ok::<(), Error>(())),
                forall|h: int|
                    0 <= h < g && !old(self)@.contains_key(sorted[h].0) ==> read_gave::<T>(
                        sorted[h].0,
                        #[trigger] loaded[h],
                    ),
                forall|h: int|
                    g <= h < sorted.len() ==> (self@.contains_key(#[trigger] sorted[h].0)
                        <==> old(self)@.contains_key(sorted[h].0)),
            decreases groups@.len() - g,
        {
            let path = groups[g].0;
            let ghost before = self@;
            let r = self.change_file(path, groups[g].1.as_slice());
            proof {
                let given = choose|given: Result<String, Error>|
                    {
                        &&& !before.contains_key(path@) ==> call_ensures(T::read, (path,), given)
                        &&& #[trigger] after_group(before, path@, groups@[g as int].1@, given) == (
                            self@,
                            r,
                        )
                    };
                assert(groups@[g as int].0@ == sorted[g as int].0);
                lemma_next_group::<T, U>(old(self)@, sorted, loaded, given, before, self@, r);
                loaded = loaded.push(given);
            }
            if let Err(e) = r {
                return Err(e);
            }
            g = g + 1;
        }
        Ok(())
    }
}

} // verus!
