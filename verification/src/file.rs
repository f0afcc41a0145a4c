//! One file's buffer, and the edits that change it.

use vstd::prelude::*;
use vstd::string::*;
use vstd::utf8::*;
use crate::encoding::{
    byte_in_str, byte_offset, lemma_between_boundaries, lemma_encode_concat,
    lemma_offset_is_boundary,
};
use crate::error::Error;
use crate::text_grid::{line_index, make_line_indices, Column, Line, Span};

verus! {

/// What a buffer holds, as far as callers can tell.
pub struct FileView<U> {
    /// The current text.
    pub text: Seq<char>,
    /// Whether the text was changed in memory since it was last loaded or
    /// acknowledged as saved.
    pub changed: bool,
    /// What the caller derived from the text and left here, if anything.
    pub user_data: Option<U>,
}

/// The byte range that line `line` takes in the encoding of `text`, the
/// newline that ends it included: from its entry in the line index to the
/// next one. There is none where the index has no such pair of entries, or
/// where they do not name a range of whole characters within the text.
pub open spec fn line_range(text: Seq<char>, line: int) -> Option<(int, int)> {
    let bytes = encode_utf8(text);
    let index = line_index(bytes);
    if 0 <= line && line + 1 < index.len() {
        let start = index[line] as int;
        let end = index[line + 1] as int;
        if start <= end <= bytes.len() && is_char_boundary(bytes, start) && is_char_boundary(
            bytes,
            end,
        ) {
            Some((start, end))
        } else {
            None
        }
    } else {
        None
    }
}

/// The characters between two byte offsets of the encoding of `text`.
pub open spec fn text_between(text: Seq<char>, from: int, to: int) -> Seq<char> {
    decode_utf8(encode_utf8(text).subrange(from, to))
}

/// The text of line `line`, with the newline that ends it.
pub open spec fn line_text(text: Seq<char>, line: int) -> Option<Seq<char>> {
    match line_range(text, line) {
        Some((start, end)) => Some(text_between(text, start, end)),
        None => None,
    }
}

/// The byte offset in `text` of character column `col` of line `line`. The
/// column just past the last character of the line is accepted.
pub open spec fn position_offset(text: Seq<char>, line: int, col: int) -> Option<int> {
    match line_range(text, line) {
        Some((start, end)) => match byte_offset(text_between(text, start, end), col) {
            Some(offset) => Some(start + offset),
            None => None,
        },
        None => None,
    }
}

/// The byte range that an edit replaces. It begins at the start of `span`.
/// With a length it runs for `len` characters from there; without one it ends
/// at the end of `span`.
pub open spec fn edit_range(text: Seq<char>, span: Span, len: Option<u64>) -> Option<(int, int)> {
    match position_offset(text, span.start.0.0 as int, span.start.1.0 as int) {
        Some(start) => match len {
            Some(n) => match byte_offset(
                text_between(text, start, encode_utf8(text).len() as int),
                n as int,
            ) {
                Some(offset) => Some((start, start + offset)),
                None => None,
            },
            None => match position_offset(text, span.end.0.0 as int, span.end.1.0 as int) {
                Some(end) => Some((start, end)),
                None => None,
            },
        },
        None => None,
    }
}

/// `text` with the bytes before `start`, then `with`, then the bytes from
/// `end` on.
pub open spec fn splice(text: Seq<char>, start: int, end: int, with: Seq<char>) -> Seq<char> {
    let bytes = encode_utf8(text);
    decode_utf8(
        bytes.subrange(0, start) + encode_utf8(with) + bytes.subrange(end, bytes.len() as int),
    )
}

/// A change to the text of one file.
#[derive(Debug)]
pub enum Change {
    /// Sets the whole text of the file.
    AddFile { file: String, text: String },
    /// Replaces a range of the text of the file.
    ReplaceText {
        file: String,
        /// The range to replace, by line and column.
        span: Span,
        /// Length in characters of the range to replace. If present, the
        /// range runs that far from the start of `span`, and the end of
        /// `span` is not looked at: some editors cannot tell it.
        len: Option<u64>,
        /// The text to put in place of the range.
        text: String,
    },
}

impl Change {
    /// The path of the file that the change is for.
    pub open spec fn path(&self) -> Seq<char> {
        match self {
            Change::AddFile { file, .. } => file@,
            Change::ReplaceText { file, .. } => file@,
        }
    }

    /// The path of the file that the change is for.
    pub fn file(&self) -> (r: &str)
        ensures
            r@ == self.path(),
    {
        match self {
            Change::AddFile { file, .. } => file.as_str(),
            Change::ReplaceText { file, .. } => file.as_str(),
        }
    }
}

/// The text that `change` makes of `text`, or nothing where its range is not
/// in `text`.
pub open spec fn apply_change(text: Seq<char>, change: &Change) -> Option<Seq<char>> {
    match change {
        Change::AddFile { text: whole, .. } => Some(whole@),
        Change::ReplaceText { span, len, text: with, .. } => match edit_range(text, *span, *len) {
            Some((start, end)) => Some(splice(text, start, end, with@)),
            None => None,
        },
    }
}

/// The outcome of trying the first `n` of `changes` on `text`, one after the
/// other, each on the text that the one before it left: the text reached, and
/// how many changes were applied. The first change that fails ends the run,
/// and what was applied before it stays.
pub open spec fn apply_changes(text: Seq<char>, changes: Seq<&Change>, n: int) -> (Seq<char>, int)
    decreases n,
{
    if n <= 0 {
        (text, 0)
    } else {
        let (reached, applied) = apply_changes(text, changes, n - 1);
        if applied < n - 1 {
            (reached, applied)
        } else {
            match apply_change(reached, changes[n - 1]) {
                Some(next) => (next, n),
                None => (reached, applied),
            }
        }
    }
}

/// What the caller hears after user data was computed: to have found that
/// there is none is no failure, any other error is handed on.
pub open spec fn computed_outcome<U>(computed: Result<U, Error>) -> Result<(), Error> {
    match computed {
        Ok(_) => Ok(()),
        Err(Error::NoUserDataForFile) => Ok(()),
        Err(e) => Err(e),
    }
}

/// No more than the changes tried are applied, and once a change has
/// failed, trying further changes alters nothing.
pub proof fn lemma_apply_changes_stops(text: Seq<char>, changes: Seq<&Change>, k: int, n: int)
    requires
        0 <= k <= n,
    ensures
        0 <= apply_changes(text, changes, n).1 <= n,
        apply_changes(text, changes, k).1 < k ==> apply_changes(text, changes, n)
            == apply_changes(text, changes, k),
        k < n && apply_changes(text, changes, k).1 == k && apply_change(
            apply_changes(text, changes, k).0,
            changes[k],
        ) is None ==> apply_changes(text, changes, n) == apply_changes(text, changes, k),
    decreases n,
{
    if n > 0 {
        lemma_apply_changes_stops(text, changes, 0, n - 1);
        if k < n {
            lemma_apply_changes_stops(text, changes, k, n - 1);
        }
    }
}

impl<U> FileView<U> {
    /// A buffer as it is after loading `text`: not changed, no user data.
    pub open spec fn loaded(text: Seq<char>) -> Self {
        FileView { text, changed: false, user_data: None }
    }

    /// A buffer whose text was set or edited to `text`: changed, and the
    /// user data gone with the old text.
    pub open spec fn edited(text: Seq<char>) -> Self {
        FileView { text, changed: true, user_data: None }
    }

    /// The buffer once its text is acknowledged as saved.
    pub open spec fn saved(self) -> Self {
        FileView { changed: false, ..self }
    }

    /// The buffer with `data` in place of its user data.
    pub open spec fn with_data(self, data: Option<U>) -> Self {
        FileView { user_data: data, ..self }
    }

    /// The buffer once a computation of its user data gave `computed`: a
    /// value is kept, `NoUserDataForFile` leaves the buffer without user
    /// data, and after any other error the user data is as it was.
    pub open spec fn with_computed(self, computed: Result<U, Error>) -> Self {
        match computed {
            Ok(data) => self.with_data(Some(data)),
            Err(Error::NoUserDataForFile) => self.with_data(None),
            Err(_) => self,
        }
    }

    /// Whether every one of `changes` can be applied, in order.
    pub open spec fn accepts(self, changes: Seq<&Change>) -> bool {
        apply_changes(self.text, changes, changes.len() as int).1 == changes.len()
    }

    /// The buffer after a batch of changes. Where all were applied, and
    /// where some were, it holds the text reached, is changed, and has no
    /// user data. Where the first change failed, nothing has happened.
    pub open spec fn after(self, changes: Seq<&Change>) -> Self {
        let (reached, applied) = apply_changes(self.text, changes, changes.len() as int);
        if applied == changes.len() || applied > 0 {
            Self::edited(reached)
        } else {
            self
        }
    }
}

/// Whether `given` is what `with_user_data` hands over for a buffer like
/// `file` that has user data: its text, and the user data to work on.
pub open spec fn hands_user_data<U>(given: Result<(&str, &mut U), Error>, file: FileView<U>) -> bool {
    &&& file.user_data is Some
    &&& given matches Ok(pair)
    &&& pair.0@ == file.text
    &&& *pair.1 == file.user_data->0
}

/// Whether `f` can be called by `with_user_data` for a buffer like `file`:
/// with its text and user data, or with `NoUserDataForFile` where it has none.
pub open spec fn takes_user_data<U, R, F>(f: F, file: FileView<U>) -> bool where
    F: FnOnce(Result<(&str, &mut U), Error>) -> Result<R, Error>,
 {
    match file.user_data {
        None => call_requires(f, (Err(Error::NoUserDataForFile),)),
        Some(_) => forall|given: Result<(&str, &mut U), Error>|
            hands_user_data(given, file) ==> call_requires(f, (given,)),
    }
}

/// The user data that stays after `with_user_data`, where the call that it
/// made returned `r` and left the user data as `left`: `NoUserDataForFile`
/// says that there is none any more.
pub open spec fn kept_user_data<U, R>(r: Result<R, Error>, left: U) -> Option<U> {
    if r matches Err(Error::NoUserDataForFile) {
        None
    } else {
        Some(left)
    }
}

/// Whether `f` can be handed `text` to compute user data from.
pub open spec fn takes_text<U, F>(f: F, text: Seq<char>) -> bool where
    F: FnOnce(&str) -> Result<U, Error>,
 {
    forall|given: &str| given@ == text ==> call_requires(f, (given,))
}

/// Whether `after` and `r` are what `ensure_user_data` with `f` can make of
/// the buffer `before`. Where user data is attached nothing happens. Where
/// none is, `f` was handed the text, and what it computed was kept.
pub open spec fn ensured_user_data<U, F>(
    f: F,
    before: FileView<U>,
    after: FileView<U>,
    r: Result<(), Error>,
) -> bool where F: FnOnce(&str) -> Result<U, Error> {
    match before.user_data {
        Some(_) => after == before && r == Ok::<(), Error>(()),
        None => exists|given: &str, computed: Result<U, Error>|
            {
                &&& given@ == before.text
                &&& #[trigger] call_ensures(f, (given,), computed)
                &&& after == before.with_computed(computed)
                &&& r == computed_outcome(computed)
            },
    }
}

/// A text together with the table of where its lines begin.
struct Text {
    chars: String,
    line_indices: Vec<u32>,
}

impl View for Text {
    type V = Seq<char>;

    closed spec fn view(&self) -> Seq<char> {
        self.chars@
    }
}

impl Text {
    #[verifier::type_invariant]
    spec fn index_fits_text(&self) -> bool {
        self.line_indices@ == line_index(encode_utf8(self.chars@))
    }

    /// The text `chars` with its line index.
    fn new(chars: String) -> (r: Self)
        ensures
            r@ == chars@,
    {
        let line_indices = make_line_indices(chars.as_str());
        Text { chars, line_indices }
    }

    /// The text as a string.
    fn as_str(&self) -> (r: &str)
        ensures
            r@ == self@,
    {
        self.chars.as_str()
    }

    /// The table of where the lines begin.
    fn line_indices(&self) -> (r: &Vec<u32>)
        ensures
            r@ == line_index(encode_utf8(self@)),
    {
        proof {
            use_type_invariant(self);
        }
        &self.line_indices
    }

    /// The byte range of a line.
    fn line_bounds(&self, line: Line) -> (r: Option<(usize, usize)>)
        ensures
            match r {
                Some((start, end)) => line_range(self@, line.0 as int) == Some(
                    (start as int, end as int),
                ),
                None => line_range(self@, line.0 as int) is None,
            },
    {
        proof {
            use_type_invariant(self);
        }
        let i = line.0 as usize;
        let entries = self.line_indices.len();
        if entries < 2 || i > entries - 2 {
            return None;
        }
        let start = self.line_indices[i] as usize;
        let end = self.line_indices[i + 1] as usize;
        let text = self.chars.as_str();
        if start <= end && end <= text.as_bytes().len() && text.is_char_boundary(start)
            && text.is_char_boundary(end) {
            Some((start, end))
        } else {
            None
        }
    }

    /// The part of the text between two character boundaries.
    fn slice(&self, start: usize, end: usize) -> (r: &str)
        requires
            start <= end <= encode_utf8(self@).len(),
            is_char_boundary(encode_utf8(self@), start as int),
            is_char_boundary(encode_utf8(self@), end as int),
        ensures
            r@ == text_between(self@, start as int, end as int),
            encode_utf8(r@) == encode_utf8(self@).subrange(start as int, end as int),
    {
        let ghost bytes = encode_utf8(self@);
        proof {
            encode_utf8_valid_utf8(self@);
            lemma_between_boundaries(bytes, start as int, end as int);
        }
        let (head, _) = self.chars.as_str().split_at(end);
        let (_, part) = head.split_at(start);
        proof {
            assert(encode_utf8(part@) =~= bytes.subrange(start as int, end as int));
            encode_utf8_decode_utf8(part@);
        }
        part
    }

    /// The byte offset of a line and column.
    fn offset_of(&self, line: Line, col: Column) -> (r: Option<usize>)
        ensures
            match r {
                Some(offset) => {
                    &&& position_offset(self@, line.0 as int, col.0 as int) == Some(
                        offset as int,
                    )
                    &&& is_char_boundary(encode_utf8(self@), offset as int)
                },
                None => position_offset(self@, line.0 as int, col.0 as int) is None,
            },
    {
        match self.line_bounds(line) {
            None => None,
            Some((start, end)) => {
                let part = self.slice(start, end);
                match byte_in_str(part, col.0 as u64) {
                    None => None,
                    Some(within) => {
                        proof {
                            encode_utf8_valid_utf8(self@);
                            lemma_offset_is_boundary(
                                encode_utf8(self@),
                                start as int,
                                part@,
                                col.0 as int,
                            );
                        }
                        Some(start + within)
                    },
                }
            },
        }
    }

    /// The byte range that an edit replaces.
    fn range_of(&self, span: Span, len: Option<u64>) -> (r: Option<(usize, usize)>)
        ensures
            match r {
                Some((start, end)) => {
                    &&& edit_range(self@, span, len) == Some((start as int, end as int))
                    &&& is_char_boundary(encode_utf8(self@), start as int)
                    &&& is_char_boundary(encode_utf8(self@), end as int)
                },
                None => edit_range(self@, span, len) is None,
            },
    {
        let start = match self.offset_of(span.start.0, span.start.1) {
            Some(start) => start,
            None => { return None; },
        };
        match len {
            Some(n) => {
                let ghost bytes = encode_utf8(self@);
                proof {
                    encode_utf8_valid_utf8(self@);
                    is_char_boundary_start_end_of_seq(bytes);
                }
                let total = self.chars.as_str().as_bytes().len();
                let rest = self.slice(start, total);
                match byte_in_str(rest, n) {
                    None => None,
                    Some(within) => {
                        proof {
                            lemma_offset_is_boundary(bytes, start as int, rest@, n as int);
                        }
                        Some((start, start + within))
                    },
                }
            },
            None => match self.offset_of(span.end.0, span.end.1) {
                Some(end) => Some((start, end)),
                None => None,
            },
        }
    }

    /// The text with the bytes from `start` to `end` replaced by `with`.
    fn replaced(&self, start: usize, end: usize, with: &str) -> (r: String)
        requires
            is_char_boundary(encode_utf8(self@), start as int),
            is_char_boundary(encode_utf8(self@), end as int),
        ensures
            r@ == splice(self@, start as int, end as int, with@),
    {
        let (before, _) = self.chars.as_str().split_at(start);
        let (_, after) = self.chars.as_str().split_at(end);
        let mut result = before.to_owned();
        result.append(with);
        result.append(after);
        proof {
            lemma_encode_concat(before@, with@);
            lemma_encode_concat(before@ + with@, after@);
            encode_utf8_decode_utf8(result@);
        }
        result
    }

    /// The text that a change makes of the current one.
    fn changed_text(&self, change: &Change) -> (r: Option<String>)
        ensures
            match r {
                Some(text) => apply_change(self@, change) == Some(text@),
                None => apply_change(self@, change) is None,
            },
    {
        match change {
            Change::AddFile { text, .. } => Some(text.clone()),
            Change::ReplaceText { span, len, text, .. } => match self.range_of(*span, *len) {
                Some((start, end)) => Some(self.replaced(start, end, text.as_str())),
                None => None,
            },
        }
    }
}

/// The buffer of one file: its text, where its lines begin, whether it was
/// changed, and the user data attached to it.
pub struct File<U> {
    text: Text,
    changed: bool,
    user_data: Option<U>,
}

impl<U> View for File<U> {
    type V = FileView<U>;

    closed spec fn view(&self) -> FileView<U> {
        FileView { text: self.text@, changed: self.changed, user_data: self.user_data }
    }
}

impl<U> File<U> {
    /// The buffer of a file just loaded with `text`.
    pub fn from_text(text: String) -> (r: Self)
        ensures
            r@ == FileView::<U>::loaded(text@),
    {
        File { text: Text::new(text), changed: false, user_data: None }
    }

    /// The buffer of a file whose text was set in memory to `text`.
    pub fn from_edit(text: String) -> (r: Self)
        ensures
            r@ == FileView::<U>::edited(text@),
    {
        File { text: Text::new(text), changed: true, user_data: None }
    }

    /// The current text.
    pub fn text(&self) -> (r: &str)
        ensures
            r@ == self@.text,
    {
        self.text.as_str()
    }

    /// The byte offsets at which the lines of the text begin, and last the
    /// length of the text: the table is built anew with every change of the
    /// text.
    pub fn line_indices(&self) -> (r: &Vec<u32>)
        ensures
            r@ == line_index(encode_utf8(self@.text)),
    {
        self.text.line_indices()
    }

    /// Whether the text was changed since it was loaded or saved.
    pub fn changed(&self) -> (r: bool)
        ensures
            r == self@.changed,
    {
        self.changed
    }

    /// The text of one line, with the newline that ends it. A line that the
    /// file does not have is a bad location.
    pub fn load_line(&self, line: Line) -> (r: Result<&str, Error>)
        ensures
            match r {
                Ok(s) => line_text(self@.text, line.0 as int) == Some(s@),
                Err(e) => e == Error::BadLocation && line_text(self@.text, line.0 as int) is None,
            },
    {
        match self.text.line_bounds(line) {
            Some((start, end)) => Ok(self.text.slice(start, end)),
            None => Err(Error::BadLocation),
        }
    }

    /// Puts `text` in place of the current text.
    fn set_text(&mut self, text: String)
        ensures
            final(self)@ == FileView::<U>::edited(text@),
    {
        self.text = Text::new(text);
        self.changed = true;
        self.user_data = None;
    }

    /// Applies `changes` in the order given, each to the text that the one
    /// before it left. A change whose location is not in the text ends the
    /// batch with `BadLocation`; the changes before it stay applied.
    pub fn make_change(&mut self, changes: &[&Change]) -> (r: Result<(), Error>)
        ensures
            final(self)@ == old(self)@.after(changes@),
            old(self)@.accepts(changes@) ==> r == Ok::<(), Error>(()),
            !old(self)@.accepts(changes@) ==> r == Err::<(), Error>(Error::BadLocation),
    {
        let mut i: usize = 0;
        while i < changes.len()
            invariant
                i <= changes@.len(),
                apply_changes(old(self)@.text, changes@, i as int) == (self@.text, i as int),
                i == 0 ==> self@ == old(self)@,
                i > 0 ==> self@ == FileView::<U>::edited(self@.text),
            decreases changes@.len() - i,
        {
            match self.text.changed_text(changes[i]) {
                Some(text) => {
                    self.set_text(text);
                },
                None => {
                    proof {
                        lemma_apply_changes_stops(
                            old(self)@.text,
                            changes@,
                            i as int,
                            changes@.len() as int,
                        );
                    }
                    return Err(Error::BadLocation);
                },
            }
            i = i + 1;
        }
        self.changed = true;
        self.user_data = None;
        Ok(())
    }

    /// Records that the text as it stands has been written to disk.
    pub fn mark_saved(&mut self)
        ensures
            final(self)@ == old(self)@.saved(),
    {
        self.changed = false;
    }

    /// Attaches `data` to the buffer, or with `None` removes what is attached.
    pub fn set_user_data(&mut self, data: Option<U>)
        ensures
            final(self)@ == old(self)@.with_data(data),
    {
        self.user_data = data;
    }

    /// Calls `f` with the text and the user data, or with
    /// `NoUserDataForFile` where there is none, and hands on what `f`
    /// returns. `f` may change the user data. If it returns
    /// `NoUserDataForFile`, the user data is removed.
    pub fn with_user_data<F, R>(&mut self, f: F) -> (r: Result<R, Error>) where
        F: FnOnce(Result<(&str, &mut U), Error>) -> Result<R, Error>,

        requires
            takes_user_data(f, old(self)@),
        ensures
            old(self)@.user_data is None ==> final(self)@ == old(self)@ && call_ensures(
                f,
                (Err(Error::NoUserDataForFile),),
                r,
            ),
            old(self)@.user_data is Some ==> exists|given: Result<(&str, &mut U), Error>|
                {
                    &&& hands_user_data(given, old(self)@)
                    &&& #[trigger] call_ensures(f, (given,), r)
                    &&& final(self)@ == old(self)@.with_data(
                        kept_user_data(r, *final(given->Ok_0.1)),
                    )
                },
    {
        let ghost before = self@;
        let given = match self.user_data {
            Some(ref mut data) => Ok((self.text.as_str(), data)),
            None => Err(Error::NoUserDataForFile),
        };
        assert(before.user_data is Some ==> hands_user_data(given, before));
        let result = f(given);
        if let Err(Error::NoUserDataForFile) = result {
            self.user_data = None;
        }
        result
    }

    /// Keeps what a computation of the user data gave: a value is attached,
    /// `NoUserDataForFile` leaves the buffer without user data and is no
    /// failure, any other error is handed on and changes nothing.
    pub fn keep_computed(&mut self, computed: Result<U, Error>) -> (r: Result<(), Error>)
        ensures
            final(self)@ == old(self)@.with_computed(computed),
            r == computed_outcome(computed),
    {
        match computed {
            Ok(data) => {
                self.user_data = Some(data);
                Ok(())
            },
            Err(Error::NoUserDataForFile) => {
                self.user_data = None;
                Ok(())
            },
            Err(e) => Err(e),
        }
    }

    /// Makes sure that user data is attached: where there is none, calls
    /// `f` with the text and keeps what it computes.
    pub fn ensure_user_data<F>(&mut self, f: F) -> (r: Result<(), Error>) where
        F: FnOnce(&str) -> Result<U, Error>,

        requires
            old(self)@.user_data is None ==> takes_text(f, old(self)@.text),
        ensures
            ensured_user_data(f, old(self)@, final(self)@, r),
    {
        match self.user_data {
            None => {
                let computed = f(self.text.as_str());
                self.keep_computed(computed)
            },
            Some(_) => Ok(()),
        }
    }
}

} // verus!
