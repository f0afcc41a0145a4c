//! What can go wrong in the store.

use vstd::prelude::*;
use vstd::string::*;

verus! {

#[derive(Debug, Clone, PartialEq, Eq)]
pub enum Error {
    /// The given file has become out of sync with the filesystem.
    OutOfSync(String),
    /// Reading or writing the given path failed; the second field is a message.
    Io(Option<String>, Option<String>),
    /// There are changes to the given file which have not been written to disk.
    UncommittedChanges(String),
    /// The caller named a location that is not within the file: a line or a
    /// column that the file does not have.
    BadLocation,
    /// The requested file is not held by the store.
    FileNotCached,
    /// Not really an error: the file is held, but no user data is attached to it.
    NoUserDataForFile,
}

impl Error {
    /// The fixed text that says what kind of error this is.
    pub open spec fn description_text(&self) -> Seq<char> {
        match self {
            Error::OutOfSync(_) => "file out of sync with filesystem"@,
            Error::Io(_, _) => "io::Error reading or writing path"@,
            Error::UncommittedChanges(_) => "changes exist which have not been written to disk"@,
            Error::BadLocation => "client specified location not existing within a file"@,
            Error::FileNotCached => "requested file was not cached in the VFS"@,
            Error::NoUserDataForFile => "file is cached but there is no user data for it"@,
        }
    }

    /// The text shown for this error, with the path where one is known.
    pub open spec fn display_text(&self) -> Seq<char> {
        match self {
            Error::OutOfSync(path) => "file "@ + path@ + " out of sync with filesystem"@,
            Error::UncommittedChanges(path) => path@ + " has uncommitted changes"@,
            _ => self.description_text(),
        }
    }

    /// A short description of the kind of error.
    pub fn description(&self) -> (r: &'static str)
        ensures
            r@ == self.description_text(),
    {
        match self {
            Error::OutOfSync(_) => "file out of sync with filesystem",
            Error::Io(_, _) => "io::Error reading or writing path",
            Error::UncommittedChanges(_) => "changes exist which have not been written to disk",
            Error::BadLocation => "client specified location not existing within a file",
            Error::FileNotCached => "requested file was not cached in the VFS",
            Error::NoUserDataForFile => "file is cached but there is no user data for it",
        }
    }

    /// The error as a line of text for a reader.
    pub fn to_string(&self) -> (r: String)
        ensures
            r@ == self.display_text(),
    {
        match self {
            Error::OutOfSync(path) => {
                let mut out = "file ".to_owned();
                out.append(path.as_str());
                out.append(" out of sync with filesystem");
                out
            },
            Error::UncommittedChanges(path) => {
                let mut out = path.clone();
                out.append(" has uncommitted changes");
                out
            },
            _ => self.description().to_owned(),
        }
    }
}

} // verus!
