//! An in-memory store of text buffers, edited by line and column.
//!
//! Each buffer keeps its text as UTF-8 together with a table of the byte
//! offsets at which its lines begin. Edits name their range by zero-based
//! line and character column; the store turns them into byte ranges of the
//! current text, applies them in the order given, and forgets any derived
//! data that a caller attached to the buffer.

pub mod batch;
pub mod disk;
pub mod encoding;
pub mod error;
pub mod file;
pub mod laws;
pub mod store;
pub mod text_grid;
pub mod vfs;

pub use crate::batch::coalesce_changes;
pub use crate::encoding::byte_in_str;
pub use crate::error::Error;
pub use crate::file::{Change, File, FileView};
pub use crate::store::{FileLoader, VfsInternal};
pub use crate::text_grid::{byte_in_line, make_line_indices, Column, Line, LinesIndex, Span};
pub use crate::vfs::Vfs;
