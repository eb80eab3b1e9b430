//! The one error type of the storage engine.

use vstd::prelude::*;

verus! {

/// Why an operation of the storage engine was refused.
#[derive(Debug, Clone, Copy, PartialEq, Eq, Structural)]
pub enum StorageError {
    /// Bytes of the table file do not describe a page or a header.
    Corrupt,
    /// A page in memory breaks the page layout and cannot be written out.
    BadPage,
    /// A text whose length tag is not its length in bytes.
    BadValue,
    /// A row of more than 255 bytes.
    RowTooLarge,
    /// A key whose kind is not that of the page's other keys.
    KeyKind,
    /// A cell of an internal page that is not exactly one page id.
    BadCell,
    /// The page has no room left for the entry.
    PageFull,
    /// Column names and types that no table header can hold.
    BadSchema,
    /// The table file would grow beyond what this machine can address.
    TooLarge,
    /// A row that does not match the table's column types.
    RowMismatch,
    /// The pages do not form a tree: a missing child, a loop, a wrong node kind.
    BrokenTree,
    /// No row is stored under the key.
    NotFound,
    /// A table of that name is there already.
    TableExists,
}

} // verus!
