//! The errors of the library.

use vstd::prelude::*;

verus! {

/// A misconfiguration, found before any row is read.
#[derive(Clone, Copy, Debug, PartialEq, Eq, Structural)]
pub enum ConfigError {
    /// The rule at index `rule` has a transformer whose settings make no sense.
    InvalidTransformer { rule: usize },
    /// The rule at index `rule` names a column that no table has.
    UnknownColumn { rule: usize },
    /// The rules at `first` and `second` name the same column of the same table.
    ConflictingRule { first: usize, second: usize },
    /// The dump's name cannot be part of an object key.
    InvalidDumpName,
    /// The name of the table at index `table` cannot be part of an object key.
    InvalidTableName { table: usize },
    /// The tables at `first` and `second` have the same name.
    DuplicateTable { first: usize, second: usize },
}

/// A value that its transformer cannot process.
#[derive(Clone, Copy, Debug, PartialEq, Eq, Structural)]
pub struct TransformError {
    /// The index of the table among the dump's tables.
    pub table: usize,
    /// The index of the row in its table.
    pub row: usize,
    /// The index of the column in its row.
    pub column: usize,
}

/// A failure of the object store.
#[derive(Clone, Copy, Debug, PartialEq, Eq, Structural)]
pub enum StoreError {
    /// A passing failure, such as a timeout or throttling: worth another try.
    Retryable,
    /// A lasting failure, such as a refusal or a missing path.
    Fatal,
}

/// Why a dump was not made.
#[derive(Clone, Copy, Debug, PartialEq, Eq, Structural)]
pub enum DumpError {
    Config(ConfigError),
    Transform(TransformError),
    Store(StoreError),
}

/// Why a dump was not restored.
#[derive(Clone, Copy, Debug, PartialEq, Eq, Structural)]
pub enum RestoreError {
    /// The store holds no index of that name, or no index at all.
    NotFound,
    /// The index object is not a well-formed index.
    CorruptIndex,
    /// The dump is enciphered and no key was given.
    KeyMissing,
    /// A chunk that the index names is not in the store.
    MissingChunk { table: usize, chunk: usize },
    /// A chunk does not open to a list of rows.
    CorruptChunk { table: usize, chunk: usize },
    Store(StoreError),
}

/// Why a dump was not, or not fully, deleted.
#[derive(Clone, Copy, Debug, PartialEq, Eq, Structural)]
pub enum DeleteError {
    /// The store holds no index of that name.
    NotFound,
    /// The index object is not a well-formed index.
    CorruptIndex,
    /// The index could not be read; nothing was removed.
    Read(StoreError),
    /// `failed` of the dump's chunks could not be removed; the index stays.
    ChunksLeft { failed: usize },
    /// Every chunk was removed, and the index could not be.
    Store(StoreError),
}

/// Why the store's format could not be brought up to date.
#[derive(Clone, Copy, Debug, PartialEq, Eq, Structural)]
pub enum MigrationError {
    /// The store was written by a newer version of the tool.
    StoreTooNew { stored: u64, current: u64 },
    /// The version marker is not eight bytes long.
    CorruptMarker,
    /// No step is registered that leads on from `version`.
    MissingStep { version: u64 },
    /// The step that leads on from `version` failed; the marker stays there.
    StepFailed { version: u64, cause: StoreError },
    Store(StoreError),
}

} // verus!
