use vstd::prelude::*;

verus! {

/// Everything that can go wrong inside the storage engine.
#[derive(Debug, Clone, Copy, PartialEq, Eq, Structural)]
pub enum Error {
    /// A table without a single block cannot be iterated.
    EmptyTable,
    /// A block that was read does not hold well-formed entries.
    CorruptBlock,
    /// The table's offsets do not fit the 32-bit fields of its footer.
    TableTooLarge,
    /// A key or a value does not fit its 16-bit length field.
    EntryTooLarge,
    /// An identifier in the state names no table.
    MissingTable,
    /// `next` was called on an iterator that is not valid.
    InvalidIterator,
    /// `next` was called on an iterator that has failed before.
    IteratorErrored,
    /// The length field of a log record is cut off.
    TruncatedLength,
    /// The body of a log record is cut off.
    TruncatedBody,
    /// The body of a log record is not made of whole entries.
    MalformedBody,
    /// The checksum of a log record is cut off.
    TruncatedChecksum,
    /// The checksum of a record does not match its body.
    ChecksumMismatch,
    /// `commit` was called on a transaction that is already committed.
    AlreadyCommitted,
    /// A transaction read a key that a later transaction has committed.
    Conflict,
    /// The identifiers of tables are used up.
    IdsExhausted,
    /// A compaction of tiers left no entry, and a tier needs a table.
    NothingLeft,
    /// There are so many readers at a timestamp that they cannot be counted any more.
    ReadersExhausted,
    /// The commit timestamps are used up.
    TimestampsExhausted,
}

} // verus!
