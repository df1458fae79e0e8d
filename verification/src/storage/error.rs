//! What can go wrong in the formats and the logic above them.

use vstd::prelude::*;

verus! {

/// The broad class of a failure.
#[derive(Clone, Copy, Debug, PartialEq, Eq, Structural)]
pub enum ErrorKind {
    /// Bytes that should have been valid are not.
    InvalidData,
    /// The caller asked for something the format cannot hold.
    InvalidInput,
    /// A file ended before the bytes that were asked of it.
    UnexpectedEof,
    /// A file that was asked for is not there.
    NotFound,
}

/// A number that a manifest holds.
#[derive(Clone, Copy, Debug, PartialEq, Eq, Structural)]
pub enum ManifestField {
    NextSequence,
    RunLevel,
    RunSequence,
    RunUnits,
}

/// A failure, with what there is to know about it.
#[derive(Clone, Copy, Debug, PartialEq, Eq, Structural)]
pub enum StorageError {
    /// A bloom filter too short to hold its own header.
    BloomTruncatedHeader,
    /// A bloom filter with no bits or no hashes.
    BloomZeroGeometry,
    /// A bloom filter whose bit count is not that of its payload.
    BloomSizeMismatch,
    /// A key appended to a table did not follow the one before it.
    KeysOutOfOrder,
    /// A key whose length does not fit a table entry.
    TableKeyTooLarge,
    /// A value whose length does not fit a table entry.
    TableValueTooLarge,
    /// A file too short to hold a table footer.
    TableTooShort,
    /// A footer without the magic number of this format.
    NotATable,
    /// A footer that failed its checksum.
    FooterChecksum,
    /// A block too short to hold a checksum.
    BlockTooShort,
    /// A block that failed its checksum.
    BlockChecksum { offset: u64 },
    /// A table that ended before the bytes asked for.
    TableEnded,
    /// An entry header cut short.
    TruncatedEntryHeader,
    /// An entry that claims to be longer than any entry may be.
    EntryTooLong,
    /// An entry that runs past the end of its block.
    EntryOverrun,
    /// An entry whose tag means nothing, or a tombstone with a value.
    BadEntryTag,
    /// An index entry cut short.
    TruncatedIndexEntry,
    /// An index entry that runs past the end of the index.
    IndexEntryOverrun,
    /// A key whose length does not fit a log record.
    LogKeyTooLarge,
    /// A record whose length does not fit the log's length field.
    LogRecordTooLarge,
    /// A record longer than the log accepts.
    LogRecordOverLimit { bytes: u32 },
    /// A value whose length does not fit a value-log record.
    ValueTooLarge { length: usize },
    /// A value-log record that runs past the end of the log.
    ValueLogEnded,
    /// A value-log record of another length than its pointer says.
    PointerLengthMismatch { offset: u64, stored: u32, pointed: u32 },
    /// A value-log record that failed its checksum.
    ValueChecksum { offset: u64 },
    /// A manifest without a checksum line.
    ManifestNoChecksum,
    /// A manifest whose checksum line is not a checksum.
    ManifestBadChecksum,
    /// A manifest that failed its checksum.
    ManifestChecksumMismatch,
    /// A manifest with another header than this format's.
    ManifestBadHeader,
    /// A manifest line that ends before this field.
    ManifestMissingField { field: ManifestField },
    /// A manifest line in which this field is not a number that fits.
    ManifestBadField { field: ManifestField },
    /// A manifest run that lists no files.
    ManifestEmptyRun,
    /// A table that the manifest names but that is not there.
    MissingTable,
}

/// The class that a failure belongs to.
pub open spec fn kind_of(error: StorageError) -> ErrorKind {
    match error {
        StorageError::KeysOutOfOrder => ErrorKind::InvalidInput,
        StorageError::TableKeyTooLarge => ErrorKind::InvalidInput,
        StorageError::TableValueTooLarge => ErrorKind::InvalidInput,
        StorageError::LogKeyTooLarge => ErrorKind::InvalidInput,
        StorageError::LogRecordTooLarge => ErrorKind::InvalidInput,
        StorageError::LogRecordOverLimit { .. } => ErrorKind::InvalidInput,
        StorageError::ValueTooLarge { .. } => ErrorKind::InvalidInput,
        StorageError::TableEnded => ErrorKind::UnexpectedEof,
        StorageError::ValueLogEnded => ErrorKind::UnexpectedEof,
        StorageError::MissingTable => ErrorKind::NotFound,
        _ => ErrorKind::InvalidData,
    }
}

impl StorageError {
    /// The class that this failure belongs to.
    pub fn kind(&self) -> (kind: ErrorKind)
        ensures
            kind == kind_of(*self),
    {
        match self {
            StorageError::KeysOutOfOrder => ErrorKind::InvalidInput,
            StorageError::TableKeyTooLarge => ErrorKind::InvalidInput,
            StorageError::TableValueTooLarge => ErrorKind::InvalidInput,
            StorageError::LogKeyTooLarge => ErrorKind::InvalidInput,
            StorageError::LogRecordTooLarge => ErrorKind::InvalidInput,
            StorageError::LogRecordOverLimit { .. } => ErrorKind::InvalidInput,
            StorageError::ValueTooLarge { .. } => ErrorKind::InvalidInput,
            StorageError::TableEnded => ErrorKind::UnexpectedEof,
            StorageError::ValueLogEnded => ErrorKind::UnexpectedEof,
            StorageError::MissingTable => ErrorKind::NotFound,
            _ => ErrorKind::InvalidData,
        }
    }
}

} // verus!
