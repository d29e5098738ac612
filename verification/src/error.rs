//! Errors reported by the storage library.

use vstd::prelude::*;

verus! {

/// The category of a [`StorageError`].
#[derive(Debug, Clone, Copy, PartialEq, Eq, Structural)]
pub enum ErrorKind {
    /// The caller passed a value that cannot be stored.
    InvalidInput,
    /// Stored bytes or metadata text are not valid.
    InvalidData,
    /// The node is not active in this storage.
    NotFound,
    /// The node ID is already reserved.
    AlreadyExists,
}

/// Everything that a storage operation can reject.
#[derive(Debug, Clone, Copy, PartialEq, Eq, Structural)]
pub enum StorageError {
    /// Record is too large.
    RecordTooLarge,
    /// Byte slice is too large.
    ByteSliceTooLarge,
    /// Too many command payloads.
    TooManyCommandPayloads,
    /// Too many log entries.
    TooManyLogEntries,
    /// Too many node IDs.
    TooManyNodeIds,
    /// Missing command payload.
    MissingCommandPayload,
    /// Command payload index does not match a command entry.
    UnmatchedCommandPayload,
    /// Checkpoint suffix must start at the snapshot position.
    CheckpointSuffixGap,
    /// Max segment length must be non-zero.
    ZeroMaxSegmentLen,
    /// Byte slice is too large.
    StoredByteSliceTooLarge,
    /// Too many command payloads.
    StoredTooManyCommandPayloads,
    /// Too many log entries.
    StoredTooManyLogEntries,
    /// Too many node IDs.
    StoredTooManyNodeIds,
    /// Record is too short.
    RecordTooShort,
    /// Record has trailing bytes.
    RecordTrailingBytes,
    /// Unknown segment record tag.
    UnknownRecordTag,
    /// Unknown log entry tag.
    UnknownLogEntryTag,
    /// Invalid optional node ID tag.
    InvalidOptionalNodeIdTag,
    /// Duplicate command payload index.
    DuplicateCommandPayloadIndex,
    /// Duplicate node ID.
    DuplicateNodeId,
    /// Invalid command payload mapping.
    InvalidCommandPayloadMapping,
    /// Invalid snapshot checkpoint.
    InvalidSnapshotCheckpoint,
    /// Log entries overflow the log index space.
    LogIndexOverflow,
    /// Segment record is too large.
    SegmentRecordTooLarge,
    /// Segment record checksum mismatch.
    ChecksumMismatch,
    /// Partial record in inactive segment.
    PartialRecord,
    /// Missing segment header.
    MissingSegmentHeader,
    /// Partial segment header in inactive segment.
    PartialSegmentHeader,
    /// Unsupported segment format.
    UnsupportedSegmentFormat,
    /// Segment ID overflow.
    SegmentIdOverflow,
    /// Segment length overflow.
    SegmentLenOverflow,
    /// Checkpoint scan offset precedes records.
    ScanOffsetPrecedesRecords,
    /// Checkpoint scan offset exceeds segment length.
    ScanOffsetExceedsSegment,
    /// Checkpoint index segment does not exist.
    IndexSegmentMissing,
    /// Checkpoint index offset precedes records.
    IndexOffsetPrecedesRecords,
    /// Checkpoint index offset exceeds segment length.
    IndexOffsetExceedsSegment,
    /// Checkpoint index offset does not point to a record.
    IndexOffsetNotARecord,
    /// Checkpoint index node ID mismatch.
    IndexNodeIdMismatch,
    /// Checkpoint index does not point to a checkpoint.
    IndexNotACheckpoint,
    /// Append anchor does not exist in local log.
    AppendAnchorMissing,
    /// Log suffix length exceeds usize.
    LogSuffixTooLong,
    /// Snapshot is older than the current snapshot.
    SnapshotTooOld,
    /// Snapshot position conflicts with local log.
    SnapshotConflict,
    /// Invalid JSON text.
    JsonSyntax,
    /// Unexpected kind of JSON value.
    JsonUnexpectedKind,
    /// Required JSON object member is missing.
    JsonMissingMember,
    /// JSON value is not an unsigned 64-bit integer.
    JsonInvalidInteger,
    /// Duplicate node ID.
    JsonDuplicateNodeId,
    /// Invalid checkpoint segment name.
    JsonInvalidSegmentName,
    /// Unsupported node registry version.
    UnsupportedNodeRegistryVersion,
    /// Unsupported checkpoint index version.
    UnsupportedCheckpointIndexVersion,
    /// Node storage has not been created.
    NodeNotFound,
    /// Node storage has been removed.
    NodeRemoved,
    /// Node storage has already been created.
    NodeAlreadyExists,
}

impl StorageError {
    /// The category of this error.
    pub open spec fn spec_kind(self) -> ErrorKind {
        match self {
            StorageError::RecordTooLarge
            | StorageError::ByteSliceTooLarge
            | StorageError::TooManyCommandPayloads
            | StorageError::TooManyLogEntries
            | StorageError::TooManyNodeIds
            | StorageError::MissingCommandPayload
            | StorageError::UnmatchedCommandPayload
            | StorageError::CheckpointSuffixGap
            | StorageError::ZeroMaxSegmentLen => ErrorKind::InvalidInput,
            StorageError::NodeNotFound
            | StorageError::NodeRemoved => ErrorKind::NotFound,
            StorageError::NodeAlreadyExists => ErrorKind::AlreadyExists,
            _ => ErrorKind::InvalidData,
        }
    }

    /// Returns the category of this error.
    pub fn kind(self) -> (kind: ErrorKind)
        ensures
            kind == self.spec_kind(),
    {
        match self {
            StorageError::RecordTooLarge
            | StorageError::ByteSliceTooLarge
            | StorageError::TooManyCommandPayloads
            | StorageError::TooManyLogEntries
            | StorageError::TooManyNodeIds
            | StorageError::MissingCommandPayload
            | StorageError::UnmatchedCommandPayload
            | StorageError::CheckpointSuffixGap
            | StorageError::ZeroMaxSegmentLen => ErrorKind::InvalidInput,
            StorageError::NodeNotFound
            | StorageError::NodeRemoved => ErrorKind::NotFound,
            StorageError::NodeAlreadyExists => ErrorKind::AlreadyExists,
            _ => ErrorKind::InvalidData,
        }
    }

    /// The text of this error.
    pub open spec fn spec_message(self) -> Seq<char> {
        match self {
            StorageError::RecordTooLarge => "record is too large"@,
            StorageError::ByteSliceTooLarge => "byte slice is too large"@,
            StorageError::TooManyCommandPayloads => "too many command payloads"@,
            StorageError::TooManyLogEntries => "too many log entries"@,
            StorageError::TooManyNodeIds => "too many node IDs"@,
            StorageError::MissingCommandPayload => "missing command payload"@,
            StorageError::UnmatchedCommandPayload => "command payload index does not match a command entry"@,
            StorageError::CheckpointSuffixGap => "checkpoint suffix must start at the snapshot position"@,
            StorageError::ZeroMaxSegmentLen => "max segment length must be non-zero"@,
            StorageError::StoredByteSliceTooLarge => "byte slice is too large"@,
            StorageError::StoredTooManyCommandPayloads => "too many command payloads"@,
            StorageError::StoredTooManyLogEntries => "too many log entries"@,
            StorageError::StoredTooManyNodeIds => "too many node IDs"@,
            StorageError::RecordTooShort => "record is too short"@,
            StorageError::RecordTrailingBytes => "record has trailing bytes"@,
            StorageError::UnknownRecordTag => "unknown segment record tag"@,
            StorageError::UnknownLogEntryTag => "unknown log entry tag"@,
            StorageError::InvalidOptionalNodeIdTag => "invalid optional node ID tag"@,
            StorageError::DuplicateCommandPayloadIndex => "duplicate command payload index"@,
            StorageError::DuplicateNodeId => "duplicate node ID"@,
            StorageError::InvalidCommandPayloadMapping => "invalid command payload mapping"@,
            StorageError::InvalidSnapshotCheckpoint => "invalid snapshot checkpoint"@,
            StorageError::LogIndexOverflow => "log entries overflow the log index space"@,
            StorageError::SegmentRecordTooLarge => "segment record is too large"@,
            StorageError::ChecksumMismatch => "segment record checksum mismatch"@,
            StorageError::PartialRecord => "partial record in inactive segment"@,
            StorageError::MissingSegmentHeader => "missing segment header"@,
            StorageError::PartialSegmentHeader => "partial segment header in inactive segment"@,
            StorageError::UnsupportedSegmentFormat => "unsupported segment format"@,
            StorageError::SegmentIdOverflow => "segment ID overflow"@,
            StorageError::SegmentLenOverflow => "segment length overflow"@,
            StorageError::ScanOffsetPrecedesRecords => "checkpoint scan offset precedes records"@,
            StorageError::ScanOffsetExceedsSegment => "checkpoint scan offset exceeds segment length"@,
            StorageError::IndexSegmentMissing => "checkpoint index segment does not exist"@,
            StorageError::IndexOffsetPrecedesRecords => "checkpoint index offset precedes records"@,
            StorageError::IndexOffsetExceedsSegment => "checkpoint index offset exceeds segment length"@,
            StorageError::IndexOffsetNotARecord => "checkpoint index offset does not point to a record"@,
            StorageError::IndexNodeIdMismatch => "checkpoint index node ID mismatch"@,
            StorageError::IndexNotACheckpoint => "checkpoint index does not point to a checkpoint"@,
            StorageError::AppendAnchorMissing => "append anchor does not exist in local log"@,
            StorageError::LogSuffixTooLong => "log suffix length exceeds usize"@,
            StorageError::SnapshotTooOld => "snapshot is older than the current snapshot"@,
            StorageError::SnapshotConflict => "snapshot position conflicts with local log"@,
            StorageError::JsonSyntax => "invalid JSON text"@,
            StorageError::JsonUnexpectedKind => "unexpected kind of JSON value"@,
            StorageError::JsonMissingMember => "required JSON object member is missing"@,
            StorageError::JsonInvalidInteger => "JSON value is not an unsigned 64-bit integer"@,
            StorageError::JsonDuplicateNodeId => "duplicate node ID"@,
            StorageError::JsonInvalidSegmentName => "invalid checkpoint segment name"@,
            StorageError::UnsupportedNodeRegistryVersion => "unsupported node registry version"@,
            StorageError::UnsupportedCheckpointIndexVersion => "unsupported checkpoint index version"@,
            StorageError::NodeNotFound => "node storage has not been created"@,
            StorageError::NodeRemoved => "node storage has been removed"@,
            StorageError::NodeAlreadyExists => "node storage has already been created"@,
        }
    }

    /// Returns the text of this error.
    pub fn message(self) -> (message: &'static str)
        ensures
            message@ == self.spec_message(),
    {
        match self {
            StorageError::RecordTooLarge => "record is too large",
            StorageError::ByteSliceTooLarge => "byte slice is too large",
            StorageError::TooManyCommandPayloads => "too many command payloads",
            StorageError::TooManyLogEntries => "too many log entries",
            StorageError::TooManyNodeIds => "too many node IDs",
            StorageError::MissingCommandPayload => "missing command payload",
            StorageError::UnmatchedCommandPayload => "command payload index does not match a command entry",
            StorageError::CheckpointSuffixGap => "checkpoint suffix must start at the snapshot position",
            StorageError::ZeroMaxSegmentLen => "max segment length must be non-zero",
            StorageError::StoredByteSliceTooLarge => "byte slice is too large",
            StorageError::StoredTooManyCommandPayloads => "too many command payloads",
            StorageError::StoredTooManyLogEntries => "too many log entries",
            StorageError::StoredTooManyNodeIds => "too many node IDs",
            StorageError::RecordTooShort => "record is too short",
            StorageError::RecordTrailingBytes => "record has trailing bytes",
            StorageError::UnknownRecordTag => "unknown segment record tag",
            StorageError::UnknownLogEntryTag => "unknown log entry tag",
            StorageError::InvalidOptionalNodeIdTag => "invalid optional node ID tag",
            StorageError::DuplicateCommandPayloadIndex => "duplicate command payload index",
            StorageError::DuplicateNodeId => "duplicate node ID",
            StorageError::InvalidCommandPayloadMapping => "invalid command payload mapping",
            StorageError::InvalidSnapshotCheckpoint => "invalid snapshot checkpoint",
            StorageError::LogIndexOverflow => "log entries overflow the log index space",
            StorageError::SegmentRecordTooLarge => "segment record is too large",
            StorageError::ChecksumMismatch => "segment record checksum mismatch",
            StorageError::PartialRecord => "partial record in inactive segment",
            StorageError::MissingSegmentHeader => "missing segment header",
            StorageError::PartialSegmentHeader => "partial segment header in inactive segment",
            StorageError::UnsupportedSegmentFormat => "unsupported segment format",
            StorageError::SegmentIdOverflow => "segment ID overflow",
            StorageError::SegmentLenOverflow => "segment length overflow",
            StorageError::ScanOffsetPrecedesRecords => "checkpoint scan offset precedes records",
            StorageError::ScanOffsetExceedsSegment => "checkpoint scan offset exceeds segment length",
            StorageError::IndexSegmentMissing => "checkpoint index segment does not exist",
            StorageError::IndexOffsetPrecedesRecords => "checkpoint index offset precedes records",
            StorageError::IndexOffsetExceedsSegment => "checkpoint index offset exceeds segment length",
            StorageError::IndexOffsetNotARecord => "checkpoint index offset does not point to a record",
            StorageError::IndexNodeIdMismatch => "checkpoint index node ID mismatch",
            StorageError::IndexNotACheckpoint => "checkpoint index does not point to a checkpoint",
            StorageError::AppendAnchorMissing => "append anchor does not exist in local log",
            StorageError::LogSuffixTooLong => "log suffix length exceeds usize",
            StorageError::SnapshotTooOld => "snapshot is older than the current snapshot",
            StorageError::SnapshotConflict => "snapshot position conflicts with local log",
            StorageError::JsonSyntax => "invalid JSON text",
            StorageError::JsonUnexpectedKind => "unexpected kind of JSON value",
            StorageError::JsonMissingMember => "required JSON object member is missing",
            StorageError::JsonInvalidInteger => "JSON value is not an unsigned 64-bit integer",
            StorageError::JsonDuplicateNodeId => "duplicate node ID",
            StorageError::JsonInvalidSegmentName => "invalid checkpoint segment name",
            StorageError::UnsupportedNodeRegistryVersion => "unsupported node registry version",
            StorageError::UnsupportedCheckpointIndexVersion => "unsupported checkpoint index version",
            StorageError::NodeNotFound => "node storage has not been created",
            StorageError::NodeRemoved => "node storage has been removed",
            StorageError::NodeAlreadyExists => "node storage has already been created",
        }
    }
}

} // verus!
