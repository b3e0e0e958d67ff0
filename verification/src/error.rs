//! The library's error type. Failures of I/O, of JSON and of the file
//! watcher carry their message as text.

use vstd::prelude::*;
use crate::types::Quadrant;

verus! {

/// Everything that can go wrong in a command.
#[derive(Debug, Clone, PartialEq, Eq)]
pub enum AppError {
    Io(String),
    Json(String),
    Watcher(String),
    NoSources,
    SourceNotFound(String),
    DuplicateSource(String),
    InvalidSourcePath(String),
    TaskNotFound(String),
    NotATaskLine { path: String, line: usize },
    CommandFailed(String),
    QuadrantHeaderMissing(Quadrant),
    HistoryHashMismatch { event_id: String, file: String, line: usize },
    HistoryFileMissing,
    HistoryDisabled,
    ExternalInUndoRange { count: usize },
}

/// The stable machine-readable code of each error kind.
pub open spec fn spec_code(e: AppError) -> Seq<char> {
    match e {
        AppError::Io(_) => "IO"@,
        AppError::Json(_) => "JSON"@,
        AppError::Watcher(_) => "WATCHER"@,
        AppError::NoSources => "NO_SOURCES"@,
        AppError::SourceNotFound(_) => "SOURCE_NOT_FOUND"@,
        AppError::DuplicateSource(_) => "DUPLICATE_SOURCE"@,
        AppError::InvalidSourcePath(_) => "INVALID_SOURCE_PATH"@,
        AppError::TaskNotFound(_) => "TASK_NOT_FOUND"@,
        AppError::NotATaskLine { .. } => "NOT_A_TASK_LINE"@,
        AppError::CommandFailed(_) => "COMMAND_FAILED"@,
        AppError::QuadrantHeaderMissing(_) => "QUADRANT_HEADER_MISSING"@,
        AppError::HistoryHashMismatch { .. } => "HISTORY_HASH_MISMATCH"@,
        AppError::HistoryFileMissing => "HISTORY_FILE_MISSING"@,
        AppError::HistoryDisabled => "HISTORY_DISABLED"@,
        AppError::ExternalInUndoRange { .. } => "EXTERNAL_IN_UNDO_RANGE"@,
    }
}

impl AppError {
    /// Stable machine-readable code for the front end, independent of the message.
    pub fn code(&self) -> (c: &'static str)
        ensures
            c@ == spec_code(*self),
    {
        match self {
            AppError::Io(_) => "IO",
            AppError::Json(_) => "JSON",
            AppError::Watcher(_) => "WATCHER",
            AppError::NoSources => "NO_SOURCES",
            AppError::SourceNotFound(_) => "SOURCE_NOT_FOUND",
            AppError::DuplicateSource(_) => "DUPLICATE_SOURCE",
            AppError::InvalidSourcePath(_) => "INVALID_SOURCE_PATH",
            AppError::TaskNotFound(_) => "TASK_NOT_FOUND",
            AppError::NotATaskLine { .. } => "NOT_A_TASK_LINE",
            AppError::CommandFailed(_) => "COMMAND_FAILED",
            AppError::QuadrantHeaderMissing(_) => "QUADRANT_HEADER_MISSING",
            AppError::HistoryHashMismatch { .. } => "HISTORY_HASH_MISMATCH",
            AppError::HistoryFileMissing => "HISTORY_FILE_MISSING",
            AppError::HistoryDisabled => "HISTORY_DISABLED",
            AppError::ExternalInUndoRange { .. } => "EXTERNAL_IN_UNDO_RANGE",
        }
    }
}

} // verus!
