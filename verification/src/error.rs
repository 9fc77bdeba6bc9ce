//! The errors that the store reports to its callers.

use crate::raft::node::RaftError;
use crate::raft::storage::StorageError;
use vstd::prelude::*;

verus! {

/// An error of the metrics store, with a text that says more.
#[derive(Debug)]
pub enum RaftMetricsError {
    Database(String),
    Raft(String),
    Serialization(String),
    NotFound(String),
    Internal(String),
}

/// The mathematical value of a [`RaftMetricsError`].
pub enum RaftMetricsErrorView {
    Database(Seq<char>),
    Raft(Seq<char>),
    Serialization(Seq<char>),
    NotFound(Seq<char>),
    Internal(Seq<char>),
}

impl View for RaftMetricsError {
    type V = RaftMetricsErrorView;

    open spec fn view(&self) -> RaftMetricsErrorView {
        match self {
            RaftMetricsError::Database(text) => RaftMetricsErrorView::Database(text@),
            RaftMetricsError::Raft(text) => RaftMetricsErrorView::Raft(text@),
            RaftMetricsError::Serialization(text) => RaftMetricsErrorView::Serialization(text@),
            RaftMetricsError::NotFound(text) => RaftMetricsErrorView::NotFound(text@),
            RaftMetricsError::Internal(text) => RaftMetricsErrorView::Internal(text@),
        }
    }
}

/// The status of a request that went well.
pub const STATUS_OK: u16 = 200;

/// The status of a request that could not be read.
pub const STATUS_BAD_REQUEST: u16 = 400;

/// The status of a request for something that is not there.
pub const STATUS_NOT_FOUND: u16 = 404;

/// The status of a request that failed inside the store.
pub const STATUS_INTERNAL_SERVER_ERROR: u16 = 500;

/// Joins two texts with the standard library's `format!`.
///
/// Trusted: the result is taken to be the characters of `head` followed by
/// those of `tail`.
#[verifier::external_body]
pub(crate) fn joined(head: &str, tail: &str) -> (text: String)
    ensures
        text@ == head@ + tail@,
{
    format!("{}{}", head, tail)
}

impl RaftMetricsErrorView {
    /// The status that the error is answered with: a request that could not
    /// be read is the caller's fault, a missing metric is not found, and
    /// everything else is a failure of the store.
    pub open spec fn status_code(self) -> u16 {
        match self {
            RaftMetricsErrorView::Serialization(_) => STATUS_BAD_REQUEST,
            RaftMetricsErrorView::NotFound(_) => STATUS_NOT_FOUND,
            _ => STATUS_INTERNAL_SERVER_ERROR,
        }
    }

    /// The words that open the error's message.
    pub open spec fn heading(self) -> Seq<char> {
        match self {
            RaftMetricsErrorView::Database(_) => "Database error: "@,
            RaftMetricsErrorView::Raft(_) => "Raft error: "@,
            RaftMetricsErrorView::Serialization(_) => "Serialization error: "@,
            RaftMetricsErrorView::NotFound(_) => "Not found: "@,
            RaftMetricsErrorView::Internal(_) => "Internal error: "@,
        }
    }

    /// The text that the error carries.
    pub open spec fn detail(self) -> Seq<char> {
        match self {
            RaftMetricsErrorView::Database(text) => text,
            RaftMetricsErrorView::Raft(text) => text,
            RaftMetricsErrorView::Serialization(text) => text,
            RaftMetricsErrorView::NotFound(text) => text,
            RaftMetricsErrorView::Internal(text) => text,
        }
    }
}

/// The words for a failure of the log store.
pub open spec fn storage_error_text(error: StorageError) -> Seq<char> {
    match error {
        StorageError::Compacted => "log compacted"@,
        StorageError::Unavailable => "log unavailable"@,
        StorageError::SnapshotOutOfDate => "snapshot out of date"@,
        StorageError::SnapshotTemporarilyUnavailable => "snapshot temporarily unavailable"@,
        StorageError::StorageFailure => "storage failure"@,
    }
}

/// The words for a refusal of the node driver.
pub open spec fn raft_error_text(error: RaftError) -> Seq<char> {
    match error {
        RaftError::NotLeader => "not leader"@,
        RaftError::ProposalDropped => "proposal dropped"@,
        RaftError::ConfigInvalid => "invalid configuration"@,
        RaftError::Store(inner) => storage_error_text(inner),
    }
}

impl RaftMetricsError {
    /// The status that the error is answered with.
    pub fn status_code(&self) -> (status: u16)
        ensures
            status == self@.status_code(),
    {
        match self {
            RaftMetricsError::Serialization(_) => STATUS_BAD_REQUEST,
            RaftMetricsError::NotFound(_) => STATUS_NOT_FOUND,
            _ => STATUS_INTERNAL_SERVER_ERROR,
        }
    }

    /// The error's message: its heading, then the text it carries.
    pub fn message(&self) -> (text: String)
        ensures
            text@ == self@.heading() + self@.detail(),
    {
        match self {
            RaftMetricsError::Database(text) => joined("Database error: ", text.as_str()),
            RaftMetricsError::Raft(text) => joined("Raft error: ", text.as_str()),
            RaftMetricsError::Serialization(text) => joined("Serialization error: ", text.as_str()),
            RaftMetricsError::NotFound(text) => joined("Not found: ", text.as_str()),
            RaftMetricsError::Internal(text) => joined("Internal error: ", text.as_str()),
        }
    }

    /// The error that stands for a failure of the log store.
    pub fn from_storage_error(error: StorageError) -> (mapped: RaftMetricsError)
        ensures
            mapped@ == RaftMetricsErrorView::Raft(storage_error_text(error)),
    {
        let text: &str = match error {
            StorageError::Compacted => "log compacted",
            StorageError::Unavailable => "log unavailable",
            StorageError::SnapshotOutOfDate => "snapshot out of date",
            StorageError::SnapshotTemporarilyUnavailable => "snapshot temporarily unavailable",
            StorageError::StorageFailure => "storage failure",
        };
        RaftMetricsError::Raft(text.to_owned())
    }

    /// The error that stands for a refusal of the node driver.
    pub fn from_raft_error(error: RaftError) -> (mapped: RaftMetricsError)
        ensures
            mapped@ == RaftMetricsErrorView::Raft(raft_error_text(error)),
    {
        match error {
            RaftError::NotLeader => RaftMetricsError::Raft("not leader".to_owned()),
            RaftError::ProposalDropped => RaftMetricsError::Raft("proposal dropped".to_owned()),
            RaftError::ConfigInvalid => RaftMetricsError::Raft("invalid configuration".to_owned()),
            RaftError::Store(inner) => RaftMetricsError::from_storage_error(inner),
        }
    }
}

} // verus!
