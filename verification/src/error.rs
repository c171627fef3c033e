//! Error types of the buffer, document and configuration layers.

use vstd::prelude::*;

verus! {

/// Errors produced while reading or mutating a [`crate::buffer::Buffer`].
#[derive(Debug, Clone, Copy, PartialEq, Eq, Structural)]
pub enum BufferError {
    /// A [`crate::position::Position`] referenced a line that doesn't
    /// exist, or a column beyond the end of its line.
    InvalidPosition,
    /// Reserved for range-level validation failures (currently unused:
    /// storages validate each endpoint and report `InvalidPosition`).
    InvalidRange,
}

/// Errors produced while saving or editing a [`crate::document::Document`].
#[derive(Debug, Clone, Copy, PartialEq, Eq, Structural)]
pub enum DocumentError {
    /// [`crate::document::Document::save`] was called on a document that
    /// has never been given a path.
    NoPath,
    /// An edit was rejected by the underlying buffer.
    Buffer(BufferError),
}

/// The message shown for a buffer error.
pub open spec fn buffer_message(e: BufferError) -> Seq<char> {
    match e {
        BufferError::InvalidPosition => "invalid position"@,
        BufferError::InvalidRange => "invalid range"@,
    }
}

/// The message shown for a document error: a buffer error shows its own.
pub open spec fn document_message(e: DocumentError) -> Seq<char> {
    match e {
        DocumentError::NoPath => "document has no path; use `save_as` instead"@,
        DocumentError::Buffer(b) => buffer_message(b),
    }
}

impl BufferError {
    /// The message shown for this error.
    pub fn message(&self) -> (s: &'static str)
        ensures
            s@ == buffer_message(*self),
    {
        match self {
            BufferError::InvalidPosition => "invalid position",
            BufferError::InvalidRange => "invalid range",
        }
    }
}

impl DocumentError {
    /// The message shown for this error.
    pub fn message(&self) -> (s: &'static str)
        ensures
            s@ == document_message(*self),
    {
        match self {
            DocumentError::NoPath => "document has no path; use `save_as` instead",
            DocumentError::Buffer(b) => b.message(),
        }
    }
}

} // verus!
