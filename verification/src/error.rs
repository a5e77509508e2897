//! The library's error type.

use vstd::prelude::*;
use crate::text::joined;

verus! {

/// What can go wrong while compressing, decompressing or parsing a container.
#[derive(Debug, Clone)]
pub enum HlcError {
    /// The byte transport failed: a short read or a write error.
    Io(String),
    /// A decoded chunk's checksum differs from the stored one.
    ChecksumMismatch,
    /// The container is malformed.
    InvalidFormat(String),
    /// The entropy encoder failed.
    CompressionError(String),
    /// The entropy decoder or an inverse transform failed, or a decoded size is wrong.
    DecompressionError(String),
    /// The configuration is invalid.
    ConfigError(String),
    /// The pipeline cannot process its input.
    PipelineError(String),
    /// A transform failed.
    TransformError(String),
    /// The worker pool could not be set up.
    ThreadPoolError(String),
}

/// The kind of an error, without its detail.
#[derive(Debug, Clone, Copy, PartialEq, Eq, Structural)]
pub enum ErrorKind {
    Io,
    ChecksumMismatch,
    InvalidFormat,
    CompressionError,
    DecompressionError,
    ConfigError,
    PipelineError,
    TransformError,
    ThreadPoolError,
}

impl HlcError {
    /// The kind of this error.
    pub open spec fn kind_spec(self) -> ErrorKind {
        match self {
            HlcError::Io(_) => ErrorKind::Io,
            HlcError::ChecksumMismatch => ErrorKind::ChecksumMismatch,
            HlcError::InvalidFormat(_) => ErrorKind::InvalidFormat,
            HlcError::CompressionError(_) => ErrorKind::CompressionError,
            HlcError::DecompressionError(_) => ErrorKind::DecompressionError,
            HlcError::ConfigError(_) => ErrorKind::ConfigError,
            HlcError::PipelineError(_) => ErrorKind::PipelineError,
            HlcError::TransformError(_) => ErrorKind::TransformError,
            HlcError::ThreadPoolError(_) => ErrorKind::ThreadPoolError,
        }
    }

    /// The kind of this error.
    pub fn kind(&self) -> (kind: ErrorKind)
        ensures
            kind == self.kind_spec(),
    {
        match self {
            HlcError::Io(_) => ErrorKind::Io,
            HlcError::ChecksumMismatch => ErrorKind::ChecksumMismatch,
            HlcError::InvalidFormat(_) => ErrorKind::InvalidFormat,
            HlcError::CompressionError(_) => ErrorKind::CompressionError,
            HlcError::DecompressionError(_) => ErrorKind::DecompressionError,
            HlcError::ConfigError(_) => ErrorKind::ConfigError,
            HlcError::PipelineError(_) => ErrorKind::PipelineError,
            HlcError::TransformError(_) => ErrorKind::TransformError,
            HlcError::ThreadPoolError(_) => ErrorKind::ThreadPoolError,
        }
    }

    /// The text that introduces the detail of an error of each kind.
    pub open spec fn heading(kind: ErrorKind) -> Seq<char> {
        match kind {
            ErrorKind::Io => "I/O error: "@,
            ErrorKind::ChecksumMismatch => "Data integrity check failed: checksum mismatch"@,
            ErrorKind::InvalidFormat => "Invalid HLC container format: "@,
            ErrorKind::CompressionError => "Compression failed: "@,
            ErrorKind::DecompressionError => "Decompression failed: "@,
            ErrorKind::ConfigError => "Configuration error: "@,
            ErrorKind::PipelineError => "Pipeline processing error: "@,
            ErrorKind::TransformError => "Transform error: "@,
            ErrorKind::ThreadPoolError => "Thread pool initialization error: "@,
        }
    }

    /// The detail carried by this error; empty for a checksum mismatch.
    pub open spec fn detail(self) -> Seq<char> {
        match self {
            HlcError::Io(d) => d@,
            HlcError::ChecksumMismatch => Seq::<char>::empty(),
            HlcError::InvalidFormat(d) => d@,
            HlcError::CompressionError(d) => d@,
            HlcError::DecompressionError(d) => d@,
            HlcError::ConfigError(d) => d@,
            HlcError::PipelineError(d) => d@,
            HlcError::TransformError(d) => d@,
            HlcError::ThreadPoolError(d) => d@,
        }
    }

    /// The message for a reader: the heading of the kind, then the detail.
    pub fn message(&self) -> (text: String)
        ensures
            text@ == Self::heading(self.kind_spec()) + self.detail(),
    {
        let text = match self {
            HlcError::Io(d) => joined("I/O error: ", d.as_str()),
            HlcError::ChecksumMismatch => {
                let none = String::new();
                joined("Data integrity check failed: checksum mismatch", none.as_str())
            },
            HlcError::InvalidFormat(d) => joined("Invalid HLC container format: ", d.as_str()),
            HlcError::CompressionError(d) => joined("Compression failed: ", d.as_str()),
            HlcError::DecompressionError(d) => joined("Decompression failed: ", d.as_str()),
            HlcError::ConfigError(d) => joined("Configuration error: ", d.as_str()),
            HlcError::PipelineError(d) => joined("Pipeline processing error: ", d.as_str()),
            HlcError::TransformError(d) => joined("Transform error: ", d.as_str()),
            HlcError::ThreadPoolError(d) => joined("Thread pool initialization error: ", d.as_str()),
        };
        assert(text@ =~= Self::heading(self.kind_spec()) + self.detail());
        text
    }
}

} // verus!
