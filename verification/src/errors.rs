//! Error taxonomy for discovery, decoding, selection and reconstruction.

use vstd::prelude::*;

verus! {

/// Profile discovery failures: the per-user data directory could not be
/// determined unambiguously.
#[derive(Clone, Copy, Debug, PartialEq, Eq, Structural)]
pub enum DiscoveryError {
    /// No non-anonymous profile directory exists.
    NoProfileFound,
    /// More than one non-anonymous profile directory exists.
    AmbiguousProfile,
}

/// The textual configuration was malformed, or the required
/// `GameRecording.BackgroundRecordPath` key path is missing.
#[derive(Clone, Copy, Debug, PartialEq, Eq, Structural)]
pub enum ConfigError {
    ConfigParse,
}

/// The binary clip metadata could not be decoded.
#[derive(Clone, Copy, Debug, PartialEq, Eq, Structural)]
pub enum MetaError {
    MetadataDecode,
}

/// Loading the clip catalog failed on some entry (fail-fast: a partial
/// catalog is never returned).
#[derive(Clone, Copy, Debug, PartialEq, Eq, Structural)]
pub enum CatalogError {
    CatalogLoad,
}

/// Clip selection failures.
#[derive(Clone, Copy, Debug, PartialEq, Eq, Structural)]
pub enum SelectError {
    /// A clip name was given and no clip's directory stem matches it.
    ClipNotFound,
    /// No name was given and the catalog is empty, so there is nothing
    /// to offer the interactive selector.
    EmptyCatalog,
}

/// Stream reconstruction failures, one per pipeline step.
#[derive(Clone, Copy, Debug, PartialEq, Eq, Structural)]
pub enum PipelineError {
    /// The descriptor has no timeline, no recording, or no recording id.
    MissingRecordingId,
    /// The `video/<recording_id>` segment directory is absent on disk.
    MissingSegmentDir,
    /// A required `init-streamN.m4s` initialization segment is absent.
    /// The payload is the stream index (0 = video, 1 = audio).
    FragmentMissing(u8),
    /// Writing an intermediate stream file failed.
    ConcatenationIO,
    /// The external muxer exited with the given non-zero status.
    Mux(i32),
}

} // verus!
