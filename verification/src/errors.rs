use vstd::prelude::*;

verus! {

/// Errors raised while building, loading or querying a FASTA index.
///
/// Scan and sidecar errors are fatal for the whole build: a partially
/// built index is unsafe to seek with.  The region errors are recoverable:
/// the offending region is skipped and the batch continues.
#[derive(Clone, Copy, Debug, PartialEq, Eq, Structural)]
pub enum FakitError {
    /// The first line of the scanned file is not a `>` header line.
    MissingHeader,
    /// A body line breaks the uniform-width rule (longer than the record's
    /// established line width, or following a shorter-than-full line).
    /// Carries the 1-based line number of the offending line.
    NonUniformLineLength(u64),
    /// A sidecar index row fails to parse or holds inconsistent metadata.
    /// Carries the 1-based row number of the offending row.
    MalformedIndexLine(u64),
    /// A region descriptor names a sequence absent from the index.
    UnknownSequence,
    /// A region range violates `1 <= start <= end <= sequence_length`.
    RegionOutOfBounds,
    /// A region descriptor string does not match `name` or `name:start-end`.
    MalformedRegion,
}

} // verus!
