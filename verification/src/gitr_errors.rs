use vstd::prelude::*;

verus! {

/// Every way an operation of this library can fail.
#[derive(Debug, Clone, Copy, PartialEq, Eq, Structural)]
pub enum GitrError {
    /// Canonical object bytes that cannot be parsed.
    MalformedObject,
    /// A well-formed id that the store does not hold.
    ObjectNotFound,
    /// An ancestry walk reached something that is neither a commit nor a tag.
    InvalidCommitGraph,
    /// A hash-delta names a base that was not decoded earlier in the stream.
    MissingDeltaBase,
    /// Fewer bytes remain in a pack than a declared field needs.
    TruncatedPack,
    /// A pack that does not start with the magic literal.
    BadMagic,
    /// A pack whose format version is not the supported one.
    UnsupportedVersion,
    /// A fetch asked for an id that was not advertised.
    UnknownWant,
    /// A pushed update whose claimed old id is no longer current.
    StaleReference,
    /// A message that does not follow the pkt-line framing.
    ConnectionError,
    /// The compressor or decompressor rejected its input.
    CompressionError,
    /// An argument that is not of the expected form.
    InvalidArgumentError,
    /// A push that would discard history that the other side has.
    PushError,
    /// `HEAD` points at nothing.
    NoHead,
    /// A reference that is not there.
    FileReadError,
    /// A time that cannot be read or written down.
    TimeError,
    /// A branch that is not there.
    BranchNonExistsError,
    /// A branch that is there already.
    BranchAlreadyExistsError,
    /// The branch that `HEAD` points at cannot be deleted.
    DeleteCurrentBranchError,
    /// A tag that is there already.
    TagAlreadyExistsError,
    /// A tag that is not there.
    TagNonExistsError,
    /// The branch that `HEAD` points at has no commit yet.
    NoCommitExisting,
}

} // verus!
