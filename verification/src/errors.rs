use vstd::prelude::*;

verus! {

/// Every failure the decoding and resolution pipeline can report.
///
/// Parse-time structural violations are unrecoverable for that input: the
/// failing component returns one of these and leaves no partial state
/// behind.  The last three variants are reserved for the byte-transport
/// collaborator; no parser in this crate produces them.
#[derive(Clone, Copy, Debug, PartialEq, Eq, Structural)]
pub enum CascError {
    /// The input ends before a field or payload it declares.
    Truncated,
    /// The container magic tag is absent.
    BadMagic,
    /// The headerless single-chunk legacy container layout, which is
    /// deliberately rejected rather than guessed at.
    UnsupportedLayout,
    /// The digest over the container header disagrees with the expected one.
    HeaderChecksumMismatch,
    /// The container flag byte differs from the fixed sentinel.
    BadFlags,
    /// The declared header length disagrees with the chunk count.
    HeaderSizeMismatch,
    /// A chunk carries an unrecognized encoding tag.
    UnknownEncoding,
    /// Bytes remain after the last chunk.
    TrailingData,
    /// A declared length disagrees with the actual decoded length.
    SizeMismatch,
    /// A page, block or footer digest disagrees with its contents.
    ChecksumMismatch,
    /// A magic, version or fixed-format field has an unexpected value.
    FormatError,
    /// The encoding table has no entry for the requested content key.
    UnknownContentKey,
    /// The encoding table and the caller disagree on an encoding key.
    EncodingKeyMismatch,
    /// An encoding key reappears inside one archive index.
    DuplicateKey,
    /// An index block ends before the key its table of contents records.
    LastKeyMismatch,
    /// The entry count of an archive index disagrees with its footer.
    CountMismatch,
    /// The transport found no blob under the requested key.
    NotFound,
    /// The transport failed reading or writing a local copy.
    IoError,
    /// The transport failed fetching a remote blob.
    TransportError,
}

} // verus!
