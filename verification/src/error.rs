use vstd::prelude::*;

verus! {

/// The wire fields that decoding can complain about.
///
/// `Document` stands for the top-level value itself, which must be a
/// dictionary in both metainfo documents and tracker responses.
#[derive(Clone, Copy, Debug, PartialEq, Eq, Structural)]
pub enum Field {
    Document,
    Announce,
    AnnounceList,
    Comment,
    CreatedBy,
    CreationDate,
    Encoding,
    Info,
    Files,
    Length,
    Name,
    PieceLength,
    Pieces,
    Private,
    Source,
    Path,
    Interval,
    Complete,
    Incomplete,
    Peers,
    Ip,
    PeerId,
    Port,
}

/// Everything that can go wrong while decoding a metainfo document or a
/// tracker response.
///
/// A document either decodes completely or fails with exactly one of these;
/// no partial result is ever produced.
#[derive(Clone, Copy, Debug, PartialEq, Eq, Structural)]
pub enum DecodeError {
    /// The bytes are not a well-formed bencoded value.
    ParseFailure,
    /// Bytes remain after the single top-level value.
    TrailingData,
    /// A required key is absent.
    MissingField(Field),
    /// A key is present but holds a value of the wrong kind.
    WrongType(Field),
    /// A text field holds bytes that are not valid UTF-8.
    InvalidUtf8(Field),
    /// The announce-list is not a list of lists of strings.
    MalformedAnnounceList,
    /// Exactly one of `length` and `files` must be present; both or neither
    /// were found.
    ConflictingFields,
    /// A field that is conceptually a byte count holds a negative integer.
    NegativeValue(Field),
    /// The `encoding` field names anything but UTF-8.
    UnsupportedEncoding,
    /// A compact peer list's length is not a multiple of the record size.
    /// Carries the required multiple and the actual length.
    InvalidCompactLength(u64, u64),
    /// A peer dictionary's `ip` does not parse as an IPv4 or IPv6 address.
    InvalidIpAddress,
}

/// Everything that can go wrong while re-encoding an `Info` for hashing.
///
/// Encoding a well-formed value tree cannot fail; the only guard is the
/// digest input cap, which no realisable value reaches.
#[derive(Clone, Copy, Debug, PartialEq, Eq, Structural)]
pub enum EncodeError {
    /// The canonical encoding exceeds the digest function's input limit.
    PayloadTooLarge,
}

} // verus!
