//! The chunks in which artifacts are written and read, as base64 text.
use base64::Engine;
use vstd::prelude::*;
use vstd::string::*;
use vstd::utf8::*;

verus! {

/// The largest chunk of an artifact.
pub const MAX_ARTIFACT_CHUNK_BYTES: usize = 524_288;

/// The length of the largest chunk as base64 text.
pub const MAX_ENCODED_ARTIFACT_CHUNK_BYTES: usize = 699_052;

/// The size from which on the log of writes is put aside.
pub const WRITES_LOG_ROTATE_BYTES: u64 = 10_485_760;

/// What `base64` reads from a text in the standard alphabet with padding.
pub uninterp spec fn standard_bytes(text: Seq<char>) -> Option<Seq<u8>>;

/// `base64::engine::general_purpose::STANDARD.encode`: a text of four ASCII
/// characters for every three bytes begun, from which the same engine reads the
/// bytes back. The characters themselves are left unsaid.
#[verifier::external_body]
pub(crate) fn encode_standard(bytes: &[u8]) -> (out: String)
    requires
        bytes@.len() <= 0x4000_0000,
    ensures
        standard_bytes(out@) == Some(bytes@),
        encode_utf8(out@).len() == (bytes@.len() + 2) / 3 * 4,
{
    base64::engine::general_purpose::STANDARD.encode(bytes)
}

/// `base64::engine::general_purpose::STANDARD.decode`, which depends on the text
/// alone.
#[verifier::external_body]
pub(crate) fn decode_standard(text: &str) -> (r: Option<Vec<u8>>)
    ensures
        match r {
            Some(bytes) => standard_bytes(text@) == Some(bytes@),
            None => standard_bytes(text@) is None,
        },
{
    base64::engine::general_purpose::STANDARD.decode(text).ok()
}

/// Why a chunk of an artifact is refused; the numbers are sizes.
#[derive(Debug, Clone, Copy, PartialEq, Eq, Structural)]
pub enum ArtifactChunkProblem {
    EncodedTooLarge(usize),
    TooLarge(usize),
    NotBase64,
}

/// The bytes of a chunk whose text has that length and was decoded to that.
pub open spec fn chunk_bytes(encoded: int, decoded: Option<Seq<u8>>) -> Result<
    Seq<u8>,
    ArtifactChunkProblem,
> {
    if encoded > MAX_ENCODED_ARTIFACT_CHUNK_BYTES {
        Err(ArtifactChunkProblem::EncodedTooLarge(encoded as usize))
    } else {
        match decoded {
            None => Err(ArtifactChunkProblem::NotBase64),
            Some(bytes) => if bytes.len() > MAX_ARTIFACT_CHUNK_BYTES {
                Err(ArtifactChunkProblem::TooLarge(bytes.len() as usize))
            } else {
                Ok(bytes)
            },
        }
    }
}

/// Checks the size of a chunk that was decoded.
pub fn check_artifact_chunk(encoded: usize, decoded: Option<Vec<u8>>) -> (r: Result<
    Vec<u8>,
    ArtifactChunkProblem,
>)
    ensures
        ({
            let model = match decoded {
                Some(bytes) => Some(bytes@),
                None => None,
            };
            match r {
                Ok(bytes) => chunk_bytes(encoded as int, model) == Ok::<
                    Seq<u8>,
                    ArtifactChunkProblem,
                >(bytes@),
                Err(p) => chunk_bytes(encoded as int, model) == Err::<
                    Seq<u8>,
                    ArtifactChunkProblem,
                >(p),
            }
        }),
{
    if encoded > MAX_ENCODED_ARTIFACT_CHUNK_BYTES {
        return Err(ArtifactChunkProblem::EncodedTooLarge(encoded));
    }
    match decoded {
        None => Err(ArtifactChunkProblem::NotBase64),
        Some(bytes) => if bytes.len() > MAX_ARTIFACT_CHUNK_BYTES {
            Err(ArtifactChunkProblem::TooLarge(bytes.len()))
        } else {
            Ok(bytes)
        },
    }
}

/// Decodes a chunk of an artifact.
pub fn artifact_chunk(bytes_base64: &str) -> (r: Result<Vec<u8>, ArtifactChunkProblem>)
    ensures
        ({
            let outcome = chunk_bytes(
                encode_utf8(bytes_base64@).len() as int,
                standard_bytes(bytes_base64@),
            );
            match r {
                Ok(bytes) => outcome == Ok::<Seq<u8>, ArtifactChunkProblem>(bytes@),
                Err(p) => outcome == Err::<Seq<u8>, ArtifactChunkProblem>(p),
            }
        }),
{
    let encoded: usize = bytes_base64.as_bytes().len();
    if encoded > MAX_ENCODED_ARTIFACT_CHUNK_BYTES {
        return Err(ArtifactChunkProblem::EncodedTooLarge(encoded));
    }
    let decoded = decode_standard(bytes_base64);
    check_artifact_chunk(encoded, decoded)
}

/// Why a part of an artifact cannot be read.
#[derive(Debug, Clone, Copy, PartialEq, Eq, Structural)]
pub enum ReadRangeProblem {
    /// The part begins behind the end.
    Offset,
    /// The size that is asked for is out of range.
    MaxBytes,
}

/// A part of an artifact.
#[derive(Debug, Clone, Copy, PartialEq, Eq, Structural)]
pub struct ReadRange {
    pub count: u64,
    pub next_offset: u64,
    pub eof: bool,
}

/// The part of `size` bytes that begins at `offset`.
pub open spec fn read_range(offset: u64, max_bytes: Option<u64>, size: u64) -> Result<
    ReadRange,
    ReadRangeProblem,
> {
    let requested = match max_bytes {
        Some(n) => n,
        None => MAX_ARTIFACT_CHUNK_BYTES as u64,
    };
    if offset >= size {
        Err(ReadRangeProblem::Offset)
    } else if requested == 0 || requested > MAX_ARTIFACT_CHUNK_BYTES {
        Err(ReadRangeProblem::MaxBytes)
    } else {
        let count = if requested <= size - offset {
            requested
        } else {
            (size - offset) as u64
        };
        Ok(
            ReadRange {
                count,
                next_offset: (offset + count) as u64,
                eof: offset + count == size,
            },
        )
    }
}

/// Picks the part of an artifact to read.
pub fn artifact_read(offset: u64, max_bytes: Option<u64>, size: u64) -> (r: Result<
    ReadRange,
    ReadRangeProblem,
>)
    ensures
        r == read_range(offset, max_bytes, size),
{
    if offset >= size {
        return Err(ReadRangeProblem::Offset);
    }
    let limit: u64 = MAX_ARTIFACT_CHUNK_BYTES as u64;
    let requested: u64 = match max_bytes {
        Some(n) => n,
        None => limit,
    };
    if requested == 0 || requested > limit {
        return Err(ReadRangeProblem::MaxBytes);
    }
    let left: u64 = size - offset;
    let count: u64 = if requested <= left {
        requested
    } else {
        left
    };
    let next_offset: u64 = offset + count;
    Ok(ReadRange { count, next_offset, eof: next_offset == size })
}

/// A part of an artifact as text.
pub fn encode_artifact_part(bytes: &[u8]) -> (out: String)
    requires
        bytes@.len() <= MAX_ARTIFACT_CHUNK_BYTES,
    ensures
        standard_bytes(out@) == Some(bytes@),
        encode_utf8(out@).len() == (bytes@.len() + 2) / 3 * 4,
{
    encode_standard(bytes)
}

/// Why the store of artifacts refuses a request.
#[derive(Debug, Clone, Copy, PartialEq, Eq, Structural)]
pub enum ArtifactErrorKind {
    LeaseNotFound,
    InvalidToken,
    LeaseExpired,
    OffsetMismatch,
    ByteLimitExceeded,
    ExpectedSizeExceeded,
    PendingByteLimitExceeded,
    SizeMismatch,
    ChecksumMismatch,
    PendingLeaseLimitExceeded,
    Io,
    LockPoisoned,
    Other,
}

/// The code of an error, and whether another attempt may succeed.
pub open spec fn error_code(kind: ArtifactErrorKind) -> (Seq<char>, bool) {
    match kind {
        ArtifactErrorKind::LeaseNotFound => ("ARTIFACT_LEASE_NOT_FOUND"@, false),
        ArtifactErrorKind::InvalidToken => ("ARTIFACT_INVALID_TOKEN"@, false),
        ArtifactErrorKind::LeaseExpired => ("ARTIFACT_LEASE_EXPIRED"@, true),
        ArtifactErrorKind::OffsetMismatch => ("ARTIFACT_OFFSET_MISMATCH"@, true),
        ArtifactErrorKind::ByteLimitExceeded => ("ARTIFACT_VALIDATION_FAILED"@, false),
        ArtifactErrorKind::ExpectedSizeExceeded => ("ARTIFACT_VALIDATION_FAILED"@, false),
        ArtifactErrorKind::PendingByteLimitExceeded => ("ARTIFACT_VALIDATION_FAILED"@, false),
        ArtifactErrorKind::SizeMismatch => ("ARTIFACT_VALIDATION_FAILED"@, false),
        ArtifactErrorKind::ChecksumMismatch => ("ARTIFACT_VALIDATION_FAILED"@, false),
        ArtifactErrorKind::PendingLeaseLimitExceeded => ("ARTIFACT_CAPACITY"@, true),
        ArtifactErrorKind::Io => ("ARTIFACT_IO"@, true),
        ArtifactErrorKind::LockPoisoned => ("ARTIFACT_IO"@, true),
        ArtifactErrorKind::Other => ("ARTIFACT_INVALID_REQUEST"@, false),
    }
}

pub fn artifact_error_code(kind: ArtifactErrorKind) -> (r: (&'static str, bool))
    ensures
        (r.0@, r.1) == error_code(kind),
{
    match kind {
        ArtifactErrorKind::LeaseNotFound => ("ARTIFACT_LEASE_NOT_FOUND", false),
        ArtifactErrorKind::InvalidToken => ("ARTIFACT_INVALID_TOKEN", false),
        ArtifactErrorKind::LeaseExpired => ("ARTIFACT_LEASE_EXPIRED", true),
        ArtifactErrorKind::OffsetMismatch => ("ARTIFACT_OFFSET_MISMATCH", true),
        ArtifactErrorKind::ByteLimitExceeded
        | ArtifactErrorKind::ExpectedSizeExceeded
        | ArtifactErrorKind::PendingByteLimitExceeded
        | ArtifactErrorKind::SizeMismatch
        | ArtifactErrorKind::ChecksumMismatch => ("ARTIFACT_VALIDATION_FAILED", false),
        ArtifactErrorKind::PendingLeaseLimitExceeded => ("ARTIFACT_CAPACITY", true),
        ArtifactErrorKind::Io | ArtifactErrorKind::LockPoisoned => ("ARTIFACT_IO", true),
        ArtifactErrorKind::Other => ("ARTIFACT_INVALID_REQUEST", false),
    }
}

/// Whether the log of writes is put aside before it grows further; without a
/// size there is no log yet.
pub fn log_is_full(size: Option<u64>) -> (r: bool)
    ensures
        r == (size is Some && size->0 >= WRITES_LOG_ROTATE_BYTES),
{
    match size {
        Some(size) => size >= WRITES_LOG_ROTATE_BYTES,
        None => false,
    }
}

/// Reading goes on behind the part that was read, and ends exactly at the end.
pub proof fn law_reading_reaches_the_end(offset: u64, max_bytes: Option<u64>, size: u64)
    ensures
        read_range(offset, max_bytes, size) matches Ok(part) ==> {
            &&& 0 < part.count <= MAX_ARTIFACT_CHUNK_BYTES
            &&& offset < part.next_offset <= size
            &&& part.next_offset == offset + part.count
            &&& part.eof <==> part.next_offset == size
        },
{
}

/// A part that was encoded is taken as a chunk and gives its bytes back.
pub proof fn law_chunk_reads_back(text: Seq<char>, bytes: Seq<u8>)
    requires
        bytes.len() <= MAX_ARTIFACT_CHUNK_BYTES,
        encode_utf8(text).len() == (bytes.len() + 2) / 3 * 4,
    ensures
        standard_bytes(text) == Some(bytes) ==> chunk_bytes(
            encode_utf8(text).len() as int,
            standard_bytes(text),
        ) == Ok::<Seq<u8>, ArtifactChunkProblem>(bytes),
{
}

} // verus!
