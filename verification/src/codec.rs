use crate::gitr_errors::GitrError;
use sha1::Digest;
use std::fmt::Write;
use vstd::prelude::*;

verus! {

/// What the compressor makes of `data` at its default level: the zlib
/// stream that it produces, or none when it fails.
pub uninterp spec fn zlib_deflate(data: Seq<u8>) -> Option<Seq<u8>>;

/// Whether the compressor succeeds on `data`.
pub open spec fn compresses(data: Seq<u8>) -> bool {
    zlib_deflate(data) is Some
}

/// The zlib stream that the compressor produces for `data`, where it
/// succeeds.
pub open spec fn zlib_stream(data: Seq<u8>) -> Seq<u8> {
    match zlib_deflate(data) {
        Some(stream) => stream,
        None => Seq::empty(),
    }
}

/// What the decompressor makes of the zlib stream at the start of `stream`:
/// the bytes it holds and the number of bytes of `stream` it occupies; or,
/// when `stream` does not start with a complete, valid zlib stream, whether
/// the decompressor met the end of the bytes before the end of the stream
/// (`true`) or found the bytes to be no stream (`false`).
pub uninterp spec fn zlib_read(stream: Seq<u8>) -> Result<(Seq<u8>, nat), bool>;

/// The bytes that the zlib stream at the start of `stream` holds and the
/// number of bytes of `stream` that it occupies; none when `stream` does
/// not start with a complete, valid zlib stream.
pub open spec fn zlib_inflate(stream: Seq<u8>) -> Option<(Seq<u8>, nat)> {
    match zlib_read(stream) {
        Ok(found) => Some(found),
        Err(_) => None,
    }
}

/// Whether the bytes of `stream` end before the zlib stream at their start
/// does, as the decompressor tells it.
pub open spec fn cut_short(stream: Seq<u8>) -> bool {
    zlib_read(stream) == Err::<(Seq<u8>, nat), bool>(true)
}

/// The SHA-1 digest of `data`.
pub uninterp spec fn sha1_digest(data: Seq<u8>) -> Seq<u8>;

/// The text that the time formatter makes of a point in time, given in
/// seconds since 1970, as it is told `offset` seconds east of Greenwich,
/// in the layout `format`; `None` where it makes none.
pub uninterp spec fn formatted_time(timestamp: int, offset: int, format: Seq<char>) -> Option<
    Seq<u8>,
>;

/// `stream` is a zlib stream for `data`: decompressing it, whatever follows
/// it, gives back `data` and stops at the end of `stream`.
pub open spec fn is_stream_of(stream: Seq<u8>, data: Seq<u8>) -> bool {
    forall|rest: Seq<u8>| #[trigger]
        zlib_inflate(stream + rest) == Some((data, stream.len()))
}

/// Calls `flate2::write::ZlibEncoder` (`new` with `Compression::default()`,
/// `write_all`, `finish`) on a fresh `Vec`.
///
/// Trusted: the outcome, a stream or a failure, depends on `input` alone
/// and is named by `zlib_deflate(input)`; and a stream that comes out is
/// self-delimiting and lossless, so that `flate2`'s decoder recovers
/// `input` from it and consumes exactly the stream, whatever bytes follow.
/// Nothing is claimed about the inputs on which the encoder succeeds.
#[verifier::external_body]
fn zlib_encode(input: &[u8]) -> (r: Option<Vec<u8>>)
    ensures
        match r {
            Some(v) => zlib_deflate(input@) == Some(v@) && is_stream_of(v@, input@),
            None => zlib_deflate(input@) is None,
        },
{
    let mut encoder = flate2::write::ZlibEncoder::new(Vec::new(), flate2::Compression::default());
    match std::io::Write::write_all(&mut encoder, input) {
        Ok(_) => {},
        Err(_) => return None,
    }
    match encoder.finish() {
        Ok(v) => Some(v),
        Err(_) => None,
    }
}

/// Calls `flate2::bufread::ZlibDecoder` (`new`, `read_to_end`, `total_in`) on
/// `input`, and `std::io::Error::kind` on the error.
///
/// Trusted: the decoder reads one zlib stream from the start of `input` and
/// stops there; on success the result is the decompressed bytes and the
/// number of input bytes the stream occupied, which is at most
/// `input.len()`; it fails exactly when `input` does not start with a
/// complete, valid stream, with the kind `UnexpectedEof` when it met the
/// end of `input` first, and with another kind else. The outcome is named
/// by `zlib_read(input)`.
#[verifier::external_body]
pub(crate) fn zlib_decode(input: &[u8]) -> (r: Result<(Vec<u8>, usize), bool>)
    ensures
        match r {
            Ok((out, used)) => zlib_read(input@) == Ok::<(Seq<u8>, nat), bool>(
                (out@, used as nat),
            ) && used <= input@.len(),
            Err(short) => zlib_read(input@) == Err::<(Seq<u8>, nat), bool>(short),
        },
{
    let mut decoder = flate2::bufread::ZlibDecoder::new(input);
    let mut out: Vec<u8> = Vec::new();
    match std::io::Read::read_to_end(&mut decoder, &mut out) {
        Ok(_) => Ok((out, decoder.total_in() as usize)),
        Err(e) => match e.kind() {
            std::io::ErrorKind::UnexpectedEof => Err(true),
            _ => Err(false),
        },
    }
}

/// Calls `sha1::Sha1` through `sha1::Digest` (`new`, `update`, `finalize`).
///
/// Trusted: the result is the digest named `sha1_digest(input)`, and it is
/// 20 bytes long.
#[verifier::external_body]
fn sha1_raw(input: &[u8]) -> (r: Vec<u8>)
    ensures
        r@ == sha1_digest(input@),
        r@.len() == 20,
{
    let mut hasher = sha1::Sha1::new();
    hasher.update(input);
    hasher.finalize().to_vec()
}

/// Calls `chrono`: `Utc.timestamp_opt(timestamp, 0).single()`,
/// `FixedOffset::east_opt(offset)`, `DateTime::with_timezone` and
/// `DateTime::format`, and writes the result into a `String`.
///
/// Trusted: none of these panics, and what comes out, a text or none,
/// depends on the three arguments alone; it is named by `formatted_time`.
/// None comes out for a time or an offset out of range, and for a layout
/// that cannot be written.
#[verifier::external_body]
pub(crate) fn format_time(timestamp: i64, offset: i32, format: &str) -> (r: Option<Vec<u8>>)
    ensures
        match r {
            Some(v) => formatted_time(timestamp as int, offset as int, format@) == Some(v@),
            None => formatted_time(timestamp as int, offset as int, format@) is None,
        },
{
    let utc = chrono::TimeZone::timestamp_opt(&chrono::Utc, timestamp, 0).single()?;
    let zone = chrono::FixedOffset::east_opt(offset)?;
    let mut text = String::new();
    match write!(text, "{}", utc.with_timezone(&zone).format(format)) {
        Ok(_) => Some(text.into_bytes()),
        Err(_) => None,
    }
}

/// What is returned for each outcome of the compressor: its output, or
/// `CompressionError` when it gave none.
pub fn compressed_or_error(outcome: Option<Vec<u8>>) -> (r: Result<Vec<u8>, GitrError>)
    ensures
        r == match outcome {
            Some(v) => Ok::<Vec<u8>, GitrError>(v),
            None => Err::<Vec<u8>, GitrError>(GitrError::CompressionError),
        },
{
    match outcome {
        Some(v) => Ok(v),
        None => Err(GitrError::CompressionError),
    }
}

/// Compresses `input` into a zlib stream; `CompressionError` when the
/// compressor fails.
pub fn flate2compress2(input: &[u8]) -> (r: Result<Vec<u8>, GitrError>)
    ensures
        match r {
            Ok(v) => zlib_deflate(input@) == Some(v@) && v@ == zlib_stream(input@) && is_stream_of(
                v@,
                input@,
            ),
            Err(e) => e == GitrError::CompressionError && !compresses(input@),
        },
{
    compressed_or_error(zlib_encode(input))
}

/// What the decompressor makes of `input`, as a result: the bytes of the
/// stream at its start, or `CompressionError` when there is no such stream.
pub open spec fn inflated(input: Seq<u8>) -> Result<Seq<u8>, GitrError> {
    match zlib_inflate(input) {
        Some((out, used)) => Ok(out),
        None => Err(GitrError::CompressionError),
    }
}

/// Decompresses the zlib stream at the start of `input`, ignoring what
/// follows it.
pub fn decode(input: &[u8]) -> (r: Result<Vec<u8>, GitrError>)
    ensures
        match r {
            Ok(v) => inflated(input@) == Ok::<Seq<u8>, GitrError>(v@),
            Err(e) => inflated(input@) == Err::<Seq<u8>, GitrError>(e),
        },
{
    match zlib_decode(input) {
        Ok((out, used)) => Ok(out),
        Err(_) => Err(GitrError::CompressionError),
    }
}

/// The 20-byte SHA-1 digest of `input`.
pub fn sha1hashing2(input: &[u8]) -> (r: Vec<u8>)
    ensures
        r@ == sha1_digest(input@),
        r@.len() == 20,
{
    sha1_raw(input)
}

} // verus!
