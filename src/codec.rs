//! The chunk codec: delta, then run-length, then zlib, and back.
use vstd::prelude::*;
use crate::delta::{delta_decode, delta_encode, delta_spec, undelta_spec, lemma_delta_round_trip};
use crate::error::QresError;
use crate::rle::{rle_decode, rle_decode_spec, rle_encode, rle_encode_spec, lemma_rle_round_trip};

verus! {

/// What flate2's zlib encoder at the default level makes of `data`.
pub uninterp spec fn zlib_compressed(data: Seq<u8>) -> Seq<u8>;

/// What flate2's zlib decoder reads from `data`, or `None` where it rejects it.
pub uninterp spec fn zlib_inflate(data: Seq<u8>) -> Option<Seq<u8>>;

/// Relies on `flate2::write::ZlibEncoder` with `Compression::default()`,
/// writing into a `Vec`: writing into a `Vec` cannot fail, the stream depends
/// on the bytes alone, starts with zlib's two-byte header, and zlib's decoder
/// reads the bytes back from it.
#[verifier::external_body]
fn zlib_compress(data: &[u8]) -> (r: Option<Vec<u8>>)
    ensures
        r is Some,
        r matches Some(c) ==> c@ == zlib_compressed(data@),
        r matches Some(c) ==> c@.len() > 0,
        r matches Some(c) ==> zlib_inflate(c@) == Some(data@),
{
    let mut encoder = flate2::write::ZlibEncoder::new(Vec::new(), flate2::Compression::default());
    std::io::Write::write_all(&mut encoder, data).ok()?;
    encoder.finish().ok()
}

/// Relies on `flate2::read::ZlibDecoder` read to the end: whether it accepts
/// its input, and the bytes it yields, depend on the input alone.
#[verifier::external_body]
fn zlib_decompress(data: &[u8]) -> (r: Option<Vec<u8>>)
    ensures
        match zlib_inflate(data@) {
            Some(p) => r matches Some(v) && v@ == p,
            None => r is None,
        },
{
    let mut decoder = flate2::read::ZlibDecoder::new(data);
    let mut out: Vec<u8> = Vec::new();
    std::io::Read::read_to_end(&mut decoder, &mut out).ok()?;
    Some(out)
}

/// The bytes handed to zlib for one chunk: its delta stream, run-length encoded.
pub open spec fn chunk_payload_spec(chunk: Seq<u8>) -> Seq<u8> {
    rle_encode_spec(delta_spec(chunk))
}

/// The compressed form of one chunk.
pub open spec fn chunk_blob_spec(chunk: Seq<u8>) -> Seq<u8> {
    zlib_compressed(chunk_payload_spec(chunk))
}

/// The chunk rebuilt from a decompressed payload, or why it cannot be.
pub open spec fn decode_payload_spec(payload: Seq<u8>) -> Result<Seq<u8>, QresError> {
    match rle_decode_spec(payload) {
        Some(d) => Ok(undelta_spec(d)),
        None => Err(QresError::TruncatedRunRecord),
    }
}

/// The chunk rebuilt from its compressed form, or why it cannot be: zlib
/// rejects it, or its payload ends in a cut-off record.
pub open spec fn chunk_decode_spec(compressed: Seq<u8>) -> Result<Seq<u8>, QresError> {
    match zlib_inflate(compressed) {
        Some(p) => decode_payload_spec(p),
        None => Err(QresError::Decompression),
    }
}

/// The view of a result that holds bytes.
pub open spec fn bytes_result(r: Result<Vec<u8>, QresError>) -> Result<Seq<u8>, QresError> {
    match r {
        Ok(v) => Ok(v@),
        Err(e) => Err(e),
    }
}

/// The payload of any chunk decodes back to the chunk.
pub proof fn lemma_payload_round_trip(chunk: Seq<u8>)
    ensures
        decode_payload_spec(chunk_payload_spec(chunk)) == Ok::<Seq<u8>, QresError>(chunk),
{
    lemma_rle_round_trip(delta_spec(chunk));
    lemma_delta_round_trip(chunk);
}

/// Delta and run-length encodes a chunk.
pub fn encode_payload(chunk: &[u8]) -> (r: Vec<u8>)
    ensures
        r@ == chunk_payload_spec(chunk@),
{
    let deltas = delta_encode(chunk);
    rle_encode(deltas.as_slice())
}

/// Rebuilds a chunk from its run-length records.
pub fn decode_payload(payload: &[u8]) -> (r: Result<Vec<u8>, QresError>)
    ensures
        bytes_result(r) == decode_payload_spec(payload@),
{
    match rle_decode(payload) {
        Ok(deltas) => Ok(delta_decode(deltas.as_slice())),
        Err(e) => Err(e),
    }
}

/// Compresses one chunk. It always succeeds, and zlib's decoder reads the
/// chunk's payload back from the blob.
pub fn compress_chunk(chunk: &[u8]) -> (r: Result<Vec<u8>, QresError>)
    ensures
        r is Ok,
        r matches Ok(c) ==> c@ == chunk_blob_spec(chunk@),
        r matches Ok(c) ==> c@.len() > 0,
        r matches Ok(c) ==> zlib_inflate(c@) == Some(chunk_payload_spec(chunk@)),
{
    let payload = encode_payload(chunk);
    match zlib_compress(payload.as_slice()) {
        Some(c) => Ok(c),
        None => Err(QresError::Compression),
    }
}

/// Decompresses one chunk: `Decompression` where zlib rejects the blob, else
/// what its payload decodes to.
pub fn decompress_chunk(compressed: &[u8]) -> (r: Result<Vec<u8>, QresError>)
    ensures
        bytes_result(r) == chunk_decode_spec(compressed@),
{
    match zlib_decompress(compressed) {
        Some(payload) => decode_payload(payload.as_slice()),
        None => Err(QresError::Decompression),
    }
}

/// A blob that `compress_chunk` made decompresses to its chunk.
pub proof fn lemma_chunk_round_trip(chunk: Seq<u8>, blob: Seq<u8>)
    requires
        zlib_inflate(blob) == Some(chunk_payload_spec(chunk)),
    ensures
        chunk_decode_spec(blob) == Ok::<Seq<u8>, QresError>(chunk),
{
    lemma_payload_round_trip(chunk);
}

} // verus!
