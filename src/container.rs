//! The container: a four-byte big-endian header length, the bincode header,
//! then the compressed chunks back to back.
use vstd::prelude::*;
use crate::codec::{
    bytes_result, chunk_blob_spec, chunk_decode_spec, chunk_payload_spec, decompress_chunk,
    zlib_inflate, lemma_chunk_round_trip,
};
use crate::error::QresError;
use crate::orchestrator::{
    blobs_of, chunks_spec, compress_chunks, copy_range, split_chunks, views,
    lemma_chunking,
};

verus! {

broadcast use vstd::seq_lib::group_seq_properties;

/// The metadata written in front of the chunks.
pub struct QresHeader {
    /// Seconds since the Unix epoch when the container was made.
    pub timestamp: i64,
    /// The length of the original stream.
    pub original_size: u64,
    /// The sum of the compressed chunk lengths.
    pub compressed_size: u64,
    /// The name of the source file.
    pub file_name: String,
    /// The compressed length of each chunk, in order.
    pub chunk_compressed_sizes: Vec<u64>,
}

/// What a header holds.
pub struct HeaderModel {
    pub timestamp: i64,
    pub original_size: u64,
    pub compressed_size: u64,
    pub file_name: Seq<char>,
    pub chunk_sizes: Seq<u64>,
}

impl View for QresHeader {
    type V = HeaderModel;

    open spec fn view(&self) -> HeaderModel {
        HeaderModel {
            timestamp: self.timestamp,
            original_size: self.original_size,
            compressed_size: self.compressed_size,
            file_name: self.file_name@,
            chunk_sizes: self.chunk_compressed_sizes@,
        }
    }
}

/// The bytes that bincode makes of a header.
pub uninterp spec fn header_encoding(h: HeaderModel) -> Seq<u8>;

/// The header that bincode reads from some bytes, if it reads one.
pub uninterp spec fn header_decoding(b: Seq<u8>) -> Option<HeaderModel>;

/// Relies on `bincode::serialize` (fixed-width integers, lengths as `u64`):
/// the header's fields in order, which bincode lays out as it would the
/// struct. It sets no size limit, and integers, a `String` and a `Vec<u64>`
/// always serialize; the bytes depend on the fields alone and
/// `bincode::deserialize` reads the same fields back from them.
#[verifier::external_body]
fn serialize_header(h: &QresHeader) -> (r: Option<Vec<u8>>)
    ensures
        r is Some,
        r matches Some(b) ==> b@ == header_encoding(h@),
        r matches Some(b) ==> header_decoding(b@) == Some(h@),
{
    bincode::serialize(
        &(h.timestamp, h.original_size, h.compressed_size, &h.file_name, &h.chunk_compressed_sizes),
    ).ok()
}

/// Relies on `bincode::deserialize` of the header's fields in order: what it
/// reads depends on the bytes alone.
#[verifier::external_body]
fn deserialize_header(b: &[u8]) -> (r: Option<QresHeader>)
    ensures
        r matches Some(h) ==> header_decoding(b@) == Some(h@),
        r is None ==> header_decoding(b@) is None,
{
    let (timestamp, original_size, compressed_size, file_name, chunk_compressed_sizes) =
        bincode::deserialize::<(i64, u64, u64, String, Vec<u64>)>(b).ok()?;
    Some(
        QresHeader { timestamp, original_size, compressed_size, file_name, chunk_compressed_sizes },
    )
}

/// The sum of a list of sizes.
pub open spec fn total(sizes: Seq<u64>) -> nat
    decreases sizes.len(),
{
    if sizes.len() == 0 {
        0
    } else {
        total(sizes.drop_last()) + sizes.last() as nat
    }
}

/// The length of each of a list of byte sequences.
pub open spec fn lens(blobs: Seq<Seq<u8>>) -> Seq<u64> {
    blobs.map_values(|b: Seq<u8>| b.len() as u64)
}

/// The header of a stream of `original_size` bytes compressed into `blobs`.
pub open spec fn header_spec(
    original_size: nat,
    file_name: Seq<char>,
    timestamp: i64,
    blobs: Seq<Seq<u8>>,
) -> HeaderModel {
    HeaderModel {
        timestamp,
        original_size: original_size as u64,
        compressed_size: total(lens(blobs)) as u64,
        file_name,
        chunk_sizes: lens(blobs),
    }
}

/// Four bytes holding `n` big-endian.
pub open spec fn be32_bytes(n: nat) -> Seq<u8> {
    seq![
        (n / 16777216) as u8,
        ((n / 65536) % 256) as u8,
        ((n / 256) % 256) as u8,
        (n % 256) as u8,
    ]
}

/// The number that the first four bytes of `b` hold big-endian.
pub open spec fn be32_value(b: Seq<u8>) -> nat {
    (b[0] * 16777216 + b[1] * 65536 + b[2] * 256 + b[3]) as nat
}

/// The container of a header's bytes and the compressed chunks.
pub open spec fn frame_spec(header_bytes: Seq<u8>, blobs: Seq<Seq<u8>>) -> Seq<u8> {
    be32_bytes(header_bytes.len()) + header_bytes + blobs.flatten()
}

/// Four big-endian bytes read back as the number they were made from.
proof fn lemma_be32(n: nat)
    requires
        n <= 0xFFFF_FFFF,
    ensures
        be32_value(be32_bytes(n)) == n,
{
    let b = be32_bytes(n);
    assert(b[0] * 16777216 + b[1] * 65536 + b[2] * 256 + b[3] == n) by (nonlinear_arith)
        requires
            n <= 0xFFFF_FFFF,
            b[0] == n / 16777216,
            b[1] == (n / 65536) % 256,
            b[2] == (n / 256) % 256,
            b[3] == n % 256,
    ;
}

/// Adds up the compressed lengths and builds the header. Fails when the sum
/// does not fit in 64 bits.
pub fn build_header(
    original_size: u64,
    file_name: &String,
    timestamp: i64,
    blobs: &Vec<Vec<u8>>,
) -> (r: Result<QresHeader, QresError>)
    ensures
        total(lens(views(blobs@))) <= u64::MAX ==> (r matches Ok(h) && h@ == header_spec(
            original_size as nat,
            file_name@,
            timestamp,
            views(blobs@),
        )),
        total(lens(views(blobs@))) > u64::MAX ==> r == Err::<QresHeader, QresError>(
            QresError::SizeOverflow,
        ),
        r is Ok ==> forall|k: int|
            0 <= k < blobs@.len() ==> #[trigger] blobs@[k]@.len() <= u64::MAX,
{
    let mut sizes: Vec<u64> = Vec::new();
    let mut sum: u64 = 0;
    let mut i: usize = 0;
    while i < blobs.len()
        invariant
            i <= blobs.len(),
            sizes@ == lens(views(blobs@)).take(i as int),
            sum == total(sizes@),
            forall|k: int| 0 <= k < i ==> #[trigger] blobs@[k]@.len() <= u64::MAX,
        decreases blobs.len() - i,
    {
        let len = blobs[i].len() as u64;
        proof {
            assert(sizes@.push(len) =~= lens(views(blobs@)).take(i + 1));
            assert(sizes@.push(len).drop_last() =~= sizes@);
        }
        if len > u64::MAX - sum {
            proof {
                lemma_total_prefix(lens(views(blobs@)), i + 1);
            }
            return Err(QresError::SizeOverflow);
        }
        sizes.push(len);
        sum = sum + len;
        i += 1;
    }
    assert(sizes@ =~= lens(views(blobs@)));
    let header = QresHeader {
        timestamp,
        original_size,
        compressed_size: sum,
        file_name: file_name.clone(),
        chunk_compressed_sizes: sizes,
    };
    assert(header@ == header_spec(original_size as nat, file_name@, timestamp, views(blobs@)));
    Ok(header)
}

/// A prefix of a list of sizes adds up to no more than the whole list.
pub proof fn lemma_total_prefix(sizes: Seq<u64>, j: int)
    requires
        0 <= j <= sizes.len(),
    ensures
        total(sizes.take(j)) <= total(sizes),
    decreases sizes.len(),
{
    if j < sizes.len() {
        lemma_total_prefix(sizes.drop_last(), j);
        assert(sizes.drop_last().take(j) =~= sizes.take(j));
    } else {
        assert(sizes.take(j) =~= sizes);
    }
}

/// Lays out the container: the header's length, the header, the chunks.
/// Fails when the header is too long for its four-byte length.
pub fn frame_container(header_bytes: &[u8], blobs: &Vec<Vec<u8>>) -> (r: Result<
    Vec<u8>,
    QresError,
>)
    ensures
        header_bytes.len() <= 0xFFFF_FFFF ==> (r matches Ok(b) && b@ == frame_spec(
            header_bytes@,
            views(blobs@),
        )),
        header_bytes.len() > 0xFFFF_FFFF ==> r == Err::<Vec<u8>, QresError>(
            QresError::HeaderTooLarge,
        ),
{
    if header_bytes.len() > 0xFFFF_FFFF {
        return Err(QresError::HeaderTooLarge);
    }
    let n: u32 = header_bytes.len() as u32;
    let mut out: Vec<u8> = Vec::new();
    out.push((n / 16777216) as u8);
    out.push(((n / 65536) % 256) as u8);
    out.push(((n / 256) % 256) as u8);
    out.push((n % 256) as u8);
    let mut k: usize = 0;
    while k < header_bytes.len()
        invariant
            k <= header_bytes.len(),
            out@ == be32_bytes(n as nat) + header_bytes@.take(k as int),
        decreases header_bytes.len() - k,
    {
        out.push(header_bytes[k]);
        k += 1;
        assert(out@ =~= be32_bytes(n as nat) + header_bytes@.take(k as int));
    }
    assert(header_bytes@.take(k as int) =~= header_bytes@);
    let ghost head = out@;
    let mut i: usize = 0;
    while i < blobs.len()
        invariant
            i <= blobs.len(),
            out@ == head + views(blobs@).take(i as int).flatten(),
        decreases blobs.len() - i,
    {
        let ghost before = out@;
        let blob = &blobs[i];
        let mut j: usize = 0;
        while j < blob.len()
            invariant
                j <= blob.len(),
                out@ == before + blob@.take(j as int),
            decreases blob.len() - j,
        {
            out.push(blob[j]);
            j += 1;
            assert(out@ =~= before + blob@.take(j as int));
        }
        proof {
            assert(blob@.take(j as int) =~= blob@);
            let t = views(blobs@).take(i as int);
            assert(views(blobs@).take(i + 1) =~= t.push(blob@));
            t.lemma_flatten_push(blob@);
            assert(out@ =~= head + views(blobs@).take(i + 1).flatten());
        }
        i += 1;
    }
    assert(views(blobs@).take(blobs.len() as int) =~= views(blobs@));
    Ok(out)
}

/// The compressed chunks of a container body, cut by the header's sizes.
pub open spec fn pieces_spec(body: Seq<u8>, sizes: Seq<u64>) -> Seq<Seq<u8>> {
    Seq::new(
        sizes.len(),
        |i: int| body.subrange(total(sizes.take(i)) as int, total(sizes.take(i + 1)) as int),
    )
}

/// The header and the compressed chunks that a container holds, or why it
/// holds none: too short for the length prefix, a header that runs past the
/// end or does not deserialize, or chunk sizes that run past the end.
pub open spec fn parse_spec(b: Seq<u8>) -> Result<(HeaderModel, Seq<Seq<u8>>), QresError> {
    if b.len() < 4 {
        Err(QresError::MissingLengthPrefix)
    } else if b.len() - 4 < be32_value(b) {
        Err(QresError::HeaderOverrun)
    } else {
        let n = be32_value(b) as int;
        match header_decoding(b.subrange(4, 4 + n)) {
            None => Err(QresError::BadHeader),
            Some(h) => if total(h.chunk_sizes) > b.len() - 4 - n {
                Err(QresError::ChunkOverrun)
            } else {
                Ok((h, pieces_spec(b.skip(4 + n), h.chunk_sizes)))
            },
        }
    }
}

/// The chunks rebuilt from their compressed forms, one after the other; the
/// first that does not decode decides the error.
pub open spec fn decode_all_spec(pieces: Seq<Seq<u8>>) -> Result<Seq<u8>, QresError>
    decreases pieces.len(),
{
    if pieces.len() == 0 {
        Ok(Seq::empty())
    } else {
        match decode_all_spec(pieces.drop_last()) {
            Err(e) => Err(e),
            Ok(prefix) => match chunk_decode_spec(pieces.last()) {
                Err(e) => Err(e),
                Ok(c) => Ok(prefix + c),
            },
        }
    }
}

/// What a container decodes to: its chunks rebuilt and joined, which must
/// come to the size that the header records.
pub open spec fn decode_container_spec(b: Seq<u8>) -> Result<Seq<u8>, QresError> {
    match parse_spec(b) {
        Err(e) => Err(e),
        Ok((h, pieces)) => match decode_all_spec(pieces) {
            Err(e) => Err(e),
            Ok(out) => if out.len() == h.original_size {
                Ok(out)
            } else {
                Err(QresError::SizeMismatch)
            },
        },
    }
}

/// The compressed chunks of `data` cut at `chunk_size`.
pub open spec fn blobs_spec(data: Seq<u8>, chunk_size: nat) -> Seq<Seq<u8>> {
    chunks_spec(data, chunk_size).map_values(|c: Seq<u8>| chunk_blob_spec(c))
}

/// The header of the container of `data` cut at `chunk_size`.
pub open spec fn encoded_header_spec(
    data: Seq<u8>,
    chunk_size: nat,
    file_name: Seq<char>,
    timestamp: i64,
) -> HeaderModel {
    header_spec(data.len(), file_name, timestamp, blobs_spec(data, chunk_size))
}

/// The container of `data` cut at `chunk_size`, with its file name and time.
pub open spec fn container_spec(
    data: Seq<u8>,
    chunk_size: nat,
    file_name: Seq<char>,
    timestamp: i64,
) -> Seq<u8> {
    frame_spec(
        header_encoding(encoded_header_spec(data, chunk_size, file_name, timestamp)),
        blobs_spec(data, chunk_size),
    )
}

/// An error in a prefix of the payloads is the error of them all.
proof fn lemma_decode_all_err(ps: Seq<Seq<u8>>, j: int, e: QresError)
    requires
        0 <= j <= ps.len(),
        decode_all_spec(ps.take(j)) == Err::<Seq<u8>, QresError>(e),
    ensures
        decode_all_spec(ps) == Err::<Seq<u8>, QresError>(e),
    decreases ps.len(),
{
    if j < ps.len() {
        assert(ps.drop_last().take(j) =~= ps.take(j));
        lemma_decode_all_err(ps.drop_last(), j, e);
    } else {
        assert(ps.take(j) =~= ps);
    }
}

/// Appending a blob leaves the pieces cut from the earlier ones alone.
proof fn lemma_piece_of_push(front: Seq<Seq<u8>>, x: Seq<u8>, i: int)
    requires
        0 <= i < front.len(),
        x.len() <= u64::MAX,
        total(lens(front)) == front.flatten().len(),
        pieces_spec(front.flatten(), lens(front)) == front,
    ensures
        pieces_spec(front.flatten() + x, lens(front.push(x)))[i] == front[i],
{
    let l = lens(front.push(x));
    let lf = lens(front);
    assert(l.take(i) =~= lf.take(i));
    assert(l.take(i + 1) =~= lf.take(i + 1));
    lemma_total_prefix(lf, i + 1);
    lemma_total_prefix(lf.take(i + 1), i);
    assert(lf.take(i + 1).take(i) =~= lf.take(i));
    assert(pieces_spec(front.flatten(), lf)[i] == front[i]);
    assert(pieces_spec(front.flatten() + x, l)[i] =~= pieces_spec(front.flatten(), lf)[i]);
}

/// Cutting joined blobs by their own lengths gives the blobs back.
proof fn lemma_pieces_of_flatten(blobs: Seq<Seq<u8>>)
    requires
        forall|k: int| 0 <= k < blobs.len() ==> #[trigger] blobs[k].len() <= u64::MAX,
    ensures
        total(lens(blobs)) == blobs.flatten().len(),
        pieces_spec(blobs.flatten(), lens(blobs)) == blobs,
    decreases blobs.len(),
{
    if blobs.len() == 0 {
        assert(pieces_spec(blobs.flatten(), lens(blobs)) =~= blobs);
    } else {
        let front = blobs.drop_last();
        let x = blobs.last();
        assert(blobs =~= front.push(x));
        assert(forall|k: int| 0 <= k < front.len() ==> #[trigger] front[k] == blobs[k]);
        lemma_pieces_of_flatten(front);
        front.lemma_flatten_push(x);
        let l = lens(blobs);
        let lf = lens(front);
        assert(l.drop_last() =~= lf);
        let f = blobs.flatten();
        let ff = front.flatten();
        let p = pieces_spec(f, l);
        assert forall|i: int| 0 <= i < blobs.len() implies #[trigger] p[i] == blobs[i] by {
            if i < front.len() {
                lemma_piece_of_push(front, x, i);
            } else {
                assert(l.take(i) =~= lf);
                assert(l.take(i + 1) =~= l);
                assert(p[i] =~= x);
            }
        }
        assert(p =~= blobs);
    }
}

/// The compressed forms of a list of chunks decode to the chunks joined.
proof fn lemma_decode_all_chunks(chunks: Seq<Seq<u8>>, blobs: Seq<Seq<u8>>)
    requires
        blobs_of(chunks, blobs),
    ensures
        decode_all_spec(blobs) == Ok::<Seq<u8>, QresError>(chunks.flatten()),
    decreases chunks.len(),
{
    if chunks.len() > 0 {
        let front = chunks.drop_last();
        let bf = blobs.drop_last();
        assert(blobs_of(front, bf)) by {
            assert forall|i: int| 0 <= i < front.len() implies #[trigger] bf[i]
                == chunk_blob_spec(front[i]) && zlib_inflate(bf[i]) == Some(
                chunk_payload_spec(front[i]),
            ) && bf[i].len() > 0 by {
                assert(bf[i] == blobs[i] && front[i] == chunks[i]);
            }
        }
        lemma_decode_all_chunks(front, bf);
        lemma_chunk_round_trip(chunks.last(), blobs.last());
        assert(chunks =~= front.push(chunks.last()));
        front.lemma_flatten_push(chunks.last());
    }
}

/// A framed header and blobs parse back to that header and those blobs.
proof fn lemma_parse_frame(hb: Seq<u8>, blobs: Seq<Seq<u8>>, h: HeaderModel)
    requires
        forall|k: int| 0 <= k < blobs.len() ==> #[trigger] blobs[k].len() <= u64::MAX,
        h.chunk_sizes == lens(blobs),
        header_decoding(hb) == Some(h),
        hb.len() <= 0xFFFF_FFFF,
    ensures
        parse_spec(frame_spec(hb, blobs)) == Ok::<(HeaderModel, Seq<Seq<u8>>), QresError>(
            (h, blobs),
        ),
        be32_value(frame_spec(hb, blobs)) == hb.len(),
        frame_spec(hb, blobs).len() == 4 + hb.len() + total(lens(blobs)),
{
    let b = frame_spec(hb, blobs);
    let n = hb.len() as int;
    lemma_be32(n as nat);
    assert(b.take(4) =~= be32_bytes(n as nat));
    assert(b[0] == be32_bytes(n as nat)[0] && b[1] == be32_bytes(n as nat)[1] && b[2]
        == be32_bytes(n as nat)[2] && b[3] == be32_bytes(n as nat)[3]);
    assert(be32_value(b) == n);
    assert(b.subrange(4, 4 + n) =~= hb);
    lemma_pieces_of_flatten(blobs);
    assert(b.skip(4 + n) =~= blobs.flatten());
}

/// Every container that `encode_container` can make decodes to its data.
proof fn lemma_container_round_trip(
    data: Seq<u8>,
    chunk_size: nat,
    blobs: Seq<Seq<u8>>,
    h: HeaderModel,
    hb: Seq<u8>,
)
    requires
        chunk_size > 0,
        data.len() <= u64::MAX,
        blobs_of(chunks_spec(data, chunk_size), blobs),
        forall|k: int| 0 <= k < blobs.len() ==> #[trigger] blobs[k].len() <= u64::MAX,
        h.original_size == data.len(),
        h.chunk_sizes == lens(blobs),
        header_decoding(hb) == Some(h),
        hb.len() <= 0xFFFF_FFFF,
    ensures
        decode_container_spec(frame_spec(hb, blobs)) == Ok::<Seq<u8>, QresError>(data),
{
    let chunks = chunks_spec(data, chunk_size);
    lemma_parse_frame(hb, blobs, h);
    lemma_decode_all_chunks(chunks, blobs);
    lemma_chunking(data, chunk_size);
}

/// Reads the header and cuts out the compressed chunks.
pub fn parse_container(bytes: &[u8]) -> (r: Result<(QresHeader, Vec<Vec<u8>>), QresError>)
    ensures
        match parse_spec(bytes@) {
            Ok((h, ps)) => r matches Ok((hh, v)) && hh@ == h && views(v@) == ps,
            Err(e) => r matches Err(e2) && e2 == e,
        },
{
    if bytes.len() < 4 {
        return Err(QresError::MissingLengthPrefix);
    }
    let n64: u64 = (bytes[0] as u64) * 16777216 + (bytes[1] as u64) * 65536 + (bytes[2] as u64)
        * 256 + (bytes[3] as u64);
    if n64 > (bytes.len() - 4) as u64 {
        return Err(QresError::HeaderOverrun);
    }
    let n: usize = n64 as usize;
    let header_bytes = vstd::slice::slice_subrange(bytes, 4, 4 + n);
    let header = match deserialize_header(header_bytes) {
        Some(h) => h,
        None => {
            return Err(QresError::BadHeader);
        },
    };
    let avail: usize = bytes.len() - 4 - n;
    let ghost sizes = header.chunk_compressed_sizes@;
    let mut sum: usize = 0;
    let mut i: usize = 0;
    while i < header.chunk_compressed_sizes.len()
        invariant
            i <= header.chunk_compressed_sizes.len(),
            sizes == header.chunk_compressed_sizes@,
            sum == total(sizes.take(i as int)),
            sum <= avail,
            bytes.len() >= 4,
            be32_value(bytes@) == n,
            avail == bytes.len() - 4 - n,
            header_decoding(bytes@.subrange(4, 4 + n as int)) == Some(header@),
        decreases header.chunk_compressed_sizes.len() - i,
    {
        proof {
            assert(sizes.take(i + 1).drop_last() =~= sizes.take(i as int));
        }
        if header.chunk_compressed_sizes[i] > (avail - sum) as u64 {
            proof {
                assert(sizes.take(i + 1).last() == sizes[i as int]);
                assert(total(sizes.take(i + 1)) == sum + sizes[i as int]);
                lemma_total_prefix(sizes, i + 1);
            }
            return Err(QresError::ChunkOverrun);
        }
        sum = sum + header.chunk_compressed_sizes[i] as usize;
        i += 1;
    }
    assert(sizes.take(header.chunk_compressed_sizes.len() as int) =~= sizes);
    let start: usize = 4 + n;
    let ghost body = bytes@.skip(start as int);
    let mut pieces: Vec<Vec<u8>> = Vec::new();
    let mut off: usize = 0;
    let mut i: usize = 0;
    while i < header.chunk_compressed_sizes.len()
        invariant
            i <= header.chunk_compressed_sizes.len(),
            sizes == header.chunk_compressed_sizes@,
            start == 4 + n,
            start + avail == bytes.len(),
            total(sizes) <= avail,
            body == bytes@.skip(start as int),
            off == total(sizes.take(i as int)),
            views(pieces@) == pieces_spec(body, sizes).take(i as int),
            pieces@.len() == i,
        decreases header.chunk_compressed_sizes.len() - i,
    {
        proof {
            assert(sizes.take(i + 1).drop_last() =~= sizes.take(i as int));
            lemma_total_prefix(sizes, i + 1);
        }
        let end: usize = off + header.chunk_compressed_sizes[i] as usize;
        let piece = copy_range(bytes, start + off, start + end);
        proof {
            assert(piece@ =~= pieces_spec(body, sizes)[i as int]);
        }
        let ghost before = pieces@;
        let ghost pv = piece@;
        pieces.push(piece);
        proof {
            assert(views(pieces@) =~= views(before).push(pv));
            assert(views(pieces@) =~= pieces_spec(body, sizes).take(i + 1));
        }
        off = end;
        i += 1;
    }
    assert(pieces_spec(body, sizes).take(sizes.len() as int) =~= pieces_spec(body, sizes));
    Ok((header, pieces))
}

/// Decodes a container. Unless zlib rejects a chunk, the result is exactly
/// what the container decodes to.
pub fn decode_container(bytes: &[u8]) -> (r: Result<Vec<u8>, QresError>)
    ensures
        bytes_result(r) == decode_container_spec(bytes@),
{
    let (header, pieces) = match parse_container(bytes) {
        Ok(p) => p,
        Err(e) => {
            return Err(e);
        },
    };
    let ghost ps = views(pieces@);
    let mut out: Vec<u8> = Vec::new();
    let mut i: usize = 0;
    while i < pieces.len()
        invariant
            i <= pieces.len(),
            ps == views(pieces@),
            parse_spec(bytes@) matches Ok((h, p)) && h == header@ && p == ps,
            decode_all_spec(ps.take(i as int)) == Ok::<Seq<u8>, QresError>(out@),
        decreases pieces.len() - i,
    {
        proof {
            assert(ps.take(i + 1).drop_last() =~= ps.take(i as int));
            assert(ps.take(i + 1).last() == pieces@[i as int]@);
        }
        match decompress_chunk(pieces[i].as_slice()) {
            Ok(mut c) => {
                let ghost before = out@;
                out.append(&mut c);
                assert(out@ =~= before + chunk_decode_spec(pieces@[i as int]@)->Ok_0);
            },
            Err(e) => {
                proof {
                    lemma_decode_all_err(ps, i + 1, e);
                }
                return Err(e);
            },
        }
        i += 1;
    }
    assert(ps.take(pieces.len() as int) =~= ps);
    if out.len() as u64 != header.original_size {
        return Err(QresError::SizeMismatch);
    }
    Ok(out)
}

/// Encodes `data` as a container with chunks of `chunk_size` bytes, compressed
/// on `workers` threads. What comes back does not depend on `workers`; it
/// parses back to the header it wrote and decodes to `data`, and with its last
/// byte cut off it no longer decodes. It fails only where the sizes do not
/// fit the format.
pub fn encode_container(
    data: &[u8],
    chunk_size: usize,
    file_name: &String,
    timestamp: i64,
    workers: usize,
) -> (r: Result<Vec<u8>, QresError>)
    requires
        chunk_size > 0,
    ensures
        total(lens(blobs_spec(data@, chunk_size as nat))) <= u64::MAX && header_encoding(
            encoded_header_spec(data@, chunk_size as nat, file_name@, timestamp),
        ).len() <= 0xFFFF_FFFF ==> r is Ok,
        r matches Ok(b) ==> b@ == container_spec(data@, chunk_size as nat, file_name@, timestamp),
        r matches Ok(b) ==> parse_spec(b@) == Ok::<(HeaderModel, Seq<Seq<u8>>), QresError>(
            (
                encoded_header_spec(data@, chunk_size as nat, file_name@, timestamp),
                blobs_spec(data@, chunk_size as nat),
            ),
        ),
        r matches Ok(b) ==> decode_container_spec(b@) == Ok::<Seq<u8>, QresError>(data@),
        r matches Ok(b) ==> (data@.len() > 0 ==> decode_container_spec(b@.drop_last()) == Err::<
            Seq<u8>,
            QresError,
        >(QresError::ChunkOverrun)),
        r matches Err(e) ==> (e == QresError::SizeOverflow && total(
            lens(blobs_spec(data@, chunk_size as nat)),
        ) > u64::MAX) || (e == QresError::HeaderTooLarge && header_encoding(
            encoded_header_spec(data@, chunk_size as nat, file_name@, timestamp),
        ).len() > 0xFFFF_FFFF),
{
    let chunks = split_chunks(data, chunk_size);
    let blobs = match compress_chunks(&chunks, workers) {
        Ok(b) => b,
        Err(e) => {
            return Err(e);
        },
    };
    let ghost bs = views(blobs@);
    proof {
        assert(bs =~= blobs_spec(data@, chunk_size as nat));
    }
    let header = match build_header(data.len() as u64, file_name, timestamp, &blobs) {
        Ok(h) => h,
        Err(e) => {
            return Err(e);
        },
    };
    let header_bytes = match serialize_header(&header) {
        Some(b) => b,
        None => {
            return Err(QresError::HeaderEncoding);
        },
    };
    let r = frame_container(header_bytes.as_slice(), &blobs);
    proof {
        if r is Ok {
            assert forall|k: int| 0 <= k < bs.len() implies #[trigger] bs[k].len() <= u64::MAX by {
                assert(blobs@[k]@.len() <= u64::MAX);
            }
            lemma_container_round_trip(data@, chunk_size as nat, bs, header@, header_bytes@);
            lemma_parse_frame(header_bytes@, bs, header@);
            if data@.len() > 0 {
                let cs = chunks_spec(data@, chunk_size as nat);
                assert(cs.len() > 0);
                let l = lens(bs);
                assert(l.last() == bs.last().len());
                assert(l.drop_last() =~= lens(bs.drop_last()));
                assert(total(l) > 0);
                lemma_truncation_detected(r->Ok_0@);
            }
        }
    }
    r
}

/// A container whose chunks end where it ends, with at least one byte of
/// chunk data, fails to decode once its last byte is cut off: the header's
/// sizes then run past the end.
pub proof fn lemma_truncation_detected(b: Seq<u8>)
    requires
        parse_spec(b) is Ok,
        b.len() >= 4 && b.len() == 4 + be32_value(b) + total(parse_spec(b)->Ok_0.0.chunk_sizes),
        total(parse_spec(b)->Ok_0.0.chunk_sizes) > 0,
    ensures
        parse_spec(b.drop_last()) == Err::<(HeaderModel, Seq<Seq<u8>>), QresError>(
            QresError::ChunkOverrun,
        ),
        decode_container_spec(b.drop_last()) == Err::<Seq<u8>, QresError>(
            QresError::ChunkOverrun,
        ),
{
    let t = b.drop_last();
    let n = be32_value(b) as int;
    assert(be32_value(t) == n);
    assert(t.subrange(4, 4 + n) =~= b.subrange(4, 4 + n));
}

} // verus!
