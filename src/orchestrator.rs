//! Splitting the input into fixed-size chunks and compressing them, on the
//! calling thread or on rayon's pool, with results kept in chunk order.
use vstd::prelude::*;
use rayon::iter::IntoParallelRefIterator;
use rayon::iter::ParallelIterator;
use vstd::arithmetic::div_mod::{lemma_div_multiples_vanish_fancy, lemma_div_plus_one};
use crate::codec::{chunk_blob_spec, chunk_payload_spec, compress_chunk, zlib_inflate};
use crate::error::QresError;

verus! {

broadcast use vstd::seq_lib::group_seq_properties;

/// The chunk size of the container format: 4 MiB.
pub const CHUNK_SIZE: usize = 4194304;

/// `x` cut into pieces of `size` bytes from the left; the last may be shorter.
pub open spec fn chunks_spec(x: Seq<u8>, size: nat) -> Seq<Seq<u8>>
    decreases x.len(),
{
    if x.len() == 0 || size == 0 {
        Seq::empty()
    } else if x.len() <= size {
        seq![x]
    } else {
        seq![x.take(size as int)] + chunks_spec(x.skip(size as int), size)
    }
}

/// The contents of a list of byte vectors.
pub open spec fn views(v: Seq<Vec<u8>>) -> Seq<Seq<u8>> {
    v.map_values(|b: Vec<u8>| b@)
}

/// `blobs` holds, in order, the compressed form of each of `chunks`.
pub open spec fn blobs_of(chunks: Seq<Seq<u8>>, blobs: Seq<Seq<u8>>) -> bool {
    &&& blobs.len() == chunks.len()
    &&& forall|i: int|
        0 <= i < chunks.len() ==> #[trigger] blobs[i] == chunk_blob_spec(chunks[i])
            && zlib_inflate(blobs[i]) == Some(chunk_payload_spec(chunks[i])) && blobs[i].len() > 0
}

/// A stream of `len` bytes cut into chunks of `size` gives `ceil(len / size)`
/// chunks, none empty or over `size`, which together are the stream again.
pub proof fn lemma_chunking(x: Seq<u8>, size: nat)
    requires
        size > 0,
    ensures
        chunks_spec(x, size).len() == (x.len() + size - 1) / (size as int),
        chunks_spec(x, size).flatten() == x,
        forall|i: int|
            0 <= i < chunks_spec(x, size).len() ==> 0 < #[trigger] chunks_spec(x, size)[i].len()
                <= size,
    decreases x.len(),
{
    let c = size as int;
    let s = chunks_spec(x, size);
    if x.len() == 0 {
        lemma_div_multiples_vanish_fancy(0, c - 1, c);
        assert(s.flatten() =~= x);
    } else if x.len() <= size {
        lemma_div_multiples_vanish_fancy(1, x.len() - 1, c);
        assert(s.flatten() =~= x) by {
            s.lemma_flatten_singleton();
        }
    } else {
        let rest = x.skip(c);
        lemma_chunking(rest, size);
        lemma_div_plus_one(rest.len() + c - 1, c);
        let r = chunks_spec(rest, size);
        assert(s.drop_first() =~= r);
        assert(s.flatten() =~= x);
        assert forall|i: int| 0 <= i < s.len() implies 0 < #[trigger] s[i].len() <= size by {
            if i > 0 {
                assert(s[i] == r[i - 1]);
            }
        }
    }
}

/// A copy of `data[start..end]`.
pub fn copy_range(data: &[u8], start: usize, end: usize) -> (r: Vec<u8>)
    requires
        start <= end <= data.len(),
    ensures
        r@ == data@.subrange(start as int, end as int),
{
    let mut out: Vec<u8> = Vec::with_capacity(end - start);
    let mut k: usize = start;
    while k < end
        invariant
            start <= k <= end <= data.len(),
            out@ == data@.subrange(start as int, k as int),
        decreases end - k,
    {
        out.push(data[k]);
        k += 1;
        assert(out@ =~= data@.subrange(start as int, k as int));
    }
    out
}

/// Cuts `data` into chunks of `size` bytes, the last one possibly shorter.
pub fn split_chunks(data: &[u8], size: usize) -> (r: Vec<Vec<u8>>)
    requires
        size > 0,
    ensures
        views(r@) == chunks_spec(data@, size as nat),
{
    let mut result: Vec<Vec<u8>> = Vec::new();
    let mut pos: usize = 0;
    let n = data.len();
    while pos < n
        invariant
            pos <= n,
            n == data.len(),
            size > 0,
            views(result@) + chunks_spec(data@.skip(pos as int), size as nat) == chunks_spec(
                data@,
                size as nat,
            ),
        decreases n - pos,
    {
        let rest = Ghost(data@.skip(pos as int));
        let end: usize = if n - pos <= size {
            n
        } else {
            pos + size
        };
        let piece = copy_range(data, pos, end);
        proof {
            assert(piece@ =~= data@.subrange(pos as int, end as int));
            if n - pos > size {
                assert(rest@.take(size as int) =~= piece@);
                assert(rest@.skip(size as int) =~= data@.skip(end as int));
            } else {
                assert(rest@ =~= piece@);
                assert(data@.skip(end as int) =~= Seq::<u8>::empty());
            }
        }
        let ghost before = result@;
        result.push(piece);
        proof {
            assert(views(result@) =~= views(before).push(piece@));
            let tail = chunks_spec(data@.skip(end as int), size as nat);
            if n - pos > size {
                assert(views(before) + (seq![piece@] + tail) =~= views(result@) + tail);
            } else {
                assert(tail =~= Seq::<Seq<u8>>::empty());
                assert(views(before) + seq![piece@] =~= views(result@) + tail);
            }
        }
        pos = end;
    }
    proof {
        assert(data@.skip(n as int) =~= Seq::<u8>::empty());
        assert(views(result@) + Seq::<Seq<u8>>::empty() =~= views(result@));
    }
    result
}

/// Relies on rayon's `par_iter().map(..).collect()` into a `Result<Vec<_>, _>`:
/// every chunk goes through the verified `compress_chunk`, which always
/// succeeds, and the collected vector keeps the order of the input.
#[verifier::external_body]
fn compress_on_pool(chunks: &Vec<Vec<u8>>) -> (r: Result<Vec<Vec<u8>>, QresError>)
    ensures
        r is Ok,
        r matches Ok(v) ==> blobs_of(views(chunks@), views(v@)),
{
    chunks.par_iter().map(|c| compress_chunk(c.as_slice())).collect()
}

/// Compresses each chunk in order on the calling thread.
fn compress_in_order(chunks: &Vec<Vec<u8>>) -> (r: Result<Vec<Vec<u8>>, QresError>)
    ensures
        r is Ok,
        r matches Ok(v) ==> blobs_of(views(chunks@), views(v@)),
{
    let mut blobs: Vec<Vec<u8>> = Vec::new();
    let mut i: usize = 0;
    while i < chunks.len()
        invariant
            i <= chunks.len(),
            blobs_of(views(chunks@).take(i as int), views(blobs@)),
        decreases chunks.len() - i,
    {
        let blob = match compress_chunk(chunks[i].as_slice()) {
            Ok(b) => b,
            Err(e) => {
                return Err(e);
            },
        };
        let ghost before = blobs@;
        blobs.push(blob);
        proof {
            assert(views(blobs@) =~= views(before).push(blob@));
            let cs = views(chunks@).take(i + 1);
            assert forall|k: int| 0 <= k < cs.len() implies #[trigger] views(blobs@)[k]
                == chunk_blob_spec(cs[k]) && zlib_inflate(views(blobs@)[k]) == Some(
                chunk_payload_spec(cs[k]),
            ) && views(blobs@)[k].len() > 0 by {
                if k < i {
                    assert(cs[k] == views(chunks@).take(i as int)[k]);
                    assert(views(blobs@)[k] == views(before)[k]);
                }
            }
        }
        i += 1;
    }
    assert(views(chunks@).take(chunks.len() as int) =~= views(chunks@));
    Ok(blobs)
}

/// Compresses every chunk, on the calling thread when `workers` is at most one
/// and on rayon's pool otherwise. It always succeeds; the blobs come back in
/// chunk order and are the same whichever way they were made.
pub fn compress_chunks(chunks: &Vec<Vec<u8>>, workers: usize) -> (r: Result<
    Vec<Vec<u8>>,
    QresError,
>)
    ensures
        r is Ok,
        r matches Ok(v) ==> blobs_of(views(chunks@), views(v@)),
{
    if workers <= 1 {
        compress_in_order(chunks)
    } else {
        compress_on_pool(chunks)
    }
}

} // verus!
