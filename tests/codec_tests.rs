use qres::codec::{compress_chunk, decode_payload, decompress_chunk, encode_payload};
use qres::container::{
    build_header, decode_container, encode_container, frame_container, parse_container,
};
use qres::delta::{delta_decode, delta_encode, to_byte, to_signed};
use qres::error::QresError;
use qres::orchestrator::{compress_chunks, copy_range, split_chunks, CHUNK_SIZE};
use qres::rle::{rle_decode, rle_encode, MAX_RUN, RUN_MARKER};

fn pseudo_random(n: usize, seed: u32) -> Vec<u8> {
    let mut x = seed;
    let mut out = Vec::with_capacity(n);
    for _ in 0..n {
        x = x.wrapping_mul(1664525).wrapping_add(1013904223);
        out.push((x >> 24) as u8);
    }
    out
}

fn samples() -> Vec<Vec<u8>> {
    vec![
        vec![],
        vec![7],
        vec![0; 1000],
        vec![0xFF; 1000],
        pseudo_random(5000, 1),
        (0..3000).map(|i| (i / 100) as u8).collect(),
        vec![0, 0, 0, 1, 2, 2, 2, 2, 255],
    ]
}

#[test]
fn example_scenario_delta() {
    let input = [0u8, 0, 0, 1, 2, 2, 2, 2, 255];
    let d = delta_encode(&input);
    assert_eq!(d, vec![0i8, 0, 0, 1, 1, 0, 0, 0, 253u8 as i8]);
    assert_eq!(delta_decode(&d), input.to_vec());
}

#[test]
fn example_scenario_runs() {
    let d = [0i8, 0, 0, 1, 1, 0, 0, 0, -3];
    let r = rle_encode(&d);
    assert_eq!(
        r,
        vec![0xFF, 0, 3, 0, 0xFF, 1, 2, 0, 0xFF, 0, 3, 0, 0xFF, 253, 1, 0]
    );
    assert_eq!(rle_decode(&r), Ok(d.to_vec()));
    let input = [0u8, 0, 0, 1, 2, 2, 2, 2, 255];
    let payload = encode_payload(&input);
    assert_eq!(payload, r);
    assert_eq!(decode_payload(&payload), Ok(input.to_vec()));
}

#[test]
fn delta_empty_and_wraparound() {
    assert_eq!(delta_encode(&[]), Vec::<i8>::new());
    assert_eq!(delta_decode(&[]), Vec::<u8>::new());
    assert_eq!(delta_encode(&[255, 0, 128]), vec![-1i8, 1, -128]);
    assert_eq!(delta_decode(&[-1i8, 1, -128]), vec![255u8, 0, 128]);
}

#[test]
fn delta_round_trip_and_length() {
    for x in samples() {
        let d = delta_encode(&x);
        assert_eq!(d.len(), x.len());
        assert_eq!(delta_decode(&d), x);
    }
}

#[test]
fn signed_byte_conversions() {
    assert_eq!(to_signed(200), -56);
    assert_eq!(to_signed(5), 5);
    assert_eq!(to_byte(-1), 255);
    assert_eq!(to_byte(100), 100);
}

#[test]
fn rle_empty() {
    assert_eq!(rle_encode(&[]), Vec::<u8>::new());
    assert_eq!(rle_decode(&[]), Ok(vec![]));
}

#[test]
fn rle_long_run_splits() {
    let d = vec![5i8; 70000];
    let r = rle_encode(&d);
    assert_eq!(r, vec![RUN_MARKER, 5, 0xFF, 0xFF, RUN_MARKER, 5, 0x71, 0x11]);
    assert_eq!(MAX_RUN as usize + 0x1171, 70000);
    assert_eq!(rle_decode(&r), Ok(d));
}

#[test]
fn rle_exact_max_run() {
    let d = vec![-2i8; MAX_RUN as usize];
    let r = rle_encode(&d);
    assert_eq!(r, vec![RUN_MARKER, 0xFE, 0xFF, 0xFF]);
    assert_eq!(rle_decode(&r), Ok(d));
}

#[test]
fn rle_all_distinct() {
    let d: Vec<i8> = (0..256).map(|i| (i as u8) as i8).collect();
    let r = rle_encode(&d);
    assert_eq!(r.len(), 4 * 256);
    for (k, rec) in r.chunks(4).enumerate() {
        assert_eq!(rec, &[0xFF, k as u8, 1, 0]);
    }
    assert_eq!(rle_decode(&r), Ok(d));
}

#[test]
fn rle_round_trip_samples() {
    for x in samples() {
        let d = delta_encode(&x);
        assert_eq!(rle_decode(&rle_encode(&d)), Ok(d));
    }
}

#[test]
fn rle_truncated_record_is_an_error() {
    assert_eq!(rle_decode(&[0xFF, 1, 2]), Err(QresError::TruncatedRunRecord));
    assert_eq!(rle_decode(&[0xFF, 0, 1, 0, 0xFF]), Err(QresError::TruncatedRunRecord));
    assert_eq!(decode_payload(&[0xFF, 9]), Err(QresError::TruncatedRunRecord));
}

#[test]
fn rle_literal_bytes_and_zero_counts() {
    assert_eq!(rle_decode(&[3, 200]), Ok(vec![3i8, -56]));
    assert_eq!(rle_decode(&[0xFF, 7, 0, 0, 4]), Ok(vec![4i8]));
}

#[test]
fn chunk_round_trip() {
    for x in samples() {
        let c = compress_chunk(&x).unwrap();
        assert_eq!(decompress_chunk(&c), Ok(x));
    }
}

#[test]
fn chunk_is_zlib_compressed() {
    let x = vec![9u8; 10000];
    let payload = encode_payload(&x);
    let c = compress_chunk(&x).unwrap();
    assert_ne!(c, payload);
    assert_eq!(c[0], 0x78);
    assert!(c.len() < payload.len() + 16);
}

#[test]
fn chunk_corrupt_blob_fails() {
    assert_eq!(decompress_chunk(&[1, 2, 3, 4, 5]), Err(QresError::Decompression));
}

#[test]
fn chunking_counts() {
    let data = pseudo_random(10, 3);
    let cs = split_chunks(&data, 3);
    assert_eq!(cs.len(), 4);
    assert_eq!(cs[3], data[9..].to_vec());
    assert_eq!(cs.concat(), data);
    assert_eq!(split_chunks(&data[..9], 3).len(), 3);
    assert_eq!(split_chunks(&[], 3).len(), 0);
    assert_eq!(split_chunks(&data, 100).len(), 1);
    for size in [1usize, 2, 7, 64, 4096] {
        let x = pseudo_random(1000, 7);
        let cs = split_chunks(&x, size);
        assert_eq!(cs.len(), (x.len() + size - 1) / size);
        assert_eq!(cs.concat(), x);
    }
}

#[test]
fn copy_range_copies() {
    assert_eq!(copy_range(&[1, 2, 3, 4], 1, 3), vec![2, 3]);
    assert_eq!(copy_range(&[1, 2], 2, 2), Vec::<u8>::new());
}

#[test]
fn chunks_in_order_on_any_worker_count() {
    let chunks = split_chunks(&pseudo_random(50000, 11), 1000);
    let one = compress_chunks(&chunks, 1).unwrap();
    let many = compress_chunks(&chunks, 8).unwrap();
    assert_eq!(one, many);
    for (c, b) in chunks.iter().zip(one.iter()) {
        assert_eq!(&decompress_chunk(b).unwrap(), c);
    }
}

#[test]
fn container_round_trip() {
    let name = String::from("input.bin");
    for x in samples() {
        for size in [1usize, 16, 1000, CHUNK_SIZE] {
            let b = encode_container(&x, size, &name, 1700000000, 1).unwrap();
            assert_eq!(decode_container(&b), Ok(x.clone()));
        }
    }
}

#[test]
fn container_same_output_for_any_concurrency() {
    let name = String::from("data");
    let x = pseudo_random(100000, 5);
    let a = encode_container(&x, 4096, &name, 42, 1).unwrap();
    let b = encode_container(&x, 4096, &name, 42, 4).unwrap();
    assert_eq!(a, b);
}

#[test]
fn container_layout() {
    let name = String::from("f.txt");
    let x = vec![1u8; 2500];
    let b = encode_container(&x, 1000, &name, -5, 1).unwrap();
    let n = u32::from_be_bytes([b[0], b[1], b[2], b[3]]) as usize;
    let (ts, orig, comp, fname, sizes): (i64, u64, u64, String, Vec<u64>) =
        bincode::deserialize(&b[4..4 + n]).unwrap();
    assert_eq!(ts, -5);
    assert_eq!(orig, 2500);
    assert_eq!(fname, "f.txt");
    assert_eq!(sizes.len(), 3);
    assert_eq!(comp, sizes.iter().sum::<u64>());
    assert_eq!(b.len(), 4 + n + comp as usize);
    let (h, pieces) = parse_container(&b).unwrap();
    assert_eq!(h.chunk_compressed_sizes, sizes);
    assert_eq!(h.file_name, "f.txt");
    assert_eq!(pieces.len(), 3);
}

#[test]
fn container_truncated_final_chunk() {
    let name = String::from("t");
    for x in samples() {
        if x.is_empty() {
            continue;
        }
        let mut b = encode_container(&x, 100, &name, 0, 2).unwrap();
        b.pop();
        assert_eq!(decode_container(&b), Err(QresError::ChunkOverrun));
    }
}

#[test]
fn container_empty_input_has_no_chunks() {
    let b = encode_container(&[], 10, &String::from("e"), 0, 1).unwrap();
    let (h, pieces) = parse_container(&b).unwrap();
    assert_eq!(h.original_size, 0);
    assert!(h.chunk_compressed_sizes.is_empty());
    assert!(pieces.is_empty());
    assert_eq!(decode_container(&b), Ok(vec![]));
}

#[test]
fn container_framing_errors() {
    assert_eq!(decode_container(&[0, 0, 1]), Err(QresError::MissingLengthPrefix));
    assert_eq!(decode_container(&[0, 0, 0, 10, 1, 2]), Err(QresError::HeaderOverrun));
    assert_eq!(decode_container(&[0, 0, 0, 2, 1, 2]), Err(QresError::BadHeader));
}

fn container_with(header: &(i64, u64, u64, String, Vec<u64>), body: &[u8]) -> Vec<u8> {
    let hb = bincode::serialize(header).unwrap();
    let mut out = (hb.len() as u32).to_be_bytes().to_vec();
    out.extend_from_slice(&hb);
    out.extend_from_slice(body);
    out
}

#[test]
fn container_size_mismatch() {
    let blob = compress_chunk(&[1, 2, 3]).unwrap();
    let h = (0i64, 4u64, blob.len() as u64, String::from("x"), vec![blob.len() as u64]);
    assert_eq!(decode_container(&container_with(&h, &blob)), Err(QresError::SizeMismatch));
    let ok = (0i64, 3u64, blob.len() as u64, String::from("x"), vec![blob.len() as u64]);
    assert_eq!(decode_container(&container_with(&ok, &blob)), Ok(vec![1, 2, 3]));
}

#[test]
fn container_chunk_sizes_overrun() {
    let blob = compress_chunk(&[1, 2, 3]).unwrap();
    let h = (0i64, 3u64, 0u64, String::from("x"), vec![blob.len() as u64 + 1]);
    assert_eq!(decode_container(&container_with(&h, &blob)), Err(QresError::ChunkOverrun));
}

#[test]
fn container_truncated_run_record_inside_chunk() {
    let mut enc = flate2::write::ZlibEncoder::new(Vec::new(), flate2::Compression::default());
    std::io::Write::write_all(&mut enc, &[0xFF, 1, 2]).unwrap();
    let blob = enc.finish().unwrap();
    let h = (0i64, 0u64, blob.len() as u64, String::from("x"), vec![blob.len() as u64]);
    assert_eq!(
        decode_container(&container_with(&h, &blob)),
        Err(QresError::TruncatedRunRecord)
    );
}

#[test]
fn header_and_frame() {
    let blobs = vec![vec![1u8, 2], vec![3u8]];
    let h = build_header(10, &String::from("n"), 7, &blobs).unwrap();
    assert_eq!(h.compressed_size, 3);
    assert_eq!(h.chunk_compressed_sizes, vec![2, 1]);
    assert_eq!(h.original_size, 10);
    assert_eq!(h.timestamp, 7);
    let f = frame_container(&[9, 9], &blobs).unwrap();
    assert_eq!(f, vec![0, 0, 0, 2, 9, 9, 1, 2, 3]);
}

#[test]
fn full_size_chunks_round_trip() {
    let x = pseudo_random(20000, 9);
    let b = encode_container(&x, CHUNK_SIZE, &String::from("r.bin"), 1_700_000_000, 2).unwrap();
    let (h, pieces) = parse_container(&b).unwrap();
    assert_eq!(h.timestamp, 1_700_000_000);
    assert_eq!(h.file_name, "r.bin");
    assert_eq!(pieces.len(), 1);
    assert_eq!(decode_container(&b), Ok(x));
}

#[test]
fn container_rejected_chunk() {
    let body = [1u8, 2, 3, 4, 5];
    let h = (0i64, 0u64, 5u64, String::from("x"), vec![5u64]);
    assert_eq!(decode_container(&container_with(&h, &body)), Err(QresError::Decompression));
}

#[test]
fn chunk_edge_cases_round_trip() {
    let cases: Vec<Vec<u8>> = vec![
        vec![],
        vec![0x80],
        vec![0; 4096],
        vec![0xFF; 4096],
        vec![0xAB; 70000],
        vec![0, 0, 0, 1, 2, 2, 2, 2, 255],
    ];
    for x in cases {
        let c = compress_chunk(&x).unwrap();
        assert!(!c.is_empty());
        assert_eq!(compress_chunk(&x).unwrap(), c);
        assert_eq!(decompress_chunk(&c), Ok(x));
    }
}
