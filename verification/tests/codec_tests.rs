use linastore::codec::{BlockManager, CodecError};

fn generate_random_binary(size: usize) -> Vec<u8> {
    let mut data = vec![0u8; size];
    rand::fill(&mut data[..]);
    data
}

/// Walk the frame headers of an encoded stream, returning the payload
/// lengths in order.
fn frame_lengths(encoded: &[u8]) -> Vec<usize> {
    let mut lens = Vec::new();
    let mut i = 0;
    while i < encoded.len() {
        assert!(i + 3 <= encoded.len(), "truncated frame header");
        let flag = encoded[i];
        assert!(flag == 0 || flag == 1, "unknown frame flag");
        let len = encoded[i + 1] as usize + 256 * (encoded[i + 2] as usize);
        i += 3;
        assert!(i + len <= encoded.len(), "truncated frame payload");
        lens.push(len);
        i += len;
    }
    lens
}

#[test]
fn round_trip_bounded_lengths() {
    let manager = BlockManager::new();
    for n in [0usize, 1, 64, 65535, 65536, 262144, 1_000_000] {
        let data = generate_random_binary(n);
        let encoded = manager.compress_all(&data).expect("encode");
        let decoded = manager.decompress_all(&encoded, n).expect("decode");
        assert_eq!(data, decoded, "round trip at length {}", n);
    }
}

#[test]
fn frame_lengths_sum_to_total() {
    let manager = BlockManager::new();
    for n in [1usize, 64512, 64513, 200_000] {
        let data = generate_random_binary(n);
        let encoded = manager.compress_all(&data).expect("encode");
        let lens = frame_lengths(&encoded);
        let total: usize = lens.iter().sum::<usize>() + 3 * lens.len();
        assert_eq!(total, encoded.len());
        let chunks = n.div_ceil(64512);
        assert_eq!(lens.len(), chunks);
    }
}

#[test]
fn chunk_boundary_aligned_with_input() {
    let manager = BlockManager::with_capacity(64);
    let exact = generate_random_binary(64);
    let encoded = manager.compress_all(&exact).expect("encode");
    assert_eq!(frame_lengths(&encoded).len(), 1);
    assert_eq!(manager.decompress_all(&encoded, 64).expect("decode"), exact);

    let one_more = generate_random_binary(65);
    let encoded = manager.compress_all(&one_more).expect("encode");
    assert_eq!(frame_lengths(&encoded).len(), 2);
    assert_eq!(manager.decompress_all(&encoded, 65).expect("decode"), one_more);
}

#[test]
fn incompressible_chunk_is_stored_raw() {
    // A single byte always grows under gzip, so the frame must be raw:
    // flag 0, length 1, then the byte itself.
    let manager = BlockManager::new();
    let data = generate_random_binary(1);
    let encoded = manager.compress_all(&data).expect("encode");
    assert_eq!(encoded, vec![0u8, 1, 0, data[0]]);
}

#[test]
fn compressible_chunk_is_stored_compressed() {
    let manager = BlockManager::new();
    let data = vec![0u8; 10_000];
    let encoded = manager.compress_all(&data).expect("encode");
    let lens = frame_lengths(&encoded);
    assert_eq!(lens.len(), 1);
    assert_eq!(encoded[0], 1, "a run of zeros must compress");
    assert!(lens[0] < 10_000);
    assert_eq!(manager.decompress_all(&encoded, 10_000).expect("decode"), data);
}

#[test]
fn empty_input_encodes_to_no_frames() {
    let manager = BlockManager::new();
    let encoded = manager.compress_all(&Vec::new()).expect("encode");
    assert!(encoded.is_empty());
    let decoded = manager.decompress_all(&Vec::new(), 0).expect("decode");
    assert!(decoded.is_empty());
}

#[test]
fn decode_rejects_truncated_header() {
    let manager = BlockManager::new();
    let err = manager.decompress_all(&vec![0u8, 5], 0).unwrap_err();
    assert_eq!(err, CodecError::TruncatedFrame);
}

#[test]
fn decode_rejects_truncated_payload() {
    let manager = BlockManager::new();
    let err = manager.decompress_all(&vec![0u8, 4, 0, 1, 2], 0).unwrap_err();
    assert_eq!(err, CodecError::TruncatedFrame);
}

#[test]
fn decode_rejects_unknown_flag() {
    let manager = BlockManager::new();
    let err = manager.decompress_all(&vec![7u8, 1, 0, 9], 0).unwrap_err();
    assert_eq!(err, CodecError::UnknownFlag);
}

#[test]
fn decode_rejects_garbage_compressed_payload() {
    let manager = BlockManager::new();
    let err = manager.decompress_all(&vec![1u8, 3, 0, 1, 2, 3], 0).unwrap_err();
    assert_eq!(err, CodecError::UnderlyingCompressorFailure);
}

/// Split an encoded stream into its frames, headers included.
fn frames_of(encoded: &[u8]) -> Vec<Vec<u8>> {
    let mut frames = Vec::new();
    let mut i = 0;
    while i < encoded.len() {
        let len = encoded[i + 1] as usize + 256 * (encoded[i + 2] as usize);
        frames.push(encoded[i..i + 3 + len].to_vec());
        i += 3 + len;
    }
    frames
}

#[test]
fn each_frame_decodes_to_its_chunk() {
    let manager = BlockManager::with_capacity(64);
    let data = generate_random_binary(150);
    let encoded = manager.compress_all(&data).expect("encode");
    let frames = frames_of(&encoded);
    assert_eq!(frames.len(), 3);
    for (j, frame) in frames.iter().enumerate() {
        // A single frame is itself a well-formed stream; it must give
        // back exactly its own chunk of the input, in order.
        let chunk = &data[j * 64..usize::min((j + 1) * 64, data.len())];
        let decoded = manager.decompress_all(frame, chunk.len()).expect("frame decode");
        assert_eq!(decoded, chunk, "frame {} is not chunk {}", j, j);
    }
}

#[test]
fn encode_never_fails() {
    let manager = BlockManager::new();
    for n in [0usize, 1, 64512, 64513] {
        let data = generate_random_binary(n);
        assert!(manager.compress_all(&data).is_ok(), "encode failed at length {}", n);
    }
    assert_eq!(manager.compress_all(&Vec::new()), Ok(Vec::new()));
}
