use rvlcodec::RVLCodec;
use rvlcodec::RvlError;

#[test]
fn test_compress_decompress_rvl() {
    let mut codec = RVLCodec::new();
    let input = vec![0, 0, 1, 2, 0, 0, 3, 4, 5, 0, 0, 0, 6];
    let mut compressed = Vec::new();
    let mut decompressed = Vec::new();

    let _compressed_size = codec.compress_rvl(&input, &mut compressed);
    codec.decompress_rvl(&compressed, &mut decompressed, input.len()).unwrap();

    assert_eq!(input, decompressed);
}

#[test]
fn test_compress_decompress_rvl_with_zeros() {
    let mut codec = RVLCodec::new();
    let input = vec![0, 0, 0, 0, 0, 0, 0, 0, 0, 0];
    let mut compressed = Vec::new();
    let mut decompressed = Vec::new();

    let _compressed_size = codec.compress_rvl(&input, &mut compressed);
    codec.decompress_rvl(&compressed, &mut decompressed, input.len()).unwrap();

    assert_eq!(input, decompressed);
}

#[test]
fn test_compress_decompress_rvl_with_nonzeros() {
    let mut codec = RVLCodec::new();
    let input = vec![1, 2, 3, 4, 5, 6, 7, 8, 9, 10];
    let mut compressed = Vec::new();
    let mut decompressed = Vec::new();

    let _compressed_size = codec.compress_rvl(&input, &mut compressed);
    codec.decompress_rvl(&compressed, &mut decompressed, input.len()).unwrap();

    assert_eq!(input, decompressed);
}

#[test]
fn test_compress_decompress_rvl_mixed() {
    let mut codec = RVLCodec::new();
    let input = vec![0, 1, 0, 2, 0, 3, 0, 4, 0, 5];
    let mut compressed = Vec::new();
    let mut decompressed = Vec::new();

    let _compressed_size = codec.compress_rvl(&input, &mut compressed);
    codec.decompress_rvl(&compressed, &mut decompressed, input.len()).unwrap();

    assert_eq!(input, decompressed);
}

#[test]
fn test_default_impl() {
    let codec1 = RVLCodec::new();
    let codec2 = RVLCodec::default();
    assert_eq!(codec1.p_buffer, codec2.p_buffer);
    assert_eq!(codec1.word, codec2.word);
    assert_eq!(codec1.nibbles_written, codec2.nibbles_written);
}

#[test]
fn test_empty_input() {
    let mut codec = RVLCodec::new();
    let input: Vec<u16> = vec![];
    let mut compressed = Vec::new();
    let mut decompressed = Vec::new();

    let size = codec.compress_rvl(&input, &mut compressed);
    assert_eq!(size, 0);
    assert!(compressed.is_empty());

    codec.decompress_rvl(&compressed, &mut decompressed, 0).unwrap();
    assert!(decompressed.is_empty());
}

#[test]
fn test_misaligned_buffer_rejected() {
    let mut codec = RVLCodec::new();
    let mut decompressed = vec![7u16];
    let r = codec.decompress_rvl(&[0u8, 0, 0], &mut decompressed, 4);
    assert_eq!(r, Err(RvlError::InvalidEncoding));
    assert!(decompressed.is_empty());

    let r5 = codec.decompress_rvl(&[1u8, 2, 3, 4, 5], &mut decompressed, 4);
    assert_eq!(r5, Err(RvlError::InvalidEncoding));
    assert!(decompressed.is_empty());
}

#[test]
fn test_zero_run_exact_bytes() {
    // Ten zeros: run length 10 encodes as nibbles [0xA, 0x1], the empty
    // non-zero run as [0x0]; padded into one word 0xA1000000, written as
    // 4 little-endian bytes.
    let mut codec = RVLCodec::new();
    let input = vec![0u16; 10];
    let mut compressed = Vec::new();

    let size = codec.compress_rvl(&input, &mut compressed);
    assert_eq!(size, 4);
    assert_eq!(compressed, vec![0x00, 0x00, 0x00, 0xA1]);
}

#[test]
fn test_single_sample_exact_bytes() {
    // [1]: zero run 0 -> nibble 0, non-zero run 1 -> nibble 1, delta +1
    // zigzags to 2 -> nibble 2; word 0x01200000, little-endian.
    let mut codec = RVLCodec::new();
    let input = vec![1u16];
    let mut compressed = Vec::new();

    let size = codec.compress_rvl(&input, &mut compressed);
    assert_eq!(size, 4);
    assert_eq!(compressed, vec![0x00, 0x00, 0x20, 0x01]);
}

#[test]
fn test_truncated_buffer_partial_result() {
    // Compressing 1..=10 takes 13 nibbles = 2 words = 8 bytes.  The first
    // word holds the two run counts and the first 5 deltas, so decoding
    // only the first word yields the first 5 samples and then stops.
    let mut codec = RVLCodec::new();
    let input = vec![1, 2, 3, 4, 5, 6, 7, 8, 9, 10];
    let mut compressed = Vec::new();
    let mut decompressed = Vec::new();

    let size = codec.compress_rvl(&input, &mut compressed);
    assert_eq!(size, 8);
    codec.decompress_rvl(&compressed[..4], &mut decompressed, input.len()).unwrap();
    assert_eq!(decompressed, vec![1, 2, 3, 4, 5]);
}

#[test]
fn test_overshooting_run_clamped() {
    // A compressed zero run of 3 decoded with an expected count of 2
    // stops at the boundary.
    let mut codec = RVLCodec::new();
    let input = vec![0u16, 0, 0];
    let mut compressed = Vec::new();
    let mut decompressed = Vec::new();

    codec.compress_rvl(&input, &mut compressed);
    codec.decompress_rvl(&compressed, &mut decompressed, 2).unwrap();
    assert_eq!(decompressed, vec![0, 0]);
}

#[test]
fn test_negative_delta_round_trip() {
    let mut codec = RVLCodec::new();
    let input = vec![100, 1, 65535, 1, 5, 3];
    let mut compressed = Vec::new();
    let mut decompressed = Vec::new();

    codec.compress_rvl(&input, &mut compressed);
    codec.decompress_rvl(&compressed, &mut decompressed, input.len()).unwrap();
    assert_eq!(input, decompressed);
}

#[test]
fn test_long_zero_run_round_trip() {
    // A run length of 1000 needs several nibbles, exercising the
    // multi-nibble variable-length integer path.
    let mut codec = RVLCodec::new();
    let mut input = vec![0u16; 1000];
    input.push(7);
    let mut compressed = Vec::new();
    let mut decompressed = Vec::new();

    let size = codec.compress_rvl(&input, &mut compressed);
    assert!(size < input.len());
    codec.decompress_rvl(&compressed, &mut decompressed, input.len()).unwrap();
    assert_eq!(input, decompressed);
}

#[test]
fn test_all_zero_words_decode_empty() {
    // A buffer of zero words encodes endless empty runs: the decoder
    // walks them, produces nothing, and stops at the end of the stream.
    let mut codec = RVLCodec::new();
    let mut decompressed = Vec::new();
    codec.decompress_rvl(&[0u8; 4], &mut decompressed, 5).unwrap();
    assert!(decompressed.is_empty());
}

#[test]
fn test_compressed_size_is_word_aligned() {
    let mut codec = RVLCodec::new();
    let inputs: Vec<Vec<u16>> = vec![
        vec![],
        vec![9],
        vec![0, 9],
        vec![1, 2, 3],
        vec![0, 0, 0, 0, 5, 5, 5, 0, 1],
    ];
    for input in inputs {
        let mut compressed = Vec::new();
        let size = codec.compress_rvl(&input, &mut compressed);
        assert_eq!(size % 4, 0);
        assert_eq!(size, compressed.len());
    }
}
