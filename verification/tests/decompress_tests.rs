use rlzav::bound::lzav_compress_bound;
use rlzav::compress::lzav_compress;
use rlzav::constants::{
    LZAV_E_PARAMS, LZAV_E_SRCOOB, LZAV_E_UNKFMT, LZAV_FMT_CUR, LZAV_REF_MIN,
};
use rlzav::decompress::{lzav_decompress, lzav_decompress_partial};

// The compressor asks for a destination of at least the bound; twice the
// source is less than that for sources of fewer than 19 bytes.
fn destination_size(len: usize) -> usize {
    (len * 2).max(lzav_compress_bound(len as i32) as usize)
}

#[test]
fn test_decompress_empty() {
    let mut dst = [0u8; 16];
    assert!(lzav_decompress(&[], &mut dst, 0).is_ok());
    assert!(lzav_decompress(&[], &mut dst, 1).is_err());
}

#[test]
fn test_decompress_invalid_format() {
    let src = [0xFF; 16]; // Invalid format byte
    let mut dst = [0u8; 16];
    assert!(lzav_decompress(&src, &mut dst, 16).is_err());
}

#[test]
fn test_decompress_truncated() {
    let src = [0x20, 0x01]; // Valid format but truncated
    let mut dst = [0u8; 16];
    assert!(lzav_decompress(&src, &mut dst, 16).is_err());
}

#[test]
fn test_decompress_boundary_conditions() {
    // Test empty input
    let mut dst = vec![0u8; 1];
    assert!(lzav_decompress(&[], &mut dst, 0).is_ok());
    assert!(lzav_decompress(&[], &mut dst, 1).is_err());

    // Test minimal valid input
    let src = [LZAV_FMT_CUR << 4 | LZAV_REF_MIN as u8, 0];
    let mut dst = vec![0u8; 1];
    assert!(lzav_decompress(&src, &mut dst, 0).is_err());
}

#[test]
fn test_decompress_partial() {
    // Test partial decompression of valid data
    let mut src = vec![LZAV_FMT_CUR << 4 | LZAV_REF_MIN as u8];
    src.extend_from_slice(&[5, b'H', b'e', b'l', b'l', b'o']);
    let mut dst = vec![0u8; 3];
    let decompressed = lzav_decompress_partial(&src, &mut dst, 3);
    assert_eq!(decompressed, 3);
    assert_eq!(&dst[..3], b"Hel");
}

#[test]
fn test_decompress_error_conditions() {
    let mut dst = vec![0u8; 16];

    // Test invalid format version
    let src = [0xFF; 16];
    assert!(matches!(
        lzav_decompress(&src, &mut dst, 16).unwrap_err(),
        LZAV_E_UNKFMT
    ));

    // Test source OOB
    let src = [LZAV_FMT_CUR << 4 | LZAV_REF_MIN as u8, 20];
    assert!(matches!(
        lzav_decompress(&src, &mut dst, 16).unwrap_err(),
        LZAV_E_SRCOOB
    ));

    // An expected length of 32 in a destination of 16 bytes is a
    // parameter error, whatever the stream holds.
    let mut src = vec![LZAV_FMT_CUR << 4 | LZAV_REF_MIN as u8];
    src.extend_from_slice(&[4, b'H', b'e', b'l', b'l']);
    assert!(matches!(
        lzav_decompress(&src, &mut dst, 32).unwrap_err(),
        LZAV_E_PARAMS
    ));
}

#[test]
fn test_decompress_reference_blocks() {
    // Create compressed data with reference blocks
    let original = b"ABCABCABCABC".to_vec();
    let mut compressed = vec![0u8; destination_size(original.len())];
    let compressed_size = lzav_compress(&original, &mut compressed, None).unwrap();
    compressed.truncate(compressed_size);

    // Test decompression
    let mut decompressed = vec![0u8; original.len()];
    let size = lzav_decompress(&compressed, &mut decompressed, original.len()).unwrap();
    assert_eq!(size, original.len());
    assert_eq!(decompressed, original);
}

#[test]
fn test_decompress_large_literals() {
    // Test decompression of data with large literal blocks
    let original: Vec<u8> = (0..255).collect();
    let mut compressed = vec![0u8; destination_size(original.len())];
    let compressed_size = lzav_compress(&original, &mut compressed, None).unwrap();
    compressed.truncate(compressed_size);

    let mut decompressed = vec![0u8; original.len()];
    let size = lzav_decompress(&compressed, &mut decompressed, original.len()).unwrap();
    assert_eq!(size, original.len());
    assert_eq!(decompressed, original);
}

#[test]
fn test_decompress_alignment() {
    // Test decompression with different memory alignments
    let original = b"Testing alignment with different offsets".to_vec();
    let mut compressed = vec![0u8; destination_size(original.len())];
    let compressed_size = lzav_compress(&original, &mut compressed, None).unwrap();
    compressed.truncate(compressed_size);

    // Test with different destination buffer alignments
    for offset in 0..8 {
        let mut decompressed = vec![0u8; original.len() + offset];
        let size = lzav_decompress(
            &compressed,
            &mut decompressed[offset..],
            original.len(),
        )
        .unwrap();
        assert_eq!(size, original.len());
        assert_eq!(&decompressed[offset..offset + original.len()], &original);
    }
}

#[test]
fn test_decompress_edge_cases() {
    // Test minimum reference length
    let src = vec![0u8; LZAV_REF_MIN + 1];
    let mut compressed = vec![0u8; destination_size(src.len())];
    let compressed_size = lzav_compress(&src, &mut compressed, None).unwrap();
    compressed.truncate(compressed_size);

    let mut decompressed = vec![0u8; src.len()];
    let size = lzav_decompress(&compressed, &mut decompressed, src.len()).unwrap();
    assert_eq!(size, src.len());
    assert_eq!(decompressed, src);
}

#[test]
fn test_decompress_with_carry() {
    // Test decompression with offset carry values
    let original = b"ABCDEFABCDEFABCDEFABCDEF".to_vec();
    let mut compressed = vec![0u8; destination_size(original.len())];
    let compressed_size = lzav_compress(&original, &mut compressed, None).unwrap();
    compressed.truncate(compressed_size);

    let mut decompressed = vec![0u8; original.len()];
    let size = lzav_decompress(&compressed, &mut decompressed, original.len()).unwrap();
    assert_eq!(size, original.len());
    assert_eq!(decompressed, original);
}
