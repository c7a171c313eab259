use rlzav::bound::lzav_compress_bound;
use rlzav::compress::lzav_compress;
use rlzav::constants::{LZAV_E_SRCOOB, LZAV_E_UNKFMT};
use rlzav::decompress::lzav_decompress;

#[test]
fn round_trip_of_generated_buffers() {
    let mut seed: u32 = 12345;
    for len in [16usize, 17, 100, 1000, 5000, 70000, 300000] {
        for mode in 0..4 {
            let mut src = Vec::with_capacity(len);
            for i in 0..len {
                seed = seed.wrapping_mul(1664525).wrapping_add(1013904223);
                let b = match mode {
                    0 => (seed >> 24) as u8,
                    1 => ((seed >> 24) & 3) as u8,
                    2 => (i % 7) as u8,
                    _ => {
                        if (seed >> 28) == 0 {
                            (seed >> 20) as u8
                        } else {
                            (i / 300) as u8
                        }
                    }
                };
                src.push(b);
            }
            let bound = lzav_compress_bound(len as i32) as usize;
            let mut stream = vec![0u8; bound];
            let n = lzav_compress(&src, &mut stream, None).unwrap();
            assert!(n <= bound);
            let mut out = vec![0u8; len];
            assert_eq!(lzav_decompress(&stream[..n], &mut out, len), Ok(len));
            assert_eq!(out, src);
            println!("len {} mode {} -> {}", len, mode, n);
        }
    }
}

#[test]
fn errors_of_broken_streams() {
    let mut dst = vec![0u8; 16];
    assert_eq!(lzav_decompress(&[0xFF; 16], &mut dst, 16), Err(LZAV_E_UNKFMT));
    assert_eq!(lzav_decompress(&[0x26, 20], &mut dst, 16), Err(LZAV_E_SRCOOB));
}

use rlzav::api::{compress_bound, compress_default, decompress, decompress_partial, Lzav, RustBackend};
use rlzav::constants::{
    swap16, swap32, swap64, LZAV_E_DSTLEN, LZAV_E_DSTOOB, LZAV_E_PARAMS, LZAV_E_REFOOB,
    LZAV_WIN_LEN,
};
use rlzav::decompress::lzav_decompress_partial;
use rlzav::errors::{CompressError, DecompressError, LzavError};
use rlzav::hashtable::{calculate_hash_table_size, lzav_hash};
use rlzav::utils::{
    copy_block, count_trailing_zeros, lzav_match_len, lzav_match_len_r, AlignedBuffer,
};

fn generated(len: usize, mut seed: u32) -> Vec<u8> {
    (0..len)
        .map(|_| {
            seed = seed.wrapping_mul(1664525).wrapping_add(1013904223);
            (seed >> 24) as u8
        })
        .collect()
}

fn round_trip(src: &[u8]) -> Vec<u8> {
    let bound = lzav_compress_bound(src.len() as i32) as usize;
    let mut stream = vec![0xEEu8; bound + 3];
    let n = lzav_compress(src, &mut stream[..bound], None).unwrap();
    assert!(n <= bound);
    assert_eq!(&stream[bound..], &[0xEE; 3]);
    let mut out = vec![0u8; src.len() + 2];
    assert_eq!(lzav_decompress(&stream[..n], &mut out, src.len()), Ok(src.len()));
    assert_eq!(&out[..src.len()], src);
    assert_eq!(&out[src.len()..], &[0, 0]);
    stream.truncate(n);
    stream
}

#[test]
fn empty_stream_decompresses_to_nothing() {
    assert_eq!(lzav_decompress(&[], &mut [], 0), Ok(0));
    assert_eq!(lzav_decompress(&[], &mut [], 1), Err(LZAV_E_PARAMS));
    assert_eq!(decompress(&[], &mut []), 0);
}

#[test]
fn empty_source_is_refused() {
    let mut dst = vec![7u8; 32];
    assert_eq!(lzav_compress(&[], &mut dst, None), Err(LZAV_E_PARAMS));
    assert_eq!(dst, vec![7u8; 32]);
    assert_eq!(compress_default(&[], &mut dst), LZAV_E_PARAMS);
}

#[test]
fn short_source_is_stored() {
    let mut dst = vec![0xFFu8; 32];
    assert_eq!(lzav_compress(&[1, 2, 3], &mut dst, None), Ok(8));
    assert_eq!(&dst[..8], &[0x26, 3, 1, 2, 3, 0, 0, 0]);
    assert_eq!(&dst[8..], &[0xFF; 24]);
    let mut out = [0u8; 3];
    assert_eq!(lzav_decompress(&dst[..8], &mut out, 3), Ok(3));
    assert_eq!(out, [1, 2, 3]);

    let src: Vec<u8> = (1..=15).collect();
    let stream = round_trip(&src);
    assert_eq!(stream.len(), 17);
    assert_eq!(stream[1], 15);
    for len in 1..16 {
        round_trip(&src[..len]);
    }
}

#[test]
fn repeated_source_gives_reference_blocks() {
    let src = b"ABCDEFGH".repeat(8);
    let stream = round_trip(&src);
    let mut expected = vec![0x26u8, 0x00, 0x00];
    expected.extend_from_slice(b"ABCDEFGHABCDEFGH");
    expected.extend_from_slice(&[0x9A, 0x00, 0x1A, 0x04, 0x14, 0x08, 0x06]);
    expected.extend_from_slice(b"CDEFGH");
    assert_eq!(stream, expected);

    let stream = round_trip(b"ABCABCABCABCABCABCABCABC");
    assert_eq!(stream.len(), 27);
}

#[test]
fn high_repetition_compresses_well() {
    let src = vec![0xAAu8; 1024];
    let stream = round_trip(&src);
    assert!(stream.len() < 64);
}

#[test]
fn generated_source_stays_within_bound() {
    let src = generated(65536, 0);
    let stream = round_trip(&src);
    assert!(stream.len() <= 65990);
}

#[test]
fn far_matches_carry_distance_bits() {
    // A block of noise, a long run of zeros, and the noise again, whole and
    // in parts: the matches lie more than 2^18 bytes back.
    let noise = generated(1000, 99);
    let mut src = noise.clone();
    src.extend_from_slice(&vec![0u8; 300003]);
    src.extend_from_slice(&noise);
    src.extend_from_slice(&generated(37, 5));
    src.extend_from_slice(&noise[200..900]);
    src.extend_from_slice(&generated(3, 6));
    src.extend_from_slice(&noise[100..700]);
    src.extend_from_slice(&noise[101..707]);
    src.extend_from_slice(&generated(20, 7));
    let stream = round_trip(&src);
    let before = round_trip(&src[..301003]).len();
    let behind = round_trip(&src[..302003]).len();
    assert!(behind < before + 100);
    assert!(stream.len() < behind + 200);
    let mut out = vec![0u8; 301500];
    assert_eq!(lzav_decompress_partial(&stream, &mut out, 301500), 301500);
    assert_eq!(&out[..], &src[..301500]);
}

#[test]
fn window_length_is_the_longest_source() {
    let src = vec![0u8; LZAV_WIN_LEN];
    let mut dst = vec![0u8; lzav_compress_bound(LZAV_WIN_LEN as i32) as usize];
    let n = lzav_compress(&src, &mut dst, None).unwrap();
    let mut out = vec![1u8; LZAV_WIN_LEN];
    assert_eq!(lzav_decompress(&dst[..n], &mut out, LZAV_WIN_LEN), Ok(LZAV_WIN_LEN));
    assert!(out == src);
    let src = vec![0u8; LZAV_WIN_LEN + 1];
    let mut dst = vec![0u8; LZAV_WIN_LEN * 2];
    assert_eq!(lzav_compress(&src, &mut dst, None), Err(LZAV_E_PARAMS));
}

#[test]
fn destination_under_the_bound_is_refused() {
    let src = generated(1000, 3);
    let mut dst = vec![9u8; 1023];
    assert_eq!(lzav_compress_bound(1000), 1024);
    assert_eq!(lzav_compress(&src, &mut dst, None), Err(LZAV_E_PARAMS));
    assert_eq!(dst, vec![9u8; 1023]);
    let mut dst = vec![9u8; 1024];
    assert!(lzav_compress(&src, &mut dst, None).is_ok());
    assert_eq!(
        rlzav::compress::lzav_compress_internal(&src, &mut dst[..100], None).unwrap_err(),
        CompressError::BufferTooSmall
    );
    assert_eq!(
        rlzav::compress::lzav_compress_internal(&[], &mut dst, None).unwrap_err(),
        CompressError::InvalidParams
    );
}

#[test]
fn scratch_memory_serves_as_the_table() {
    let src = b"The quick brown fox jumps over the lazy dog. ".repeat(200);
    let bound = lzav_compress_bound(src.len() as i32) as usize;
    for size in [0usize, 1000, 4096, 5000, 65536, 1 << 21] {
        let mut scratch = vec![0x5Au8; size];
        let mut dst = vec![0u8; bound];
        let n = lzav_compress(&src, &mut dst, Some(&mut scratch)).unwrap();
        assert!(n < src.len() / 4);
        let mut out = vec![0u8; src.len()];
        assert_eq!(lzav_decompress(&dst[..n], &mut out, src.len()), Ok(src.len()));
        assert_eq!(out, src);
        if size == 1000 || size == 5000 {
            assert_eq!(scratch, vec![0x5Au8; size]);
        }
        if size == 1 << 21 {
            // The table takes the start of the memory and no more.
            assert!(scratch[..1 << 16].iter().any(|&b| b != 0x5A));
            assert!(scratch[1 << 16..].iter().all(|&b| b == 0x5A));
        }
    }
}

#[test]
fn hand_made_streams_decode() {
    // Eight literals, a reference of eight bytes at distance 8, six literals.
    let mut stream = vec![0x26u8, 0x08];
    stream.extend_from_slice(b"ABCDEFGH");
    stream.extend_from_slice(&[0x92, 0x00, 0x06]);
    stream.extend_from_slice(b"UVWXYZ");
    let mut out = vec![0u8; 22];
    assert_eq!(lzav_decompress(&stream, &mut out, 22), Ok(22));
    assert_eq!(out, b"ABCDEFGHABCDEFGHUVWXYZ");

    // A nibble of 10 stands for 16 bytes; at distance 8 the copy overlaps.
    let mut stream = vec![0x26u8, 0x08];
    stream.extend_from_slice(b"ABCDEFGH");
    stream.extend_from_slice(&[0x9A, 0x00, 0x06]);
    stream.extend_from_slice(b"UVWXYZ");
    let mut out = vec![0u8; 30];
    assert_eq!(lzav_decompress(&stream, &mut out, 30), Ok(30));
    assert_eq!(out, b"ABCDEFGHABCDEFGHABCDEFGHUVWXYZ");

    // The nibble 15 and the length byte 0 both stand for 21 bytes.
    let mut stream = vec![0x26u8, 0x41, b'x', 0x1F, 0x00, 0x06];
    stream.extend_from_slice(b"UVWXYZ");
    let mut out = vec![0u8; 28];
    assert_eq!(lzav_decompress(&stream, &mut out, 28), Ok(28));
    assert_eq!(&out[..22], &[b'x'; 22]);
    let mut stream = vec![0x26u8, 0x41, b'x', 0x10, 0x00, 0x00, 0x06];
    stream.extend_from_slice(b"UVWXYZ");
    let mut out = vec![0u8; 28];
    assert_eq!(lzav_decompress(&stream, &mut out, 28), Ok(28));
    assert_eq!(&out[..22], &[b'x'; 22]);

    // A reference that overlaps its own output repeats it.
    let mut stream = vec![0x26u8, 0x82, b'a', b'b', 0x14, 0x00, 0x06];
    stream.extend_from_slice(b"UVWXYZ");
    let mut out = vec![0u8; 18];
    assert_eq!(lzav_decompress(&stream, &mut out, 18), Ok(18));
    assert_eq!(out, b"ababababababUVWXYZ");

    // A literal header carries the two low bits of the next distance.
    let mut stream = vec![0x26u8, 0x49];
    stream.extend_from_slice(b"123456789");
    stream.extend_from_slice(&[0x91, 0x00, 0x06]);
    stream.extend_from_slice(b"UVWXYZ");
    let mut out = vec![0u8; 22];
    assert_eq!(lzav_decompress(&stream, &mut out, 22), Ok(22));
    assert_eq!(out, b"1234567891234567UVWXYZ");

    // A long literal run and both forms of a long reference.
    let body = generated(300, 5);
    let mut stream = vec![0x26u8, 0x00, 0x9C, 0x02];
    stream.extend_from_slice(&body);
    stream.extend_from_slice(&[0xE0, 18, 0, 100, 0x1B, 75, 0x20, 75, 0, 255, 24, 0x06]);
    stream.extend_from_slice(b"UVWXYZ");
    let mut out = vec![0u8; 300 + 121 + 17 + 300 + 6];
    let total = out.len();
    assert_eq!(lzav_decompress(&stream, &mut out, total), Ok(total));
    assert_eq!(&out[..300], &body[..]);
    assert_eq!(&out[300..421], &body[..121]);
    assert_eq!(&out[421..438], &body[121..138]);
    assert_eq!(&out[438..738], &out[138..438]);
    assert_eq!(&out[738..], b"UVWXYZ");
}

#[test]
fn each_error_has_its_stream() {
    let mut dst = vec![0u8; 64];
    // With an expected length of 0 the stream is still looked at.
    assert_eq!(lzav_decompress(&[0x26, 1, 2], &mut dst, 0), Err(LZAV_E_SRCOOB));
    assert_eq!(lzav_decompress(&[0x16; 16], &mut dst, 0), Err(LZAV_E_UNKFMT));
    assert_eq!(lzav_decompress(&[0x26, 0, 0, 0, 0, 0, 0], &mut dst, 0), Ok(0));
    assert_eq!(lzav_decompress(&[0x26, 0, 0, 0, 0, 0, 0], &mut [], 0), Ok(0));
    assert_eq!(lzav_decompress(&[0x26, 3, 1, 2, 3, 0, 0, 0], &mut dst, 0), Err(LZAV_E_DSTOOB));
    assert_eq!(lzav_decompress(&[0x26, 1, 2], &mut [], 1), Err(LZAV_E_PARAMS));
    assert_eq!(lzav_decompress(&[0x16; 16], &mut dst, 16), Err(LZAV_E_UNKFMT));
    assert_eq!(lzav_decompress(&[0x26, 1, 2, 3, 4], &mut dst, 16), Err(LZAV_E_SRCOOB));
    // A literal run that is longer than the stream.
    assert_eq!(
        lzav_decompress(&[0x26, 0x0F, 1, 2, 3, 4, 5, 6, 7, 8], &mut dst, 16),
        Err(LZAV_E_SRCOOB)
    );
    // A long literal run that the stream breaks off in.
    assert_eq!(
        lzav_decompress(&[0x26, 0x00, 0x80, 0x01, 4, 5, 6, 7, 8, 9, 10, 11], &mut dst, 64),
        Err(LZAV_E_SRCOOB)
    );
    // A literal run that is longer than the expected length.
    assert_eq!(
        lzav_decompress(&[0x26, 8, 1, 2, 3, 4, 5, 6, 7, 8, 0], &mut dst, 4),
        Err(LZAV_E_DSTOOB)
    );
    // A reference with nothing before it, and one to distance 0.
    assert_eq!(
        lzav_decompress(&[0x26, 0x13, 0x02, 0, 0, 0, 0, 0, 0, 0], &mut dst, 16),
        Err(LZAV_E_REFOOB)
    );
    assert_eq!(
        lzav_decompress(&[0x26, 0x01, 7, 0x13, 0x00, 0, 0, 0, 0, 0, 0], &mut dst, 16),
        Err(LZAV_E_REFOOB)
    );
    // A reference that is longer than the expected length.
    assert_eq!(
        lzav_decompress(&[0x26, 0x41, 7, 0x13, 0x00, 0, 0, 0, 0, 0, 0], &mut dst, 5),
        Err(LZAV_E_DSTOOB)
    );
    // A whole stream of three bytes, asked for as four and as two.
    let stream = [0x26, 3, 1, 2, 3, 0, 0, 0];
    assert_eq!(lzav_decompress(&stream, &mut dst, 4), Err(LZAV_E_DSTLEN));
    assert_eq!(lzav_decompress(&stream, &mut dst, 2), Err(LZAV_E_DSTOOB));
    assert_eq!(lzav_decompress(&stream, &mut dst, 3), Ok(3));
    assert_eq!(decompress(&stream, &mut dst[..3]), 3);
    assert_eq!(decompress(&stream, &mut dst[..4]), LZAV_E_DSTLEN);

    // An error found before the first block leaves the destination as it
    // was; a later one leaves what the blocks before it gave.
    let mut dst = vec![0xCCu8; 16];
    assert_eq!(lzav_decompress(&[0xFF; 16], &mut dst, 16), Err(LZAV_E_UNKFMT));
    assert_eq!(dst, vec![0xCCu8; 16]);
    assert_eq!(lzav_decompress(&[0x26, 1, 2, 3, 4], &mut dst, 16), Err(LZAV_E_SRCOOB));
    assert_eq!(dst, vec![0xCCu8; 16]);
    assert_eq!(lzav_decompress(&stream, &mut dst[..2], 3), Err(LZAV_E_PARAMS));
    assert_eq!(dst, vec![0xCCu8; 16]);
    assert_eq!(lzav_decompress(&[], &mut dst, 3), Err(LZAV_E_PARAMS));
    assert_eq!(dst, vec![0xCCu8; 16]);
    assert_eq!(
        lzav_decompress(&[0x26, 2, 7, 8, 0x13, 0x02, 0, 0, 0, 0, 0, 0], &mut dst, 16),
        Err(LZAV_E_REFOOB)
    );
    assert_eq!(&dst[..3], &[7, 8, 0xCC]);
    assert_eq!(&dst[3..], &[0xCC; 13]);
    let mut dst = vec![0xCCu8; 16];
    assert_eq!(lzav_decompress(&stream, &mut dst, 4), Err(LZAV_E_DSTLEN));
    assert_eq!(&dst[..4], &[1, 2, 3, 0xCC]);
}

#[test]
fn stream_too_small_for_expected_length() {
    let src = b"The quick brown fox jumps over the lazy dog. ".repeat(20);
    let stream = round_trip(&src);
    let mut out = vec![0u8; src.len()];
    let r = lzav_decompress(&stream, &mut out, src.len() - 10);
    assert!(r == Err(LZAV_E_DSTOOB) || r == Err(LZAV_E_DSTLEN));
    assert_eq!(lzav_decompress(&stream[..2], &mut out, src.len()), Err(LZAV_E_SRCOOB));
    let mut broken = stream.clone();
    broken[0] = 0xFF;
    assert_eq!(lzav_decompress(&broken, &mut out, src.len()), Err(LZAV_E_UNKFMT));
}

#[test]
fn partial_decompression_gives_a_prefix() {
    let src = b"The quick brown fox jumps over the lazy dog. ".repeat(20);
    let stream = round_trip(&src);
    for want in [0usize, 1, 5, 16, 17, 100, 500, src.len()] {
        let mut out = vec![0xCCu8; src.len() + 4];
        let n = lzav_decompress_partial(&stream, &mut out, want);
        assert_eq!(n, want);
        assert_eq!(&out[..n], &src[..n]);
        assert!(out[n..].iter().all(|&b| b == 0xCC));
    }
    // A stream that was cut off gives what its whole blocks hold, and the
    // start of the block that was cut.
    for cut in [0usize, 1, 2, 3, 10, 40, stream.len() - 1] {
        let mut out = vec![0xCCu8; src.len()];
        let n = lzav_decompress_partial(&stream[..cut], &mut out, src.len());
        assert!(n <= src.len());
        assert_eq!(&out[..n], &src[..n]);
    }
    // With room to spare the result is the whole and no more.
    let mut out = vec![0xCCu8; src.len() + 9];
    let room = out.len();
    assert_eq!(lzav_decompress_partial(&stream, &mut out, room), src.len());
    assert_eq!(&out[..src.len()], &src[..]);
    assert_eq!(&out[src.len()..], &[0xCC; 9]);
    let mut out = vec![0xCCu8; 5];
    assert_eq!(lzav_decompress_partial(&[0x26, 3, 1, 2, 3, 0, 0, 0], &mut out, 5), 3);
    assert_eq!(out, vec![1, 2, 3, 0xCC, 0xCC]);
    // The expected length is cut to the destination.
    let mut out = vec![0u8; 7];
    assert_eq!(lzav_decompress_partial(&stream, &mut out, 1000), 7);
    assert_eq!(&out[..], &src[..7]);
    assert_eq!(decompress_partial(&stream, &mut out), 7);
    // Another format, a reference to nowhere.
    assert_eq!(lzav_decompress_partial(&[0x10, 3, 1, 2, 3], &mut out, 7), 0);
    assert_eq!(lzav_decompress_partial(&[0x26, 0x13, 0x02, 0, 0], &mut out, 7), 0);
    assert_eq!(lzav_decompress_partial(&[0x26, 2, 7, 8, 0x13, 0x02, 0, 0], &mut out, 7), 2);
}

#[test]
fn partial_decompression_of_noise_stays_in_bounds() {
    for seed in 0..200u32 {
        let mut stream = generated(64 + (seed as usize % 50), seed);
        stream[0] = 0x26;
        let mut out = vec![0xCCu8; 100];
        let n = lzav_decompress_partial(&stream, &mut out[..90], 95);
        assert!(n <= 90);
        assert_eq!(&out[90..], &[0xCC; 10]);
        let mut again = vec![0u8; 100];
        let _ = lzav_decompress(&stream, &mut again, 100);
    }
}

#[test]
fn bound_values() {
    assert_eq!(lzav_compress_bound(-5), 16);
    assert_eq!(lzav_compress_bound(0), 16);
    assert_eq!(lzav_compress_bound(1), 19);
    assert_eq!(lzav_compress_bound(15), 33);
    assert_eq!(lzav_compress_bound(16), 34);
    assert_eq!(lzav_compress_bound(100), 118);
    assert_eq!(lzav_compress_bound(149), 169);
    assert_eq!(lzav_compress_bound(150), 167);
    assert_eq!(lzav_compress_bound(65536), 65990);
    assert_eq!(lzav_compress_bound(8388608), 8444550);
    assert_eq!(lzav_compress_bound(i32::MAX), i32::MAX);
    assert_eq!(compress_bound(1024), 1048);
    assert_eq!(RustBackend::compress_bound(1024), 1048);
    for n in 0..2000 {
        if n % 150 != 149 {
            assert!(lzav_compress_bound(n + 1) >= lzav_compress_bound(n));
        } else {
            assert_eq!(lzav_compress_bound(n + 1), lzav_compress_bound(n) - 2);
        }
    }
}

#[test]
fn backend_trait_is_the_codec() {
    let src = b"abcabcabcabcabcabcabcabcabcabcabcabcabcabcabcabcabcabcabc".to_vec();
    let mut stream = vec![0u8; RustBackend::compress_bound(src.len() as i32) as usize];
    let n = RustBackend::compress_default(&src, &mut stream);
    assert!(n > 0);
    let mut out = vec![0u8; src.len()];
    assert_eq!(RustBackend::decompress(&stream[..n as usize], &mut out), src.len() as i32);
    assert_eq!(out, src);
    let mut part = vec![0u8; 10];
    assert_eq!(RustBackend::decompress_partial(&stream[..n as usize], &mut part), 10);
    assert_eq!(&part[..], &src[..10]);
    let mut small = vec![0u8; 4];
    assert_eq!(RustBackend::compress_default(&src, &mut small), LZAV_E_PARAMS);
}

#[test]
fn hash_and_table_size_values() {
    assert_eq!(lzav_hash(0, 0), 0x4add09e1);
    assert_eq!(lzav_hash(0x64636261, 0x6665), 0x270594b6);
    assert_eq!(lzav_hash(0xffffffff, 0xffff), 0xe1a34c06);
    assert_eq!(calculate_hash_table_size(0), 4096);
    assert_eq!(calculate_hash_table_size(1024), 4096);
    assert_eq!(calculate_hash_table_size(1025), 8192);
    assert_eq!(calculate_hash_table_size(100000), 524288);
    assert_eq!(calculate_hash_table_size(262144), 1048576);
    assert_eq!(calculate_hash_table_size(8388608), 1048576);
}

#[test]
fn match_lengths() {
    assert_eq!(lzav_match_len(b"abcdef", b"abcxef", 6), 3);
    assert_eq!(lzav_match_len(b"abcdef", b"abcdef", 6), 6);
    assert_eq!(lzav_match_len(b"abcdef", b"abcdef", 4), 4);
    assert_eq!(lzav_match_len(b"abcdef", b"abc", 6), 3);
    assert_eq!(lzav_match_len(b"", b"abc", 6), 0);
    assert_eq!(lzav_match_len(b"xbc", b"abc", 3), 0);
    assert_eq!(lzav_match_len_r(b"xxabc", b"yabc", 5), 3);
    assert_eq!(lzav_match_len_r(b"abc", b"abc", 5), 3);
    assert_eq!(lzav_match_len_r(b"abc", b"abc", 2), 2);
    assert_eq!(lzav_match_len_r(b"abc", b"abd", 3), 0);
    assert_eq!(lzav_match_len_r(b"", b"abd", 3), 0);
    assert_eq!(count_trailing_zeros(0), 64);
    assert_eq!(count_trailing_zeros(1), 0);
    assert_eq!(count_trailing_zeros(8), 3);
    assert_eq!(count_trailing_zeros(0x00FF_0000_0000_0000), 48);
    assert_eq!(count_trailing_zeros(1 << 63), 63);
}

#[test]
fn buffers_and_block_copies() {
    let mut buffer = AlignedBuffer::new(5);
    assert_eq!(buffer.as_slice(), &[0, 0, 0, 0, 0]);
    buffer.as_mut_slice()[2] = 9;
    assert_eq!(buffer.as_slice(), &[0, 0, 9, 0, 0]);
    assert_eq!(AlignedBuffer::new(0).as_slice().len(), 0);

    let mut dst = [1u8, 2, 3, 4];
    assert_eq!(copy_block(&mut dst, &[7, 8, 9], 2), Some(()));
    assert_eq!(dst, [7, 8, 3, 4]);
    assert_eq!(copy_block(&mut dst, &[5, 6, 5], 0), Some(()));
    assert_eq!(dst, [7, 8, 3, 4]);
    assert_eq!(copy_block(&mut dst, &[5, 6, 5], 4), None);
    assert_eq!(copy_block(&mut dst, &[5, 6, 5, 6, 5], 5), None);
    assert_eq!(dst, [7, 8, 3, 4]);
}

#[test]
fn byte_order_is_corrected() {
    assert_eq!(swap16(0x1234), u16::from_le_bytes(0x1234u16.to_ne_bytes()));
    assert_eq!(swap32(0x12345678), u32::from_le_bytes(0x12345678u32.to_ne_bytes()));
    assert_eq!(
        swap64(0x0123456789ABCDEF),
        u64::from_le_bytes(0x0123456789ABCDEFu64.to_ne_bytes())
    );
    assert!(swap16(0x1234) == 0x1234 || swap16(0x1234) == 0x3412);
    assert!(swap32(0x12345678) == 0x12345678 || swap32(0x12345678) == 0x78563412);
    // The number itself where this machine stores the low byte first, the
    // number with its bytes in the opposite order where it does not.
    let low_first = u16::from_ne_bytes([1, 0]) == 1;
    assert_eq!(swap16(0x1234), if low_first { 0x1234 } else { 0x3412 });
    assert_eq!(swap32(0x12345678), if low_first { 0x12345678 } else { 0x78563412 });
    assert_eq!(
        swap64(0x0123456789ABCDEF),
        if low_first { 0x0123456789ABCDEF } else { 0xEFCDAB8967452301 }
    );
}

#[test]
fn errors_and_their_codes() {
    assert_eq!(LZAV_E_PARAMS, -1);
    assert_eq!(LZAV_E_SRCOOB, -2);
    assert_eq!(LZAV_E_DSTOOB, -3);
    assert_eq!(LZAV_E_REFOOB, -4);
    assert_eq!(LZAV_E_DSTLEN, -5);
    assert_eq!(LZAV_E_UNKFMT, -6);
    assert_eq!(LzavError::from(-1), LzavError::Params);
    assert_eq!(LzavError::from(-2), LzavError::SourceOutOfBounds);
    assert_eq!(LzavError::from(-3), LzavError::DestOutOfBounds);
    assert_eq!(LzavError::from(-4), LzavError::ReferenceOutOfBounds);
    assert_eq!(LzavError::from(-5), LzavError::DestLengthMismatch);
    assert_eq!(LzavError::from(-6), LzavError::UnknownFormat);
    assert_eq!(LzavError::from(0), LzavError::Params);
    assert_eq!(LzavError::from(-7), LzavError::Params);
    assert_eq!(LzavError::UnknownFormat.code(), -6);
    assert_eq!(LzavError::Params.message(), "Invalid parameters");
    assert_eq!(LzavError::SourceOutOfBounds.message(), "Source buffer out of bounds");
    assert_eq!(LzavError::DestOutOfBounds.message(), "Destination buffer out of bounds");
    assert_eq!(LzavError::ReferenceOutOfBounds.message(), "Back-reference out of bounds");
    assert_eq!(LzavError::DestLengthMismatch.message(), "Decompressed length mismatch");
    assert_eq!(LzavError::UnknownFormat.message(), "Unknown stream format");
    assert_eq!(i32::from(CompressError::InvalidParams), -1);
    assert_eq!(i32::from(CompressError::BufferTooSmall), -1);
    assert_eq!(i32::from(DecompressError::InvalidParams), -1);
    assert_eq!(i32::from(DecompressError::SourceOutOfBounds), -2);
    assert_eq!(i32::from(DecompressError::DestOutOfBounds), -3);
    assert_eq!(i32::from(DecompressError::ReferenceOutOfBounds), -4);
    assert_eq!(i32::from(DecompressError::DestLengthMismatch), -5);
    assert_eq!(DecompressError::UnknownFormat.code(), -6);
}
