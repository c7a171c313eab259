use rlzav::compress::{
    candidate_len, extend_back, find_match, mavg_after_match, skip_ahead, write_block,
    write_final_block, write_short_data, write_varint, BlockState,
};
use rlzav::decompress::{lzav_decompress, read_header, read_varint, Carry, Header};
use rlzav::hashtable::{
    hash_table_insert, hash_table_probe, hash_table_seed, power_of_two, read_le16, read_le32,
    scratch_size, slot_offset, write_le32,
};

#[test]
fn match_finder_takes_the_longer_candidate() {
    let src = b"ABCDEFGH".repeat(8);
    let key = u32::from_le_bytes(*b"ABCD");
    // At 24 the bytes repeat what lies 8 back; the match reaches back over
    // the literals as far as its distance.
    let m = find_match(&src, 24, 0, (key, 16, key, 16), key).unwrap();
    assert_eq!((m.start, m.len, m.dist), (16, 16, 8));
    let m = find_match(&src, 24, 20, (key, 16, key, 16), key).unwrap();
    assert_eq!((m.start, m.len, m.dist), (20, 12, 8));
    // Of two candidates the longer one; the first where both are as long.
    let m = find_match(&src, 32, 32, (key, 24, key, 16), key).unwrap();
    assert_eq!((m.start, m.len, m.dist), (32, 16, 16));
    let m = find_match(&src, 40, 40, (key, 8, key, 24), key).unwrap();
    assert_eq!((m.start, m.len, m.dist), (40, 18, 32));
    let m = find_match(&src, 40, 40, (key, 24, key, 24), key).unwrap();
    assert_eq!((m.start, m.len, m.dist), (40, 16, 16));
    // No candidate: another key, a position that is not behind, a distance
    // under 8, bytes that differ, too little room before the last six bytes.
    assert!(find_match(&src, 24, 0, (key + 1, 16, key + 1, 16), key).is_none());
    assert!(find_match(&src, 24, 0, (key, 24, key, 30), key).is_none());
    assert!(find_match(&src, 24, 0, (key, 17, key, 23), key).is_none());
    assert!(find_match(&src, 24, 0, (key, 15, key, 13), key).is_none());
    assert!(find_match(&src, 56, 0, (key, 16, key, 16), key).is_none());
    // A match of six bytes has no code and is given up, unless the bytes
    // before it make it longer.
    let six = b"abcdefXYabcdefZW--------";
    let key6 = u32::from_le_bytes(*b"abcd");
    assert_eq!(candidate_len(six, 8, key6, 0, key6), 6);
    assert!(find_match(six, 8, 8, (key6, 0, key6, 0), key6).is_none());
    assert!(find_match(six, 8, 0, (key6, 0, key6, 0), key6).is_none());
    let seven = b"QabcdefYQabcdefZW--------";
    let m = find_match(seven, 9, 0, (key6, 1, key6, 1), key6).unwrap();
    assert_eq!((m.start, m.len, m.dist), (8, 7, 8));
    assert_eq!(candidate_len(&src, 24, key, 16, key), 8);
    assert_eq!(candidate_len(&src, 32, key, 8, key), 24);
    assert_eq!(candidate_len(&src, 32, key, 9, key), 0);
    assert_eq!(extend_back(&src, 24, 0, 16, 8), 8);
    assert_eq!(extend_back(&src, 24, 21, 16, 8), 3);
    assert_eq!(extend_back(&src, 24, 24, 16, 8), 0);
    assert_eq!(extend_back(&src, 24, 0, 15, 8), 0);

    // A long run: no match is longer than 530 bytes.
    let zeros = vec![0u8; 4000];
    let m = find_match(&zeros, 2000, 1990, (0, 1000, 0, 16), 0).unwrap();
    assert_eq!((m.start, m.len, m.dist), (2000, 530, 1000));
    let m = find_match(&zeros, 2000, 1000, (1, 16, 0, 1800), 0).unwrap();
    assert_eq!((m.start, m.len, m.dist), (1800, 400, 200));
}

#[test]
fn average_and_skip_values() {
    assert_eq!(mavg_after_match(209715200, 16), 209543168);
    assert_eq!(mavg_after_match(0, 6), 12288);
    assert_eq!(mavg_after_match(1111490560, 530), 1111490560);
    assert_eq!(mavg_after_match(12582913, 6), 12582912);
    assert_eq!(skip_ahead(100, 100, 0, 1), (101, 1));
    assert_eq!(skip_ahead(100, 50, 3276800, 1), (101, 1));
    assert_eq!(skip_ahead(100, 50, 3276799, 1), (103, 0));
    assert_eq!(skip_ahead(100, 50, 3276799, 0), (102, 1));
    assert_eq!(skip_ahead(100, 50, 2129919, 0), (103, 1));
    assert_eq!(skip_ahead(100, 50, 1638399, 0), (104, 1));
    assert_eq!(skip_ahead(100, 50, 16384, 0), (202, 1));
    assert_eq!(skip_ahead(100, 50, 0, 1), (204, 0));
}

#[test]
fn block_encoder_bytes() {
    let src = b"xyz-----";
    let mut dst = vec![0u8; 64];
    dst[0] = 0x26;
    // Three literals and a reference of 10 bytes at distance 300.
    let (op, state) = write_block(&mut dst, 1, 3, 10, 300, src, 0, BlockState::new());
    assert_eq!(op, 7);
    assert_eq!(&dst[..8], &[0x26, 0x03, b'x', b'y', b'z', 0xD4, 0x12, 0]);
    assert_eq!((state.cbp, state.cv, state.csh), (6, 0, 0));
    // No literals, the longest reference at the longest distance.
    let (op, state) = write_block(&mut dst, op, 0, 530, 8388607, src, 3, state);
    assert_eq!(op, 13);
    assert_eq!(&dst[7..14], &[0xF0, 0xFF, 0xFF, 0x1F, 255, 254, 0]);
    assert_eq!((state.cbp, state.cv, state.csh), (10, 3, 3));
    // The three low bits of the next distance go to the last offset byte
    // of that block, the next two to the literal header.
    // Its length of 21 bytes is the last that the nibble holds.
    let (op, state) = write_block(&mut dst, op, 2, 21, 0b1_10_101, src, 3, state);
    assert_eq!(dst[10], 0x1F | (0b101 << 5));
    assert_eq!(op, 18);
    assert_eq!(&dst[13..19], &[0x82, b'-', b'-', 0x5F, 0x00, 0]);
    assert_eq!((state.cbp, state.cv, state.csh), (17, 0, 0));
    // A reference with two offset bytes, of the shortest length that has a
    // code, and one of the first length that takes a length byte.
    let (op, state) = write_block(&mut dst, op, 0, 7, 1024, src, 5, state);
    assert_eq!(op, 21);
    assert_eq!(&dst[18..22], &[0x21, 0x00, 0x01, 0]);
    assert_eq!((state.cbp, state.cv, state.csh), (20, 0, 0));
    let (op, state) = write_block(&mut dst, op, 0, 22, 8, src, 5, state);
    assert_eq!(op, 24);
    assert_eq!(&dst[21..25], &[0x10, 0x02, 0x01, 0]);
    assert_eq!((state.cbp, state.cv, state.csh), (22, 0, 0));
    // Eight literals and a reference of eight bytes, eight back.
    let mut dst = vec![0u8; 32];
    dst[0] = 0x26;
    let (op, _) = write_block(&mut dst, 1, 8, 8, 8, b"ABCDEFGH", 0, BlockState::new());
    assert_eq!(op, 12);
    assert_eq!(dst[1], 0x08);
    assert_eq!(&dst[2..10], b"ABCDEFGH");
    assert_eq!(&dst[10..13], &[0x92, 0x00, 0]);

    let mut dst = vec![0xEEu8; 16];
    assert_eq!(write_final_block(&mut dst, 2, src, 1), 10);
    assert_eq!(&dst[..11], &[0xEE, 0xEE, 0x07, b'y', b'z', b'-', b'-', b'-', b'-', b'-', 0xEE]);
    let mut dst = vec![0xEEu8; 16];
    assert_eq!(write_short_data(b"ab", &mut dst), 8);
    assert_eq!(&dst[..9], &[0x26, 2, b'a', b'b', 0, 0, 0, 0, 0xEE]);
    let mut dst = vec![0xEEu8; 16];
    assert_eq!(write_short_data(b"abcdefgh", &mut dst), 10);
    assert_eq!(&dst[..11], &[0x26, 8, b'a', b'b', b'c', b'd', b'e', b'f', b'g', b'h', 0xEE]);
}

#[test]
fn lengths_in_base_128() {
    let mut dst = vec![0xEEu8; 8];
    assert_eq!(write_varint(&mut dst, 0, 1), 2);
    assert_eq!(&dst[..3], &[0xEE, 0, 0xEE]);
    assert_eq!(write_varint(&mut dst, 127, 0), 1);
    assert_eq!(write_varint(&mut dst, 128, 0), 2);
    assert_eq!(&dst[..2], &[0x80, 0x01]);
    assert_eq!(read_varint(&dst, 0), Some((128, 2)));
    assert_eq!(write_varint(&mut dst, 16383, 0), 2);
    assert_eq!(&dst[..2], &[0xFF, 0x7F]);
    assert_eq!(write_varint(&mut dst, 16384, 0), 3);
    assert_eq!(&dst[..3], &[0x80, 0x80, 0x01]);
    assert_eq!(read_varint(&dst, 0), Some((16384, 3)));
    assert_eq!(write_varint(&mut dst, 0x0FFF_FFFF, 0), 4);
    assert_eq!(&dst[..5], &[0xFF, 0xFF, 0xFF, 0x7F, 0xEE]);
    assert_eq!(read_varint(&dst, 0), Some((0x0FFF_FFFF, 4)));
    assert_eq!(write_varint(&mut dst, 8388592, 0), 4);
    assert_eq!(read_varint(&dst, 0), Some((8388592, 4)));
    // The fourth byte ends the number whatever its top bit says.
    assert_eq!(read_varint(&[0x81, 0x82, 0x83, 0x84, 0x05], 0), Some((1 + (2 << 7) + (3 << 14) + (4 << 21), 4)));
    assert_eq!(read_varint(&[0x81, 0x82], 0), None);
    assert_eq!(read_varint(&[0x81, 0x82], 2), None);
}

#[test]
fn headers_as_the_decoder_reads_them() {
    assert!(matches!(
        read_header(&[0x26, 0x93, 0x00], 1),
        Header::Reference { kind: 1, low: 2, carry: 0, len: 9, next: 3 }
    ));
    assert!(matches!(
        read_header(&[0x26, 0xF0, 0xFF, 0xFF, 0xBF, 255, 254], 1),
        Header::Reference { kind: 3, low: 8388607, carry: 5, len: 530, next: 7 }
    ));
    assert!(matches!(
        read_header(&[0x26, 0x20, 0x00, 0x01, 0x07], 1),
        Header::Reference { kind: 2, low: 1024, carry: 0, len: 28, next: 5 }
    ));
    assert!(matches!(read_header(&[0x26, 0x20, 0x00], 1), Header::Truncated));
    assert!(matches!(read_header(&[0x26, 0x10, 0x00], 1), Header::Truncated));
    assert!(matches!(read_header(&[0x26, 0x10, 0x00, 255], 1), Header::Truncated));
    assert!(matches!(
        read_header(&[0x26, 0xC7], 1),
        Header::Literal { carry: 3, start: 2, len: 7 }
    ));
    assert!(matches!(
        read_header(&[0x26, 0x40, 0x9C, 0x02], 1),
        Header::Literal { carry: 1, start: 4, len: 300 }
    ));
    assert!(matches!(read_header(&[0x26, 0x00], 1), Header::Truncated));
    // The minimal reference length comes from the prefix byte.
    assert!(matches!(
        read_header(&[0x24, 0x11, 0x00], 1),
        Header::Reference { kind: 1, low: 0, carry: 0, len: 5, next: 3 }
    ));
}

#[test]
fn table_in_a_byte_region() {
    let mut region = vec![0xEEu8; 40];
    hash_table_seed(&mut region[..32], 0x04030201);
    let slot = [1, 2, 3, 4, 16, 0, 0, 0, 1, 2, 3, 4, 16, 0, 0, 0];
    assert_eq!(&region[..16], &slot);
    assert_eq!(&region[16..32], &slot);
    assert_eq!(&region[32..], &[0xEE; 8]);
    let table = &mut region[..32];
    assert_eq!(hash_table_probe(table, 16), (0x04030201, 16, 0x04030201, 16));
    hash_table_insert(table, 16, 1, 0xAABBCCDD, 0x00112233);
    assert_eq!(hash_table_probe(table, 16), (0x04030201, 16, 0xAABBCCDD, 0x00112233));
    hash_table_insert(table, 16, 0, 7, 9);
    assert_eq!(hash_table_probe(table, 16), (7, 9, 0xAABBCCDD, 0x00112233));
    assert_eq!(hash_table_probe(table, 0), (0x04030201, 16, 0x04030201, 16));
    assert_eq!(&table[24..32], &[0xDD, 0xCC, 0xBB, 0xAA, 0x33, 0x22, 0x11, 0x00]);
    assert_eq!(read_le32(table, 24), 0xAABBCCDD);
    assert_eq!(read_le16(table, 24), 0xCCDD);
    write_le32(&mut region, 33, 0x01020304);
    assert_eq!(&region[32..38], &[0xEE, 4, 3, 2, 1, 0xEE]);

    assert_eq!(slot_offset(0xFFFF_FFFF, 4096), 4080);
    assert_eq!(slot_offset(0x1234_5678, 4096), 0x670);
    assert_eq!(slot_offset(0x1234_5678, 1048576), 0x45670);
    assert_eq!(slot_offset(0x0000_000F, 16), 0);
    assert!(power_of_two(1) && power_of_two(4096) && power_of_two(1 << 40));
    assert!(!power_of_two(0) && !power_of_two(3) && !power_of_two(4097) && !power_of_two(6));
    assert_eq!(scratch_size(0, 100), 0);
    assert_eq!(scratch_size(2048, 100), 0);
    assert_eq!(scratch_size(4096, 100), 4096);
    assert_eq!(scratch_size(4096, 100000), 4096);
    assert_eq!(scratch_size(5000, 100000), 0);
    assert_eq!(scratch_size(1 << 20, 100), 4096);
    assert_eq!(scratch_size(1 << 22, 1 << 22), 1 << 20);
}

#[test]
fn carried_distance_bits() {
    let start = Carry::new();
    assert_eq!(start.distance(5, 10), Some(5));
    assert_eq!(start.distance(10, 10), Some(10));
    assert_eq!(start.distance(11, 10), None);
    assert_eq!(start.distance(0, 10), None);
    assert_eq!(start.after_literal(3).distance(2, 100), Some(11));
    assert_eq!(start.after_literal(3).after_literal(2).distance(1, 100), Some(16 + 8 + 3));
    assert_eq!(Carry::after_reference(3, 5).distance(1, 20), Some(13));
    assert_eq!(Carry::after_reference(3, 5).after_literal(1).distance(1, 100), Some(32 + 8 + 5));
    assert_eq!(Carry::after_reference(2, 0).distance(7, 20), Some(7));

    // Behind many literal blocks the block's own bits weigh more than any
    // buffer is long, but what was carried still counts.
    let mut far = start.after_literal(1);
    for _ in 0..40 {
        far = far.after_literal(0);
    }
    assert_eq!(far.distance(1, usize::MAX), None);
    assert_eq!(far.distance(0, 5), Some(1));
    assert_eq!(far.after_literal(2).distance(0, usize::MAX), None);

    let mut stream = vec![0x26u8, 0x41, b'a'];
    for _ in 0..40 {
        stream.extend_from_slice(&[0x01, b'b']);
    }
    stream.extend_from_slice(&[0x11, 0x00, 0x06]);
    stream.extend_from_slice(b"UVWXYZ");
    let mut out = vec![0u8; 54];
    assert_eq!(lzav_decompress(&stream, &mut out, 54), Ok(54));
    let mut expected = vec![b'a'];
    expected.extend_from_slice(&[b'b'; 47]);
    expected.extend_from_slice(b"UVWXYZ");
    assert_eq!(out, expected);
}
