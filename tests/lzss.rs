use native_accel::lzss::{pack, pack_with_level, unpack};

#[test]
fn test_roundtrip() {
    let data = b"Hello, World! This is a test of LZSS compression. Hello, World!";
    let packed = pack(data);
    let unpacked = unpack(&packed);
    assert_eq!(data.as_slice(), unpacked.as_slice());
}

#[test]
fn test_empty() {
    assert!(pack(&[]).is_empty());
    assert!(unpack(&[]).is_empty());
}

#[test]
fn test_compression_levels() {
    let mut data = Vec::with_capacity(1000);
    for _ in 0..100 {
        data.extend_from_slice(b"0123456789");
    }

    let packed_2 = pack_with_level(&data, 2);
    let unpacked_2 = unpack(&packed_2);
    assert_eq!(data, unpacked_2);

    let packed_17 = pack_with_level(&data, 17);
    let unpacked_17 = unpack(&packed_17);
    assert_eq!(data, unpacked_17);

    assert!(packed_2.len() >= packed_17.len());
}

fn le32(b: &[u8], at: usize) -> usize {
    u32::from_le_bytes([b[at], b[at + 1], b[at + 2], b[at + 3]]) as usize
}

#[test]
fn repeated_byte_packs_to_literal_and_backref() {
    let data = b"AAAAAAAAAA";
    let packed = pack_with_level(data, 17);
    assert_eq!(packed, vec![12, 0, 0, 0, 10, 0, 0, 0, 1, 65, 23, 0]);
    assert!(packed.len() < 10 + 8);
    assert_eq!(unpack(&packed), data.to_vec());
}

#[test]
fn round_trip_every_level() {
    let mut data = Vec::new();
    for i in 0..3000u32 {
        data.push(((i * 7 + i / 13) % 251) as u8);
        if i % 5 == 0 {
            data.push(b'x');
        }
    }
    for level in 0..=20usize {
        let packed = pack_with_level(&data, level);
        assert_eq!(unpack(&packed), data);
    }
}

#[test]
fn round_trip_past_one_window() {
    let mut data = Vec::new();
    let mut x: u32 = 1;
    for _ in 0..20000 {
        x = x.wrapping_mul(1103515245).wrapping_add(12345);
        data.push(b"abcab"[((x >> 16) % 5) as usize]);
    }
    let packed = pack(&data);
    assert!(packed.len() < data.len());
    assert_eq!(unpack(&packed), data);
}

#[test]
fn round_trip_single_byte() {
    let packed = pack(&[7]);
    assert_eq!(packed, vec![10, 0, 0, 0, 1, 0, 0, 0, 1, 7]);
    assert_eq!(unpack(&packed), vec![7]);
}

#[test]
fn header_gives_sizes() {
    let data = b"the quick brown fox jumps over the lazy dog, the quick brown fox";
    let packed = pack(data);
    assert_eq!(le32(&packed, 0), packed.len());
    assert_eq!(le32(&packed, 4), data.len());
}

#[test]
fn level_two_is_not_smaller_than_level_seventeen() {
    let data = b"abcabcabcabcabcabcabcabcabcabcabcabcabcabcXYZabcabcabc".to_vec();
    assert!(pack_with_level(&data, 2).len() >= pack_with_level(&data, 17).len());
}

#[test]
fn unpack_short_input_is_empty() {
    assert!(unpack(&[1, 2, 3, 4, 5, 6, 7]).is_empty());
}

#[test]
fn unpack_zero_size_is_empty() {
    assert!(unpack(&[9, 0, 0, 0, 0, 0, 0, 0, 1, 65]).is_empty());
}

#[test]
fn unpack_stops_at_declared_size() {
    // Eight literal flags, but the header asks for two bytes only.
    let packed = vec![12, 0, 0, 0, 2, 0, 0, 0, 0xFF, 65, 66, 67];
    assert_eq!(unpack(&packed), vec![65, 66]);
}

#[test]
fn unpack_truncated_body_gives_prefix() {
    let packed = pack(b"hello hello hello hello");
    let cut = &packed[..packed.len() - 2];
    let out = unpack(cut);
    assert!(out.len() < 23);
    assert_eq!(out.as_slice(), &b"hello hello hello hello"[..out.len()]);
}

#[test]
fn unpack_overlapping_backref_repeats() {
    // literal 'a', then a back-reference of offset 1, length 5.
    let tok: u16 = (1 << 4) | (5 - 2);
    let packed = vec![12, 0, 0, 0, 6, 0, 0, 0, 0b01, b'a', tok as u8, (tok >> 8) as u8];
    assert_eq!(unpack(&packed), b"aaaaaa".to_vec());
}

#[test]
fn unpack_backref_before_start_skips() {
    // a back-reference of offset 3 with nothing written yet copies nothing.
    let tok: u16 = (3 << 4) | (2 - 2);
    let packed = vec![13, 0, 0, 0, 1, 0, 0, 0, 0b10, tok as u8, (tok >> 8) as u8, b'z'];
    assert_eq!(unpack(&packed), b"z".to_vec());
}

#[test]
fn eight_literals_end_with_empty_flag_byte() {
    let packed = pack_with_level(b"ABCDEFGH", 17);
    assert_eq!(
        packed,
        vec![18, 0, 0, 0, 8, 0, 0, 0, 0xFF, 0x41, 0x42, 0x43, 0x44, 0x45, 0x46, 0x47, 0x48, 0x00]
    );
}

#[test]
fn levels_outside_range_are_clamped() {
    let data = b"abababababcdcdcdcdcdababababab0123012301230123".to_vec();
    assert_eq!(pack_with_level(&data, 0), pack_with_level(&data, 2));
    assert_eq!(pack_with_level(&data, 1), pack_with_level(&data, 2));
    assert_eq!(pack_with_level(&data, 100), pack_with_level(&data, 17));
    assert_eq!(pack(&data), pack_with_level(&data, 17));
}

#[test]
fn packed_size_within_bound() {
    let data: Vec<u8> = (0..=255u8).collect();
    let packed = pack(&data);
    assert!(packed.len() <= 9 + data.len() + data.len() / 8);
    assert_eq!(unpack(&packed), data);
}
