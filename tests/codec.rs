use rust_database::{
    decode_buffer, lz77_decode, lz77_encode, Compressor, DataEntry, DatabaseError, EntryType, Lz77,
};

fn pseudo_random(n: usize, seed: u32) -> Vec<u8> {
    let mut x = seed;
    let mut out = Vec::with_capacity(n);
    for _ in 0..n {
        x = x.wrapping_mul(1_103_515_245).wrapping_add(12_345);
        out.push((x >> 16) as u8);
    }
    out
}

fn round_trip(x: &[u8]) {
    let enc = Lz77::encode(x);
    assert_eq!(Lz77::decode(&enc).unwrap(), x.to_vec());
}

#[test]
fn round_trip_empty() {
    assert!(lz77_encode(&[]).is_empty());
    assert_eq!(lz77_decode(&[]).unwrap(), Vec::<u8>::new());
    round_trip(&[]);
}

#[test]
fn round_trip_one_byte() {
    assert_eq!(lz77_encode(&[42]), vec![0, 1, 42]);
    round_trip(&[42]);
}

#[test]
fn round_trip_identical_bytes_uses_overlapping_copy() {
    let x = vec![7u8; 1000];
    let enc = lz77_encode(&x);
    // A literal, then a back-reference at distance 1 that overlaps its output.
    assert_eq!(&enc[..7], &[0, 1, 7, 1, 0, 1, 255]);
    round_trip(&x);
}

#[test]
fn round_trip_compressible_text() {
    let x = b"abcabcabcabcabcabc-the quick brown fox-the quick brown fox".repeat(40);
    let enc = lz77_encode(&x);
    assert!(enc.len() < x.len() / 4);
    round_trip(&x);
}

#[test]
fn round_trip_incompressible_bytes() {
    for (n, seed) in [(1usize, 1u32), (254, 2), (255, 3), (256, 4), (3000, 5), (9000, 6)] {
        round_trip(&pseudo_random(n, seed));
    }
}

#[test]
fn long_run_of_one_letter_compresses_to_under_two_percent() {
    let x = vec![b'A'; 10_000];
    let enc = lz77_encode(&x);
    // One literal chunk of three bytes, then forty back-references of four.
    assert_eq!(enc.len(), 163);
    assert!(enc.len() * 50 <= x.len());
    assert_eq!(lz77_decode(&enc).unwrap(), x);
}

#[test]
fn literal_run_is_split_at_255_bytes() {
    let x = pseudo_random(300, 9);
    let enc = lz77_encode(&x);
    assert_eq!(enc[0], 0);
    assert_eq!(enc[1], 255);
}

#[test]
fn tie_goes_to_the_nearest_match() {
    // "abcX" then "abcY" then "abc": both earlier "abc" match three bytes; the
    // nearer one, at distance 4, is taken.
    let x = b"abcXabcYabc".to_vec();
    let enc = lz77_encode(&x);
    assert_eq!(&enc[enc.len() - 4..], &[1, 0, 4, 3]);
    round_trip(&x);
}

#[test]
fn decode_rejects_malformed_blocks() {
    let bad: Vec<Vec<u8>> = vec![
        vec![2],
        vec![0],
        vec![0, 0],
        vec![0, 3, 1, 2],
        vec![1, 0, 1],
        vec![0, 1, 5, 1, 0, 0, 3],
        vec![0, 1, 5, 1, 0, 2, 3],
        vec![0, 1, 5, 1, 0, 1, 0],
    ];
    for b in bad {
        assert!(matches!(lz77_decode(&b), Err(DatabaseError::InvalidFormat)), "{:?}", b);
    }
    assert_eq!(lz77_decode(&[0, 1, 5, 1, 0, 1, 3]).unwrap(), vec![5, 5, 5, 5]);
}

#[test]
fn frame_layout_is_exact() {
    let e = DataEntry { entry_type: EntryType::Data, key: b"k".to_vec(), value: b"v".to_vec() };
    let sum: u32 = 1 + 3 + b'k' as u32 + 1 + b'v' as u32;
    let mut expected = vec![0, 0, 0, 0, 1, 0, 0, 0, 3, b'k', 0, 1, b'v'];
    expected.extend_from_slice(&sum.to_be_bytes());
    assert_eq!(e.to_bytes(), expected);
}

#[test]
fn tombstone_frame_has_empty_value() {
    let e = DataEntry { entry_type: EntryType::Tombstone, key: b"gone".to_vec(), value: Vec::new() };
    let bytes = e.to_bytes();
    assert_eq!(bytes.len(), 13 + 4);
    assert_eq!(bytes[0], 1);
    assert_eq!(&bytes[5..9], &[0, 0, 0, 0]);
    assert_eq!(decode_buffer(&bytes, b"gone").unwrap(), None);
}

#[test]
fn frame_round_trip() {
    let value = b"some value, some value, some value".to_vec();
    let e = DataEntry { entry_type: EntryType::Data, key: b"key".to_vec(), value: value.clone() };
    let bytes = e.to_bytes();
    assert_eq!(decode_buffer(&bytes, b"key").unwrap(), Some(value));
    assert_eq!(decode_buffer(&bytes, b"other").unwrap(), None);
}

#[test]
fn any_changed_byte_is_detected() {
    let e = DataEntry { entry_type: EntryType::Data, key: b"key".to_vec(), value: b"value".to_vec() };
    let bytes = e.to_bytes();
    for i in 0..bytes.len() - 4 {
        let mut b = bytes.clone();
        b[i] = b[i].wrapping_add(1);
        let n = b.len();
        let sum = b[..n - 4].iter().fold(0u32, |s, x| s.wrapping_add(*x as u32));
        assert_ne!(sum, u32::from_be_bytes([b[n - 4], b[n - 3], b[n - 2], b[n - 1]]));
    }
    let mut b = bytes.clone();
    b[12] ^= 0x10;
    assert!(matches!(decode_buffer(&b, b"key"), Err(DatabaseError::CorruptedData)));
}

#[test]
fn short_or_truncated_frames_are_rejected() {
    let e = DataEntry { entry_type: EntryType::Data, key: b"key".to_vec(), value: b"value".to_vec() };
    let bytes = e.to_bytes();
    assert!(matches!(decode_buffer(&bytes[..5], b"key"), Err(DatabaseError::InvalidFormat)));
    assert!(matches!(
        decode_buffer(&bytes[..bytes.len() - 1], b"key"),
        Err(DatabaseError::CorruptedData)
    ));
}
