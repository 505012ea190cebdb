use bindle_file::{Bindle, BindleError, Compress};

/// Builds a saved image holding two uncompressed entries.
fn two_entry_image() -> Vec<u8> {
    let mut b = Bindle::open(&[]).unwrap();
    b.add("first.txt", b"payload number one", Compress::Raw).unwrap();
    b.add("second.txt", b"payload number two", Compress::Raw).unwrap();
    b.save().unwrap()
}

#[test]
fn test_corrupt_payload_fails_read_others_unaffected() {
    let mut bytes = two_entry_image();
    // The first payload starts right after the eight magic bytes.
    bytes[10] ^= 0xff;

    let b = Bindle::open(&bytes).expect("structure is still valid");
    assert!(b.read("first.txt").is_none());
    assert_eq!(b.read("second.txt").unwrap().as_slice(), b"payload number two");
}

#[test]
fn test_corrupt_payload_checksum_mismatch_streaming() {
    let mut bytes = two_entry_image();
    bytes[10] ^= 0xff;

    let b = Bindle::open(&bytes).unwrap();
    // The reader itself opens fine: the corruption shows up in the checksum.
    let mut r = b.reader("first.txt").expect("reader should open");
    let got = r.read_chunk(1024);
    assert_eq!(got.len(), b"payload number one".len());
    assert_eq!(r.verify_crc32(), Err(BindleError::ChecksumMismatch));
}

#[test]
fn test_corrupt_compressed_payload_fails_to_decode() {
    let mut b = Bindle::open(&[]).unwrap();
    b.add("z.bin", &vec![b'q'; 4096], Compress::Zstd).unwrap();
    let mut bytes = b.save().unwrap();
    // Break the first byte of the compressed stream.
    bytes[8] ^= 0xff;

    let b2 = Bindle::open(&bytes).unwrap();
    assert!(b2.read("z.bin").is_none());
    assert_eq!(b2.reader("z.bin").err(), Some(BindleError::DecompressionFailed));
}

#[test]
fn test_tampered_offset_is_out_of_bounds() {
    let mut b = Bindle::open(&[]).unwrap();
    b.add("victim", b"some payload bytes", Compress::Raw).unwrap();
    let data_end = b.data_end() as usize;
    let mut bytes = b.save().unwrap();
    // The entry record starts at the index region; its first eight bytes
    // are the payload offset.  Point it far outside the image.
    for i in 0..8 {
        bytes[data_end + i] = 0xee;
    }

    let mut b2 = Bindle::open(&bytes).expect("structure is still parseable");
    assert!(b2.read("victim").is_none());
    assert_eq!(b2.reader("victim").err(), Some(BindleError::OutOfBounds));
    assert_eq!(b2.vacuum().err(), Some(BindleError::OutOfBounds));
    // The failed vacuum left the archive untouched.
    assert_eq!(b2.len(), 1);
}

#[test]
fn test_removal() {
    let mut b = Bindle::open(&[]).unwrap();
    b.add("gone.txt", b"to be removed", Compress::Raw).unwrap();
    b.add("stay.txt", b"to be kept", Compress::Raw).unwrap();

    assert!(b.remove("gone.txt"));
    assert!(!b.remove("gone.txt"));
    assert!(!b.remove("never-there.txt"));

    let bytes = b.save().unwrap();
    let b2 = Bindle::open(&bytes).unwrap();
    assert!(!b2.contains("gone.txt"));
    assert!(b2.contains("stay.txt"));
    assert_eq!(b2.read("stay.txt").unwrap().as_slice(), b"to be kept");
    assert!(b2.read("gone.txt").is_none());
    assert_eq!(b2.len(), 1);
}

#[test]
fn test_partial_index_flag() {
    let mut b = Bindle::open(&[]).unwrap();
    b.add("a", b"aaa", Compress::Raw).unwrap();
    b.add("b", b"bbb", Compress::Raw).unwrap();
    let mut bytes = b.save().unwrap();

    // Claim one more entry than the table holds: the walk stops at the
    // footer and reports a partial parse, keeping what it found.
    let n = bytes.len();
    bytes[n - 8] = 3;

    let b2 = Bindle::open(&bytes).unwrap();
    assert!(b2.is_partial());
    assert_eq!(b2.len(), 2);
    assert_eq!(b2.read("a").unwrap().as_slice(), b"aaa");

    // A complete parse reports no partial index.
    let clean = two_entry_image();
    let b3 = Bindle::open(&clean).unwrap();
    assert!(!b3.is_partial());
}

#[test]
fn test_clear_empties_index() {
    let mut b = Bindle::open(&[]).unwrap();
    b.add("x", b"1", Compress::Raw).unwrap();
    b.add("y", b"2", Compress::Raw).unwrap();
    assert_eq!(b.len(), 2);
    assert!(!b.is_empty());
    b.clear();
    assert!(b.is_empty());
    assert_eq!(b.len(), 0);
    let bytes = b.save().unwrap();
    let b2 = Bindle::open(&bytes).unwrap();
    assert!(b2.is_empty());
}

#[test]
fn test_name_too_long_is_rejected() {
    let mut b = Bindle::open(&[]).unwrap();
    let long_name = "n".repeat(70000);
    assert_eq!(b.add(&long_name, b"data", Compress::Raw), Err(BindleError::NameTooLong));
    assert!(b.writer(&long_name, Compress::Raw).is_err());
    assert!(b.is_empty());
}

#[test]
fn test_known_crc32_value() {
    // The standard CRC-32 check value: the checksum of the digits one
    // through nine.
    let mut b = Bindle::open(&[]).unwrap();
    b.add("check", b"123456789", Compress::Raw).unwrap();
    let idx = b.index();
    assert_eq!(idx.len(), 1);
    assert_eq!(idx.entry_at(0).crc32(), 0xcbf4_3926);
    assert_eq!(b.read("check").unwrap().as_slice(), b"123456789");
}
