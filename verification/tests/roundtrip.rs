use bindle_file::{Bindle, Compress};

#[test]
fn test_create_and_read() {
    let data = b"Hello, Bindle World!";

    // 1. Create and write
    let mut fp = Bindle::open(&[]).expect("Failed to open");
    fp.add("hello.txt", data, Compress::Raw).expect("Failed to add");
    let bytes = fp.save().expect("Failed to commit");

    // 2. Open and read
    let fp = Bindle::open(&bytes).expect("Failed to re-open");
    let result = fp.read("hello.txt").expect("File not found");
    assert_eq!(result.as_slice(), data);
}

#[test]
fn test_zstd_compression() {
    // Highly compressible data
    let data = vec![b'A'; 1000];

    let mut fp = Bindle::open(&[]).expect("Failed to open");
    fp.add("large.bin", &data, Compress::Zstd).expect("Failed to add");
    let bytes = fp.save().expect("Failed to commit");

    let fp = Bindle::open(&bytes).expect("Failed to re-open");

    // Ensure data is correct
    let result = fp.read("large.bin").expect("File not found");
    assert_eq!(result, data);

    // Ensure the stored image is actually smaller than the raw data
    // (including headers)
    assert!(bytes.len() < 1000);
}

#[test]
fn test_append_functionality() {
    // 1. Initial creation
    let bytes1 = {
        let mut fp = Bindle::open(&[]).expect("Fail open 1");
        fp.add("1.txt", b"First", Compress::Zstd).unwrap();
        fp.save().expect("Fail commit 1")
    };

    // 2. Append session
    let mut fp = Bindle::open(&bytes1).expect("Fail open 2");
    // At this point, entries contains "1.txt"

    fp.add("2.txt", b"Second", Compress::Raw).unwrap();
    let _bytes2 = fp.save().expect("Fail commit 2");

    // Now test the read
    let first = fp.read("1.txt").expect("Could not find 1.txt");
    let second = fp.read("2.txt").expect("Could not find 2.txt");

    assert_eq!(first.as_slice(), b"First");
    assert_eq!(second.as_slice(), b"Second");
}

#[test]
fn test_invalid_magic() {
    let res = Bindle::open(b"NOT_A_PACK_FILE_AT_ALL");
    assert!(res.is_err());
}

#[test]
fn test_key_shadowing() {
    let mut b = Bindle::open(&[]).expect("Failed to open");

    // 1. Add initial version
    b.add("config.txt", b"v1", Compress::Raw).unwrap();
    b.save().unwrap();

    // 2. Overwrite with v2 (shadowing)
    b.add("config.txt", b"version_2_is_longer", Compress::Raw).unwrap();
    let bytes = b.save().unwrap();

    // 3. Verify latest version is retrieved
    let b2 = Bindle::open(&bytes).expect("Failed to reopen");
    let result = b2.read("config.txt").unwrap();
    assert_eq!(result.as_slice(), b"version_2_is_longer");

    // 4. Verify index count hasn't grown (still 1 entry)
    assert_eq!(b2.len(), 1);
}

#[test]
fn test_vacuum_reclaims_space() {
    let mut b = Bindle::open(&[]).expect("Failed to open");

    // 1. Add a large file
    let large_data = vec![0u8; 1024];
    b.add("large.bin", &large_data, Compress::Raw).unwrap();
    let size_v1 = b.save().unwrap().len();

    // 2. Shadow it with a tiny file
    b.add("large.bin", b"tiny", Compress::Raw).unwrap();
    let size_v2 = b.save().unwrap().len();

    // Size should have increased because we appended 'tiny'
    assert!(size_v2 > size_v1);

    // 3. Run vacuum
    let compacted = b.vacuum().expect("Vacuum failed");
    let size_v3 = compacted.len();

    // 4. Verify size is now significantly smaller (reclaimed 1024 bytes)
    assert!(size_v3 < size_v2);

    // 5. Verify data integrity after vacuum
    let b2 = Bindle::open(&compacted).unwrap();
    assert_eq!(b2.read("large.bin").unwrap().as_slice(), b"tiny");
    assert_eq!(b.read("large.bin").unwrap().as_slice(), b"tiny");
}

#[test]
fn test_streaming_manual_chunks() {
    let chunk1 = b"Hello ";
    let chunk2 = b"Streaming ";
    let chunk3 = b"World!";
    let expected = b"Hello Streaming World!";

    let mut b = Bindle::open(&[]).expect("Failed to open");
    // Start a stream without compression
    let mut s = b.writer("streamed_file.txt", Compress::Raw).expect("Failed to start stream");

    // Write chunks manually
    s.write_chunk(chunk1);
    s.write_chunk(chunk2);
    s.write_chunk(chunk3);

    s.close(&mut b).expect("Failed to finish stream");
    let bytes = b.save().expect("Failed to save");

    // Verification
    let b = Bindle::open(&bytes).expect("Failed to reopen");
    let result = b.read("streamed_file.txt").expect("Entry not found");
    assert_eq!(result.as_slice(), expected);
    assert_eq!(result.len(), expected.len());
}

#[test]
fn test_empty_payload_roundtrip() {
    let mut b = Bindle::open(&[]).unwrap();
    b.add("empty", b"", Compress::Raw).unwrap();
    let bytes = b.save().unwrap();
    let b2 = Bindle::open(&bytes).unwrap();
    let result = b2.read("empty").expect("empty entry should exist");
    assert_eq!(result.len(), 0);
}

#[test]
fn test_vacuum_after_remove_drops_bytes() {
    let mut b = Bindle::open(&[]).unwrap();
    b.add("keep", b"kept payload", Compress::Raw).unwrap();
    b.add("drop", &vec![7u8; 2048], Compress::Raw).unwrap();
    let full = b.save().unwrap();

    assert!(b.remove("drop"));
    let compacted = b.vacuum().unwrap();
    assert!(compacted.len() < full.len());

    let b2 = Bindle::open(&compacted).unwrap();
    assert_eq!(b2.len(), 1);
    assert_eq!(b2.read("keep").unwrap().as_slice(), b"kept payload");
    assert!(b2.read("drop").is_none());
}

#[test]
fn test_auto_policy_stores_uncompressed() {
    // The Auto policy is resolved when the writer is created, before any
    // payload size is known, so it never compresses through `add`.
    let mut b = Bindle::open(&[]).unwrap();
    let data = vec![b'z'; 5000];
    b.add("auto.bin", &data, Compress::Auto).unwrap();
    let bytes = b.save().unwrap();

    let b2 = Bindle::open(&bytes).unwrap();
    let idx = b2.index();
    assert_eq!(idx.len(), 1);
    let entry = idx.entry_at(0);
    assert_eq!(entry.compression_type(), Compress::Raw);
    assert_eq!(entry.uncompressed_size(), 5000);
    assert_eq!(entry.compressed_size(), 5000);
    assert_eq!(b2.read("auto.bin").unwrap(), data);
}
