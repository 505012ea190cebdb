use bindle_file::{Bindle, BindleError, Compress, SeekFrom};

#[test]
fn test_compressed_streaming_roundtrip() {
    // A highly compressible payload read back through both paths.
    let data: Vec<u8> = b"abcdefgh".iter().cycle().take(4096).cloned().collect();
    let mut b = Bindle::open(&[]).unwrap();
    b.add("big.txt", &data, Compress::Zstd).unwrap();
    let bytes = b.save().unwrap();
    assert!(bytes.len() < data.len());

    let b2 = Bindle::open(&bytes).unwrap();

    // Whole-read path.
    assert_eq!(b2.read("big.txt").unwrap(), data);

    // Streaming path, in small chunks, then checksum verification.
    let mut r = b2.reader("big.txt").unwrap();
    let mut collected: Vec<u8> = Vec::new();
    loop {
        let chunk = r.read_chunk(100);
        if chunk.is_empty() {
            break;
        }
        collected.extend_from_slice(&chunk);
    }
    assert_eq!(collected, data);
    assert!(r.verify_crc32().is_ok());
}

#[test]
fn test_streaming_uncompressed_with_verify() {
    let mut b = Bindle::open(&[]).unwrap();
    b.add("plain", b"0123456789", Compress::Raw).unwrap();
    let mut r = b.reader("plain").unwrap();
    let all = r.read_chunk(64);
    assert_eq!(all.as_slice(), b"0123456789");
    assert!(r.verify_crc32().is_ok());
    // Reading past the end yields nothing more.
    assert!(r.read_chunk(1).is_empty());
}

#[test]
fn test_seek_uncompressed() {
    let mut b = Bindle::open(&[]).unwrap();
    b.add("seekable", b"0123456789", Compress::Raw).unwrap();
    let mut r = b.reader("seekable").unwrap();

    assert_eq!(r.seek(SeekFrom::Start(4)), Ok(4));
    assert_eq!(r.read_chunk(3).as_slice(), b"456");

    assert_eq!(r.seek(SeekFrom::Current(-5)), Ok(2));
    assert_eq!(r.read_chunk(2).as_slice(), b"23");

    assert_eq!(r.seek(SeekFrom::End(-3)), Ok(7));
    assert_eq!(r.read_chunk(10).as_slice(), b"789");

    // Seeking past the end is allowed; reads there yield nothing.
    assert_eq!(r.seek(SeekFrom::End(1)), Ok(11));
    assert!(r.read_chunk(5).is_empty());

    // Seeking before the start is refused.
    assert_eq!(r.seek(SeekFrom::Start(0)), Ok(0));
    assert_eq!(r.seek(SeekFrom::Current(-1)), Err(BindleError::SeekInvalid));
}

#[test]
fn test_seek_compressed_unsupported() {
    let mut b = Bindle::open(&[]).unwrap();
    b.add("packed", &vec![b'x'; 3000], Compress::Zstd).unwrap();
    let mut r = b.reader("packed").unwrap();
    assert_eq!(r.seek(SeekFrom::Start(0)), Err(BindleError::SeekUnsupported));
    assert_eq!(r.seek(SeekFrom::End(-1)), Err(BindleError::SeekUnsupported));
    // The stream still reads fine.
    let first = r.read_chunk(10);
    assert_eq!(first.len(), 10);
    assert!(first.iter().all(|&c| c == b'x'));
}

#[test]
fn test_reader_missing_entry() {
    let b = Bindle::open(&[]).unwrap();
    assert_eq!(b.reader("nowhere").err(), Some(BindleError::EntryNotFound));
    assert!(b.read("nowhere").is_none());
}

#[test]
fn test_writer_shadowing_through_streams() {
    let mut b = Bindle::open(&[]).unwrap();

    let mut w = b.writer("doc", Compress::Raw).unwrap();
    w.write_chunk(b"old contents");
    w.close(&mut b).unwrap();

    let mut w = b.writer("doc", Compress::Raw).unwrap();
    w.write_chunk(b"new");
    w.write_chunk(b" contents");
    w.close(&mut b).unwrap();

    assert_eq!(b.len(), 1);
    assert_eq!(b.read("doc").unwrap().as_slice(), b"new contents");

    let bytes = b.save().unwrap();
    let b2 = Bindle::open(&bytes).unwrap();
    assert_eq!(b2.len(), 1);
    assert_eq!(b2.read("doc").unwrap().as_slice(), b"new contents");
}
