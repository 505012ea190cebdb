use bindle_file::codec::{decode_entry, decode_footer, encode_entry, encode_footer};
use bindle_file::{pad, magic_bytes, Bindle, BindleError, Compress, Entry, Footer};

#[test]
fn test_magic_bytes_value() {
    assert_eq!(magic_bytes().as_slice(), b"BINDL001");
}

#[test]
fn test_pad_values() {
    assert_eq!(pad(0), 0);
    assert_eq!(pad(1), 7);
    assert_eq!(pad(7), 1);
    assert_eq!(pad(8), 0);
    assert_eq!(pad(13), 3);
    assert_eq!(pad(16), 0);
}

#[test]
fn test_entry_record_layout() {
    let e = Entry {
        offset: 0x0102_0304_0506_0708,
        compressed_size: 9,
        uncompressed_size: 10,
        crc32: 0xaabb_ccdd,
        name_len: 5,
        compression_type: 1,
        reserved: 0,
    };
    let bytes = encode_entry(&e);
    assert_eq!(bytes.len(), 32);
    // Little-endian, field after field.
    assert_eq!(&bytes[0..8], &[0x08, 0x07, 0x06, 0x05, 0x04, 0x03, 0x02, 0x01]);
    assert_eq!(&bytes[8..16], &[9, 0, 0, 0, 0, 0, 0, 0]);
    assert_eq!(&bytes[16..24], &[10, 0, 0, 0, 0, 0, 0, 0]);
    assert_eq!(&bytes[24..28], &[0xdd, 0xcc, 0xbb, 0xaa]);
    assert_eq!(&bytes[28..30], &[5, 0]);
    assert_eq!(bytes[30], 1);
    assert_eq!(bytes[31], 0);

    let back = decode_entry(&bytes);
    assert_eq!(back, e);
}

#[test]
fn test_footer_record_layout() {
    let f = Footer::new(0x1122, 3, 0x6262_6262);
    let bytes = encode_footer(&f);
    assert_eq!(bytes.len(), 16);
    assert_eq!(&bytes[0..8], &[0x22, 0x11, 0, 0, 0, 0, 0, 0]);
    assert_eq!(&bytes[8..12], &[3, 0, 0, 0]);
    assert_eq!(&bytes[12..16], &[0x62, 0x62, 0x62, 0x62]);

    let back = decode_footer(&bytes);
    assert_eq!(back.index_offset(), 0x1122);
    assert_eq!(back.entry_count(), 3);
    assert_eq!(back.magic(), 0x6262_6262);
}

#[test]
fn test_entry_accessors() {
    let mut e = Entry {
        offset: 0,
        compressed_size: 0,
        uncompressed_size: 0,
        crc32: 0,
        name_len: 0,
        compression_type: 0,
        reserved: 0,
    };
    e.set_offset(11);
    e.set_compressed_size(22);
    e.set_uncompressed_size(33);
    e.set_crc32(44);
    e.set_name_len(55);
    assert_eq!(e.offset(), 11);
    assert_eq!(e.compressed_size(), 22);
    assert_eq!(e.uncompressed_size(), 33);
    assert_eq!(e.crc32(), 44);
    assert_eq!(e.name_len(), 55);
    assert_eq!(e.compression_type(), Compress::Raw);
}

#[test]
fn test_compress_tag_decoding() {
    assert_eq!(Compress::from_u8(0), Compress::Raw);
    assert_eq!(Compress::from_u8(1), Compress::Zstd);
    // Unknown tags fall back to the uncompressed reading; Auto never
    // comes back from a tag byte.
    assert_eq!(Compress::from_u8(2), Compress::Raw);
    assert_eq!(Compress::from_u8(255), Compress::Raw);
    assert_eq!(Compress::default(), Compress::Auto);
}

#[test]
fn test_open_empty_image_is_fresh_archive() {
    let b = Bindle::open(&[]).unwrap();
    assert!(b.is_empty());
    assert_eq!(b.data_end(), 8);
    assert!(!b.is_partial());
}

#[test]
fn test_open_too_small_image() {
    assert_eq!(Bindle::open(b"BINDL001").err(), Some(BindleError::FileTooSmall));
    assert_eq!(Bindle::open(&[1u8]).err(), Some(BindleError::FileTooSmall));
    assert_eq!(Bindle::open(&[0u8; 23]).err(), Some(BindleError::FileTooSmall));
}

#[test]
fn test_open_wrong_magic_is_invalid_header() {
    // Long enough to hold a header and footer, but the magic is wrong.
    let bytes = vec![b'X'; 64];
    assert_eq!(Bindle::open(&bytes).err(), Some(BindleError::InvalidHeader));
}

#[test]
fn test_open_bad_footer_is_invalid() {
    // A valid header followed by bytes that do not end in the footer
    // marker.
    let mut bytes = Vec::new();
    bytes.extend_from_slice(b"BINDL001");
    bytes.extend_from_slice(&[0u8; 32]);
    assert_eq!(Bindle::open(&bytes).err(), Some(BindleError::InvalidFooter));

    // A correct marker whose table offset points outside the image.
    let mut b = Bindle::open(&[]).unwrap();
    b.add("e", b"x", Compress::Raw).unwrap();
    let mut saved = b.save().unwrap();
    let n = saved.len();
    // Overwrite the footer's index offset with a huge value.
    for i in 0..8 {
        saved[n - 16 + i] = 0xff;
    }
    assert_eq!(Bindle::open(&saved).err(), Some(BindleError::InvalidFooter));
}

#[test]
fn test_index_walk() {
    let mut b = Bindle::open(&[]).unwrap();
    b.add("alpha", b"1", Compress::Raw).unwrap();
    b.add("beta", b"22", Compress::Raw).unwrap();
    let idx = b.index();
    assert_eq!(idx.len(), 2);
    assert_eq!(idx.name_at(0).as_slice(), b"alpha");
    assert_eq!(idx.name_at(1).as_slice(), b"beta");
    assert_eq!(idx.entry_at(0).uncompressed_size(), 1);
    assert_eq!(idx.entry_at(1).uncompressed_size(), 2);
    assert_eq!(idx.entry_at(1).name_len(), 4);
    assert!(idx.get(b"alpha").is_some());
    assert!(idx.get(b"gamma").is_none());
    assert!(idx.contains_key(b"beta"));
}
