//! The fixed-size records of the on-disk format: entry metadata, the footer,
//! and the compression tag.

use vstd::prelude::*;

verus! {

/// Compression policy for stored payloads.
#[derive(Clone, Copy, Debug, PartialEq, Eq, Structural)]
pub enum Compress {
    /// Store bytes as they are.
    Raw,
    /// Compress with zstd.
    Zstd,
    /// Compress only payloads over a size threshold.  This is a write-time
    /// policy hint; it is never stored on disk.
    Auto,
}

/// Meaning of an on-disk compression tag byte.  Unknown values decode to
/// `Raw`, the safest reading; `Auto` is never produced.
pub open spec fn spec_compress_from_u8(value: u8) -> Compress {
    if value == 1 {
        Compress::Zstd
    } else {
        Compress::Raw
    }
}

impl Compress {
    /// Decodes an on-disk tag byte.
    pub fn from_u8(value: u8) -> (r: Compress)
        ensures
            r == spec_compress_from_u8(value),
    {
        match value {
            1 => Compress::Zstd,
            _ => Compress::Raw,
        }
    }
}

impl Default for Compress {
    /// The default policy compresses large payloads only.
    fn default() -> (r: Compress)
        ensures
            r == Compress::Auto,
    {
        Compress::Auto
    }
}

/// Fixed-size metadata record describing one stored payload: where it lies,
/// how large it is on disk and decoded, its checksum, the length of its
/// name, and how it is compressed.
#[derive(Clone, Copy, Debug, PartialEq, Eq, Structural)]
pub struct Entry {
    /// Byte position of the payload within the archive image.
    pub offset: u64,
    /// Bytes stored on disk for the payload.
    pub compressed_size: u64,
    /// Logical payload size after decompression.
    pub uncompressed_size: u64,
    /// Checksum of the decompressed payload.
    pub crc32: u32,
    /// Byte length of the entry's name.
    pub name_len: u16,
    /// On-disk compression tag.
    pub compression_type: u8,
    /// Unused; kept to fill the record to its fixed size.
    pub reserved: u8,
}

impl Entry {
    /// Byte position of the payload within the archive image.
    pub fn offset(&self) -> (r: u64)
        ensures
            r == self.offset,
    {
        self.offset
    }

    /// Replaces the payload position.
    pub fn set_offset(&mut self, value: u64)
        ensures
            *final(self) == (Entry { offset: value, ..*old(self) }),
    {
        self.offset = value;
    }

    /// Bytes stored on disk for the payload.
    pub fn compressed_size(&self) -> (r: u64)
        ensures
            r == self.compressed_size,
    {
        self.compressed_size
    }

    /// Replaces the stored payload size.
    pub fn set_compressed_size(&mut self, value: u64)
        ensures
            *final(self) == (Entry { compressed_size: value, ..*old(self) }),
    {
        self.compressed_size = value;
    }

    /// Logical payload size after decompression.
    pub fn uncompressed_size(&self) -> (r: u64)
        ensures
            r == self.uncompressed_size,
    {
        self.uncompressed_size
    }

    /// Replaces the logical payload size.
    pub fn set_uncompressed_size(&mut self, value: u64)
        ensures
            *final(self) == (Entry { uncompressed_size: value, ..*old(self) }),
    {
        self.uncompressed_size = value;
    }

    /// Checksum of the decompressed payload.
    pub fn crc32(&self) -> (r: u32)
        ensures
            r == self.crc32,
    {
        self.crc32
    }

    /// Replaces the stored checksum.
    pub fn set_crc32(&mut self, value: u32)
        ensures
            *final(self) == (Entry { crc32: value, ..*old(self) }),
    {
        self.crc32 = value;
    }

    /// Byte length of the entry's name.
    pub fn name_len(&self) -> (r: usize)
        ensures
            r == self.name_len as usize,
    {
        self.name_len as usize
    }

    /// Replaces the recorded name length.
    pub fn set_name_len(&mut self, value: u16)
        ensures
            *final(self) == (Entry { name_len: value, ..*old(self) }),
    {
        self.name_len = value;
    }

    /// How the payload is compressed; unknown tags read as `Raw`.
    pub fn compression_type(&self) -> (r: Compress)
        ensures
            r == spec_compress_from_u8(self.compression_type),
    {
        Compress::from_u8(self.compression_type)
    }
}

/// The trailing record of every valid archive: where the entries table
/// starts, how many entries it holds, and a fixed marker.
#[derive(Clone, Copy, Debug, PartialEq, Eq, Structural)]
pub struct Footer {
    /// Byte position at which the entries table starts.
    pub index_offset: u64,
    /// Number of entry records in the table.
    pub entry_count: u32,
    /// Fixed marker value.
    pub magic: u32,
}

impl Footer {
    /// Builds a footer record.
    pub fn new(index_offset: u64, entry_count: u32, magic: u32) -> (r: Footer)
        ensures
            r == (Footer { index_offset, entry_count, magic }),
    {
        Footer { index_offset, entry_count, magic }
    }

    /// Byte position at which the entries table starts.
    pub fn index_offset(&self) -> (r: u64)
        ensures
            r == self.index_offset,
    {
        self.index_offset
    }

    /// Number of entry records in the table.
    pub fn entry_count(&self) -> (r: u32)
        ensures
            r == self.entry_count,
    {
        self.entry_count
    }

    /// The footer's marker value.
    pub fn magic(&self) -> (r: u32)
        ensures
            r == self.magic,
    {
        self.magic
    }
}

} // verus!
