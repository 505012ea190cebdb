//! An append-only binary archive of named byte blobs.
//!
//! An archive is a single byte image: an eight-byte magic header, a data
//! region of payloads (each padded to an eight-byte boundary), an entries
//! table, and a trailing footer that locates the table.  Entries are looked
//! up through an in-memory index that is rebuilt from the footer and entries
//! table whenever an image is opened.  New payloads are appended; writing a
//! name that already exists shadows the old entry, whose bytes stay in the
//! file until `vacuum` rebuilds the image around the live entries.
//!
//! The library works on in-memory images only.  Callers read the archive
//! file into bytes, open them here, and write the bytes returned by `save`
//! or `vacuum` back out.

use vstd::prelude::*;

pub mod archive;
pub mod checksum;
pub mod codec;
pub mod compression;
pub mod entry;
pub mod error;
pub mod index;
pub mod reader;
pub mod writer;

pub use archive::Bindle;
pub use entry::{Compress, Entry, Footer};
pub use error::BindleError;
pub use index::IndexMap;
pub use reader::{Reader, SeekFrom};
pub use writer::Writer;

verus! {

/// Number of bytes in the fixed file header (the magic string).
pub const HEADER_SIZE: usize = 8;

/// Number of bytes in an encoded entry record.
pub const ENTRY_SIZE: usize = 32;

/// Number of bytes in an encoded footer record.
pub const FOOTER_SIZE: usize = 16;

/// Payloads and index records are padded out to multiples of this alignment.
pub const BNDL_ALIGN: u64 = 8;

/// `Compress::Auto` compresses payloads larger than this many bytes.
pub const AUTO_COMPRESS_THRESHOLD: usize = 2048;

/// Marker value stored in the footer of every valid archive.
pub const FOOTER_MAGIC: u32 = 0x6262_6262;

/// The eight magic bytes that begin every archive image: the ASCII string
/// `BINDL001`.
pub open spec fn spec_magic() -> Seq<u8> {
    seq![0x42u8, 0x49u8, 0x4eu8, 0x44u8, 0x4cu8, 0x30u8, 0x30u8, 0x31u8]
}

/// Builds the magic header bytes.
pub fn magic_bytes() -> (r: Vec<u8>)
    ensures
        r@ == spec_magic(),
{
    let mut v: Vec<u8> = Vec::new();
    v.push(0x42);
    v.push(0x49);
    v.push(0x4e);
    v.push(0x44);
    v.push(0x4c);
    v.push(0x30);
    v.push(0x30);
    v.push(0x31);
    proof {
        assert(v@ =~= spec_magic());
    }
    v
}

/// Bytes of zero padding needed after a region ending at position `n` to
/// reach the next eight-byte boundary.
pub open spec fn spec_pad(n: int) -> int {
    (8 - n % 8) % 8
}

/// Position `n` rounded up to the next eight-byte boundary.
pub open spec fn spec_round8(n: int) -> int {
    n + spec_pad(n)
}

/// Computes the padding to the next eight-byte boundary.
pub fn pad(n: u64) -> (r: u64)
    ensures
        r == spec_pad(n as int),
        r < 8,
        spec_round8(n as int) == n + r,
        (n + r) % 8 == 0,
{
    let r = (8u64 - (n % 8u64)) % 8u64;
    proof {
        assert((n + (8 - n % 8) % 8) % 8 == 0) by (nonlinear_arith);
    }
    r
}

} // verus!
