//! Streaming access to one archive entry.
//!
//! A reader resolves a name to its payload bytes when it is created,
//! decompressing a compressed entry up front.  Bytes are then delivered in
//! chunks from a cursor; every byte delivered is also gathered for the
//! final checksum comparison.  Seeking repositions the cursor and is
//! supported only for uncompressed entries.

use vstd::prelude::*;

use vstd::string::StringSliceAdditionalSpecFns;

use crate::archive::{ArchiveView, Bindle, spec_read};
use crate::checksum::{crc32_hash, crc32_of};
use crate::codec::{copy_range, extend_bytes};
use crate::compression::{zstd_decompress, zstd_decompress_of};
use crate::error::BindleError;

verus! {

/// Where a seek starts from.
#[derive(Clone, Copy, Debug, PartialEq, Eq, Structural)]
pub enum SeekFrom {
    /// An absolute position from the start of the stream.
    Start(u64),
    /// A signed offset from the end of the stream.
    End(i64),
    /// A signed offset from the current position.
    Current(i64),
}

/// What creating a reader for a name yields: the payload bytes it will
/// stream (decompressed if the entry is compressed), whether the entry was
/// compressed, and the checksum the bytes should have.
pub open spec fn spec_reader(v: ArchiveView, name: Seq<u8>) -> Result<
    (Seq<u8>, bool, u32),
    BindleError,
> {
    if !v.entries().contains_key(name) {
        Err(BindleError::EntryNotFound)
    } else {
        let e = v.entries()[name];
        if e.offset + e.compressed_size > v.image.len() {
            Err(BindleError::OutOfBounds)
        } else {
            let raw = v.image.subrange(e.offset as int, e.offset + e.compressed_size);
            if e.compression_type == 1 {
                match zstd_decompress_of(raw) {
                    Option::Some(d) => Ok((d, true, e.crc32)),
                    Option::None => Err(BindleError::DecompressionFailed),
                }
            } else {
                Ok((raw, false, e.crc32))
            }
        }
    }
}

/// Where a seek lands: the base position plus the offset, refused when it
/// would fall before the start or past the largest representable position.
pub open spec fn spec_seek_pos(base: int, delta: int) -> Result<int, BindleError> {
    if 0 <= base + delta <= u64::MAX {
        Ok(base + delta)
    } else {
        Err(BindleError::SeekInvalid)
    }
}

/// A streaming reader over one entry's payload.
pub struct Reader {
    /// The payload bytes, decompressed if the entry was compressed.
    pub data: Vec<u8>,
    /// The cursor: where the next chunk is read from.
    pub pos: u64,
    /// Every byte delivered so far, in order, for checksum verification.
    pub fed: Vec<u8>,
    /// The checksum the delivered bytes should have.
    pub expected_crc32: u32,
    /// Whether the entry was stored compressed.
    pub compressed: bool,
}

/// Adds a signed offset to a stream position.
fn apply_delta(base: u64, delta: i64) -> (r: Result<u64, BindleError>)
    ensures
        r matches Ok(p) ==> spec_seek_pos(base as int, delta as int) == Ok::<int, BindleError>(
            p as int,
        ),
        r matches Err(e) ==> spec_seek_pos(base as int, delta as int) == Err::<int, BindleError>(e),
{
    if delta >= 0 {
        let du = delta as u64;
        if base > u64::MAX - du {
            Err(BindleError::SeekInvalid)
        } else {
            Ok(base + du)
        }
    } else {
        let mag: u64 = if delta == i64::MIN {
            9223372036854775808u64
        } else {
            (-delta) as u64
        };
        if mag > base {
            Err(BindleError::SeekInvalid)
        } else {
            Ok(base - mag)
        }
    }
}

impl Reader {
    /// Delivers up to `n` bytes from the cursor, advancing it.  A cursor at
    /// or past the end delivers nothing.  Every byte delivered is gathered
    /// for `verify_crc32`.
    pub fn read_chunk(&mut self, n: usize) -> (r: Vec<u8>)
        ensures
            final(self).data@ == old(self).data@,
            final(self).compressed == old(self).compressed,
            final(self).expected_crc32 == old(self).expected_crc32,
            old(self).pos >= old(self).data@.len() ==> r@ == Seq::<u8>::empty() && final(self).pos
                == old(self).pos && final(self).fed@ == old(self).fed@,
            old(self).pos < old(self).data@.len() ==> {
                let k = if n <= old(self).data@.len() - old(self).pos {
                    n as int
                } else {
                    old(self).data@.len() - old(self).pos
                };
                &&& r@ == old(self).data@.subrange(old(self).pos as int, old(self).pos + k)
                &&& final(self).pos == old(self).pos + k
                &&& final(self).fed@ == old(self).fed@ + r@
            },
    {
        let len = self.data.len();
        if self.pos >= len as u64 {
            let r: Vec<u8> = Vec::new();
            proof {
                assert(r@ =~= Seq::<u8>::empty());
            }
            return r;
        }
        let start = self.pos as usize;
        let available = len - start;
        let k = if n < available {
            n
        } else {
            available
        };
        let out = copy_range(self.data.as_slice(), start, start + k);
        extend_bytes(&mut self.fed, out.as_slice());
        self.pos = (start + k) as u64;
        out
    }

    /// Moves the cursor.  Supported only for uncompressed entries; a
    /// compressed stream reports `SeekUnsupported` and does not move.
    /// Yields the new position.
    pub fn seek(&mut self, from: SeekFrom) -> (r: Result<u64, BindleError>)
        ensures
            final(self).data@ == old(self).data@,
            final(self).compressed == old(self).compressed,
            final(self).expected_crc32 == old(self).expected_crc32,
            final(self).fed@ == old(self).fed@,
            old(self).compressed ==> (r matches Err(e) && e == BindleError::SeekUnsupported)
                && final(self).pos == old(self).pos,
            !old(self).compressed ==> (from matches SeekFrom::Start(o) ==> r matches Ok(p) && p
                == o && final(self).pos == o),
            !old(self).compressed ==> (from matches SeekFrom::End(d) ==> (match spec_seek_pos(
                old(self).data@.len() as int,
                d as int,
            ) {
                Ok(p) => (r matches Ok(q) && q == p) && final(self).pos == p,
                Err(e) => (r matches Err(e2) && e2 == e) && final(self).pos == old(self).pos,
            })),
            !old(self).compressed ==> (from matches SeekFrom::Current(d) ==> (match spec_seek_pos(
                old(self).pos as int,
                d as int,
            ) {
                Ok(p) => (r matches Ok(q) && q == p) && final(self).pos == p,
                Err(e) => (r matches Err(e2) && e2 == e) && final(self).pos == old(self).pos,
            })),
    {
        if self.compressed {
            return Err(BindleError::SeekUnsupported);
        }
        match from {
            SeekFrom::Start(o) => {
                self.pos = o;
                Ok(o)
            },
            SeekFrom::End(d) => {
                match apply_delta(self.data.len() as u64, d) {
                    Ok(p) => {
                        self.pos = p;
                        Ok(p)
                    },
                    Err(e) => Err(e),
                }
            },
            SeekFrom::Current(d) => {
                match apply_delta(self.pos, d) {
                    Ok(p) => {
                        self.pos = p;
                        Ok(p)
                    },
                    Err(e) => Err(e),
                }
            },
        }
    }

    /// Compares the checksum of every byte delivered so far against the
    /// entry's stored checksum.  Call after consuming the stream; a
    /// mismatch means the stored payload is corrupt.
    pub fn verify_crc32(&self) -> (r: Result<(), BindleError>)
        ensures
            r is Ok <==> crc32_of(self.fed@) == self.expected_crc32,
            r matches Err(e) ==> e == BindleError::ChecksumMismatch,
    {
        let crc = crc32_hash(self.fed.as_slice());
        if crc == self.expected_crc32 {
            Ok(())
        } else {
            Err(BindleError::ChecksumMismatch)
        }
    }
}

impl Bindle {
    /// Starts a streaming reader over an entry's payload, decompressing a
    /// compressed entry up front.  Refused when the name is absent, the
    /// payload range leaves the data region, or decompression fails.
    pub fn reader(&self, name: &str) -> (r: Result<Reader, BindleError>)
        requires
            self.wf(),
        ensures
            r matches Ok(rd) ==> spec_reader(self@, name.spec_bytes()) == Ok::<
                (Seq<u8>, bool, u32),
                BindleError,
            >((rd.data@, rd.compressed, rd.expected_crc32)) && rd.pos == 0 && rd.fed@ == Seq::<
                u8,
            >::empty(),
            r matches Err(e) ==> spec_reader(self@, name.spec_bytes()) == Err::<
                (Seq<u8>, bool, u32),
                BindleError,
            >(e),
    {
        let key = name.as_bytes();
        let e = match self.index.get(key) {
            Some(e) => *e,
            None => {
                return Err(BindleError::EntryNotFound);
            },
        };
        let img_len = self.image.len() as u64;
        if e.compressed_size > img_len || e.offset > img_len - e.compressed_size {
            return Err(BindleError::OutOfBounds);
        }
        let start = e.offset as usize;
        let end = (e.offset + e.compressed_size) as usize;
        let data: Vec<u8> = if e.compression_type == 1 {
            let raw = vstd::slice::slice_subrange(self.image.as_slice(), start, end);
            match zstd_decompress(raw) {
                Some(d) => d,
                None => {
                    return Err(BindleError::DecompressionFailed);
                },
            }
        } else {
            copy_range(self.image.as_slice(), start, end)
        };
        Ok(
            Reader {
                data,
                pos: 0,
                fed: Vec::new(),
                expected_crc32: e.crc32,
                compressed: e.compression_type == 1,
            },
        )
    }
}

/// The whole-read and streaming paths agree: when `read` yields a payload
/// for an entry whose stored sizes are consistent, a reader for the same
/// name streams exactly those bytes, and their checksum matches the stored
/// checksum.
pub proof fn lemma_read_paths_agree(v: ArchiveView, name: Seq<u8>)
    requires
        v.wf(),
        spec_read(v, name) is Some,
        v.entries()[name].compression_type == 1 || v.entries()[name].uncompressed_size
            == v.entries()[name].compressed_size,
    ensures
        spec_reader(v, name) matches Ok(t) && t.0 == spec_read(v, name).unwrap() && t.2
            == v.entries()[name].crc32 && crc32_of(t.0) == t.2,
{
    let e = v.entries()[name];
    if e.compression_type != 1 {
        assert(v.image.subrange(e.offset as int, e.offset + e.compressed_size) == v.image.subrange(
            e.offset as int,
            e.offset + e.uncompressed_size,
        ));
    }
}

} // verus!
