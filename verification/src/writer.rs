//! Streaming creation of one archive entry.
//!
//! A writer is bound to one entry name and one resolved compression choice.
//! Chunks are gathered in order; closing the writer compresses the payload
//! if requested, appends it to the archive's data region with alignment
//! padding, and commits the entry to the index, shadowing any previous
//! entry of the same name.  Closing consumes the writer, so nothing can be
//! written after it.

use vstd::prelude::*;

use crate::archive::{spec_after_add, spec_read, Bindle};
use crate::checksum::crc32_hash;
use crate::codec::{extend_bytes, push_zeros};
use crate::compression::zstd_compress;
use crate::entry::Entry;
use crate::error::BindleError;
use crate::pad;

verus! {

/// A streaming writer for one entry.
pub struct Writer {
    /// The name the entry will be committed under, as raw bytes.
    pub name: Vec<u8>,
    /// Whether the payload will be compressed on close.
    pub compress: bool,
    /// The chunks written so far.
    pub buf: Vec<u8>,
}

impl Writer {
    /// A well-formed writer: the name fits the on-disk length field.
    pub open spec fn wf(&self) -> bool {
        self.name@.len() <= u16::MAX
    }

    /// Appends a chunk to the pending payload.
    pub fn write_chunk(&mut self, data: &[u8])
        ensures
            final(self).name@ == old(self).name@,
            final(self).compress == old(self).compress,
            final(self).buf@ == old(self).buf@ + data@,
            final(self).wf() == old(self).wf(),
    {
        extend_bytes(&mut self.buf, data);
    }

    /// Closes the writer: compresses the payload if requested, appends it
    /// to the archive's data region with padding, and commits the entry to
    /// the index under the writer's name, shadowing any previous entry.
    ///
    /// Fails only when compression was requested and the encoder refused;
    /// the archive is then unchanged.
    pub fn close(self, b: &mut Bindle) -> (r: Result<(), BindleError>)
        requires
            old(b).wf(),
            self.wf(),
        ensures
            final(b).wf(),
            r matches Ok(()) ==> final(b)@ == spec_after_add(
                old(b)@,
                self.name@,
                self.buf@,
                self.compress,
            ) && spec_read(final(b)@, self.name@) == Some(self.buf@),
            r matches Err(e) ==> e == BindleError::CompressionFailed && self.compress && *final(b)
                == *old(b),
            !self.compress ==> r is Ok,
    {
        let Writer { name, compress, buf } = self;
        let payload: Vec<u8> = if compress {
            match zstd_compress(buf.as_slice()) {
                Some(v) => v,
                None => {
                    return Err(BindleError::CompressionFailed);
                },
            }
        } else {
            let mut copy: Vec<u8> = Vec::new();
            extend_bytes(&mut copy, buf.as_slice());
            proof {
                assert(copy@ =~= buf@);
            }
            copy
        };
        let crc = crc32_hash(buf.as_slice());
        let offset = b.image.len() as u64;
        let entry = Entry {
            offset,
            compressed_size: payload.len() as u64,
            uncompressed_size: buf.len() as u64,
            crc32: crc,
            name_len: name.len() as u16,
            compression_type: if compress {
                1
            } else {
                0
            },
            reserved: 0,
        };
        let ghost old_view = b@;
        let ghost name_seq = name@;
        let ghost data_seq = buf@;
        let ghost payload_seq = payload@;
        extend_bytes(&mut b.image, payload.as_slice());
        let padding = pad(b.image.len() as u64) as usize;
        push_zeros(&mut b.image, padding);
        proof {
            crate::index::lemma_map_of_contains(b.index@, name_seq);
        }
        b.index.insert(name, entry);
        proof {
            vstd::std_specs::vec::axiom_spec_len(&b.image);
            assert(b@.image.len() <= usize::MAX);
            let v2 = spec_after_add(old_view, name_seq, data_seq, compress);
            assert(b@.image =~= v2.image);
            assert(b@.pairs =~= v2.pairs);
            assert(b@ == v2);
            // The archive stays well formed: the header is untouched.
            assert(b@.image.subrange(0, crate::HEADER_SIZE as int) =~= old_view.image.subrange(
                0,
                crate::HEADER_SIZE as int,
            ));
            // The committed entry reads back as the payload written.
            crate::index::lemma_map_of_contains(b@.pairs, name_seq);
            assert(b@.entries() == old_view.entries().insert(name_seq, entry)) by {
                crate::archive::lemma_pairs_insert_map(old_view.pairs, name_seq, entry);
            }
            assert(b@.entries()[name_seq] == entry);
            assert(b@.image.subrange(
                entry.offset as int,
                entry.offset + entry.compressed_size,
            ) =~= payload_seq);
            if !compress {
                assert(b@.image.subrange(
                    entry.offset as int,
                    entry.offset + entry.uncompressed_size,
                ) =~= data_seq);
            }
            assert(spec_read(b@, name_seq) == Some(data_seq));
        }
        Ok(())
    }
}

} // verus!
