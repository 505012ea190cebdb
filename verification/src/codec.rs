//! Fixed-layout, little-endian encoding of entry and footer records, and
//! small byte-building helpers.
//!
//! Records are laid out field after field with no padding between fields;
//! every multi-byte integer is stored little-endian regardless of the host.

use vstd::prelude::*;

use vstd::bytes::{
    lemma_auto_spec_u16_to_from_le_bytes, lemma_auto_spec_u32_to_from_le_bytes,
    lemma_auto_spec_u64_to_from_le_bytes, spec_u16_from_le_bytes, spec_u16_to_le_bytes,
    spec_u32_from_le_bytes, spec_u32_to_le_bytes, spec_u64_from_le_bytes, spec_u64_to_le_bytes,
    u16_from_le_bytes, u16_to_le_bytes, u32_from_le_bytes, u32_to_le_bytes, u64_from_le_bytes,
    u64_to_le_bytes,
};
use vstd::slice::{slice_subrange, slice_to_vec};

use crate::entry::{Entry, Footer};
use crate::{ENTRY_SIZE, FOOTER_SIZE};

verus! {

/// A run of `n` zero bytes.
pub open spec fn spec_zeros(n: int) -> Seq<u8> {
    Seq::new(n as nat, |i: int| 0u8)
}

/// The 32-byte encoding of an entry record.
pub open spec fn spec_encode_entry(e: Entry) -> Seq<u8> {
    spec_u64_to_le_bytes(e.offset) + spec_u64_to_le_bytes(e.compressed_size)
        + spec_u64_to_le_bytes(e.uncompressed_size) + spec_u32_to_le_bytes(e.crc32)
        + spec_u16_to_le_bytes(e.name_len) + seq![e.compression_type, e.reserved]
}

/// The entry record read back from 32 bytes.
pub open spec fn spec_decode_entry(s: Seq<u8>) -> Entry {
    Entry {
        offset: spec_u64_from_le_bytes(s.subrange(0, 8)),
        compressed_size: spec_u64_from_le_bytes(s.subrange(8, 16)),
        uncompressed_size: spec_u64_from_le_bytes(s.subrange(16, 24)),
        crc32: spec_u32_from_le_bytes(s.subrange(24, 28)),
        name_len: spec_u16_from_le_bytes(s.subrange(28, 30)),
        compression_type: s[30],
        reserved: s[31],
    }
}

/// The 16-byte encoding of a footer record.
pub open spec fn spec_encode_footer(f: Footer) -> Seq<u8> {
    spec_u64_to_le_bytes(f.index_offset) + spec_u32_to_le_bytes(f.entry_count)
        + spec_u32_to_le_bytes(f.magic)
}

/// The footer record read back from 16 bytes.
pub open spec fn spec_decode_footer(s: Seq<u8>) -> Footer {
    Footer {
        index_offset: spec_u64_from_le_bytes(s.subrange(0, 8)),
        entry_count: spec_u32_from_le_bytes(s.subrange(8, 12)),
        magic: spec_u32_from_le_bytes(s.subrange(12, 16)),
    }
}

/// An encoded entry is exactly `ENTRY_SIZE` bytes and decodes to the record
/// it was made from.
pub proof fn lemma_entry_roundtrip(e: Entry)
    ensures
        spec_encode_entry(e).len() == ENTRY_SIZE,
        spec_decode_entry(spec_encode_entry(e)) == e,
{
    lemma_auto_spec_u64_to_from_le_bytes();
    lemma_auto_spec_u32_to_from_le_bytes();
    lemma_auto_spec_u16_to_from_le_bytes();
    let s = spec_encode_entry(e);
    assert(s.subrange(0, 8) =~= spec_u64_to_le_bytes(e.offset));
    assert(s.subrange(8, 16) =~= spec_u64_to_le_bytes(e.compressed_size));
    assert(s.subrange(16, 24) =~= spec_u64_to_le_bytes(e.uncompressed_size));
    assert(s.subrange(24, 28) =~= spec_u32_to_le_bytes(e.crc32));
    assert(s.subrange(28, 30) =~= spec_u16_to_le_bytes(e.name_len));
    assert(s[30] == e.compression_type);
    assert(s[31] == e.reserved);
}

/// An encoded footer is exactly `FOOTER_SIZE` bytes and decodes to the
/// record it was made from.
pub proof fn lemma_footer_roundtrip(f: Footer)
    ensures
        spec_encode_footer(f).len() == FOOTER_SIZE,
        spec_decode_footer(spec_encode_footer(f)) == f,
{
    lemma_auto_spec_u64_to_from_le_bytes();
    lemma_auto_spec_u32_to_from_le_bytes();
    let s = spec_encode_footer(f);
    assert(s.subrange(0, 8) =~= spec_u64_to_le_bytes(f.index_offset));
    assert(s.subrange(8, 12) =~= spec_u32_to_le_bytes(f.entry_count));
    assert(s.subrange(12, 16) =~= spec_u32_to_le_bytes(f.magic));
}

/// Appends a slice's bytes to a vector.
pub fn extend_bytes(v: &mut Vec<u8>, s: &[u8])
    ensures
        final(v)@ == old(v)@ + s@,
{
    let ghost orig = v@;
    let mut i: usize = 0;
    while i < s.len()
        invariant
            i <= s@.len(),
            v@ == orig + s@.subrange(0, i as int),
        decreases s@.len() - i,
    {
        let b = s[i];
        v.push(b);
        proof {
            assert(orig + s@.subrange(0, i as int) + seq![s@[i as int]] =~= orig + s@.subrange(
                0,
                i + 1,
            ));
        }
        i = i + 1;
    }
    proof {
        assert(s@.subrange(0, s@.len() as int) =~= s@);
    }
}

/// Appends `n` zero bytes to a vector.
pub fn push_zeros(v: &mut Vec<u8>, n: usize)
    ensures
        final(v)@ == old(v)@ + spec_zeros(n as int),
{
    let ghost orig = v@;
    let mut i: usize = 0;
    while i < n
        invariant
            i <= n,
            v@ == orig + spec_zeros(i as int),
        decreases n - i,
    {
        v.push(0u8);
        proof {
            assert(orig + spec_zeros(i as int) + seq![0u8] =~= orig + spec_zeros(i + 1));
        }
        i = i + 1;
    }
}

/// Serializes an entry record.
pub fn encode_entry(e: &Entry) -> (r: Vec<u8>)
    ensures
        r@ == spec_encode_entry(*e),
        r@.len() == ENTRY_SIZE,
{
    let mut out = u64_to_le_bytes(e.offset);
    let mut part = u64_to_le_bytes(e.compressed_size);
    out.append(&mut part);
    let mut part = u64_to_le_bytes(e.uncompressed_size);
    out.append(&mut part);
    let mut part = u32_to_le_bytes(e.crc32);
    out.append(&mut part);
    let mut part = u16_to_le_bytes(e.name_len);
    out.append(&mut part);
    out.push(e.compression_type);
    out.push(e.reserved);
    proof {
        lemma_entry_roundtrip(*e);
        assert(out@ =~= spec_encode_entry(*e));
    }
    out
}

/// Reads an entry record back from exactly `ENTRY_SIZE` bytes.
pub fn decode_entry(b: &[u8]) -> (r: Entry)
    requires
        b@.len() == ENTRY_SIZE,
    ensures
        r == spec_decode_entry(b@),
{
    let offset = u64_from_le_bytes(slice_subrange(b, 0, 8));
    let compressed_size = u64_from_le_bytes(slice_subrange(b, 8, 16));
    let uncompressed_size = u64_from_le_bytes(slice_subrange(b, 16, 24));
    let crc32 = u32_from_le_bytes(slice_subrange(b, 24, 28));
    let name_len = u16_from_le_bytes(slice_subrange(b, 28, 30));
    let compression_type = b[30];
    let reserved = b[31];
    Entry { offset, compressed_size, uncompressed_size, crc32, name_len, compression_type, reserved }
}

/// Serializes a footer record.
pub fn encode_footer(f: &Footer) -> (r: Vec<u8>)
    ensures
        r@ == spec_encode_footer(*f),
        r@.len() == FOOTER_SIZE,
{
    let mut out = u64_to_le_bytes(f.index_offset);
    let mut part = u32_to_le_bytes(f.entry_count);
    out.append(&mut part);
    let mut part = u32_to_le_bytes(f.magic);
    out.append(&mut part);
    proof {
        lemma_footer_roundtrip(*f);
        assert(out@ =~= spec_encode_footer(*f));
    }
    out
}

/// Reads a footer record back from exactly `FOOTER_SIZE` bytes.
pub fn decode_footer(b: &[u8]) -> (r: Footer)
    requires
        b@.len() == FOOTER_SIZE,
    ensures
        r == spec_decode_footer(b@),
{
    let index_offset = u64_from_le_bytes(slice_subrange(b, 0, 8));
    let entry_count = u32_from_le_bytes(slice_subrange(b, 8, 12));
    let magic = u32_from_le_bytes(slice_subrange(b, 12, 16));
    Footer { index_offset, entry_count, magic }
}

/// Copies a range of a byte slice into a fresh vector.
pub fn copy_range(b: &[u8], start: usize, end: usize) -> (r: Vec<u8>)
    requires
        start <= end <= b@.len(),
    ensures
        r@ == b@.subrange(start as int, end as int),
{
    slice_to_vec(slice_subrange(b, start, end))
}

/// Compares two byte slices for equality.
pub fn bytes_eq(a: &[u8], b: &[u8]) -> (r: bool)
    ensures
        r == (a@ == b@),
{
    if a.len() != b.len() {
        proof {
            assert(a@.len() != b@.len());
        }
        return false;
    }
    let n = a.len();
    let mut i: usize = 0;
    while i < n
        invariant
            n == a@.len() == b@.len(),
            i <= n,
            forall|j: int| 0 <= j < i ==> a@[j] == b@[j],
        decreases n - i,
    {
        if a[i] != b[i] {
            return false;
        }
        i = i + 1;
    }
    proof {
        assert(a@ =~= b@);
    }
    true
}

} // verus!
