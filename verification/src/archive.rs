//! The archive engine: opening an image, querying and mutating the index,
//! serializing the index and footer, and compaction.
//!
//! An archive's state is its data region (`image`: the magic header followed
//! by payload bytes, each padded to an eight-byte boundary), its in-memory
//! index, and a flag recording whether the last parse stopped early.  The
//! end of the data region is where the entries table starts when the archive
//! is saved.

use vstd::prelude::*;

use vstd::string::StringSliceAdditionalSpecFns;

use crate::checksum::{crc32_hash, crc32_of};
use crate::codec::{
    bytes_eq, copy_range, decode_entry, decode_footer, encode_entry, encode_footer,
    lemma_entry_roundtrip, lemma_footer_roundtrip, push_zeros, extend_bytes, spec_decode_entry,
    spec_decode_footer, spec_encode_entry, spec_encode_footer, spec_zeros,
};
use crate::compression::{zstd_compress_of, zstd_decompress, zstd_decompress_of};
use crate::entry::{Compress, Entry, Footer};
use crate::error::BindleError;
use crate::index::{
    map_of, pair_index_of, pairs_contain, pairs_wf, IndexMap, IndexPair,
};
use crate::writer::Writer;
use crate::{
    magic_bytes, pad, spec_magic, spec_pad, spec_round8, AUTO_COMPRESS_THRESHOLD, ENTRY_SIZE,
    FOOTER_MAGIC, FOOTER_SIZE, HEADER_SIZE,
};

verus! {

/// The mathematical image of an archive: its data region, its index
/// bindings in order, and whether the last parse was cut short.
pub ghost struct ArchiveView {
    /// The data region: magic header plus payload bytes.
    pub image: Seq<u8>,
    /// The index bindings, in order.
    pub pairs: Seq<IndexPair>,
    /// Whether the index was rebuilt from a truncated entries table.
    pub partial: bool,
}

impl ArchiveView {
    /// The name-to-entry map the index describes.
    pub open spec fn entries(self) -> Map<Seq<u8>, Entry> {
        map_of(self.pairs)
    }

    /// Where the data region ends and a saved entries table would start.
    pub open spec fn data_end(self) -> int {
        self.image.len() as int
    }

    /// A well-formed archive: the data region starts with the magic header
    /// and fits in memory, and the index bindings are well formed.
    pub open spec fn wf(self) -> bool {
        &&& pairs_wf(self.pairs)
        &&& self.image.len() >= HEADER_SIZE
        &&& self.image.subrange(0, HEADER_SIZE as int) == spec_magic()
        &&& self.image.len() <= usize::MAX
    }
}

/// The serialized form of one index binding: the entry record, the name
/// bytes, and padding to the next eight-byte boundary.
pub open spec fn spec_record_bytes(p: IndexPair) -> Seq<u8> {
    spec_encode_entry(p.entry) + p.name + spec_zeros(
        spec_pad(ENTRY_SIZE + p.name.len() as int),
    )
}

/// The serialized entries table: each binding's record, in index order.
pub open spec fn spec_index_bytes(pairs: Seq<IndexPair>) -> Seq<u8>
    decreases pairs.len(),
{
    if pairs.len() == 0 {
        Seq::empty()
    } else {
        spec_record_bytes(pairs.first()) + spec_index_bytes(pairs.drop_first())
    }
}

/// Serializing a concatenation of bindings concatenates their tables.
pub proof fn lemma_index_bytes_concat(a: Seq<IndexPair>, b: Seq<IndexPair>)
    ensures
        spec_index_bytes(a + b) == spec_index_bytes(a) + spec_index_bytes(b),
    decreases a.len(),
{
    if a.len() == 0 {
        assert(a + b =~= b);
        assert(spec_index_bytes(a) + spec_index_bytes(b) =~= spec_index_bytes(b));
    } else {
        assert((a + b).len() > 0);
        assert((a + b).first() == a.first());
        assert((a + b).drop_first() =~= a.drop_first() + b);
        lemma_index_bytes_concat(a.drop_first(), b);
        assert(spec_record_bytes(a.first()) + (spec_index_bytes(a.drop_first())
            + spec_index_bytes(b)) =~= (spec_record_bytes(a.first()) + spec_index_bytes(
            a.drop_first(),
        )) + spec_index_bytes(b));
    }
}

/// The table of a single binding is its record.
pub proof fn lemma_index_bytes_singleton(p: IndexPair)
    ensures
        spec_index_bytes(seq![p]) == spec_record_bytes(p),
{
    let s = seq![p];
    assert(s.len() == 1);
    assert(s.first() == p);
    assert(s.drop_first() =~= Seq::<IndexPair>::empty());
    assert(spec_index_bytes(s) == spec_record_bytes(p) + spec_index_bytes(
        Seq::<IndexPair>::empty(),
    ));
    assert(spec_index_bytes(Seq::<IndexPair>::empty()) =~= Seq::<u8>::empty());
    assert(spec_record_bytes(p) + Seq::<u8>::empty() =~= spec_record_bytes(p));
}

/// Extending the serialized table by one binding appends its record.
pub proof fn lemma_index_bytes_step(pairs: Seq<IndexPair>, i: int)
    requires
        0 <= i < pairs.len(),
    ensures
        spec_index_bytes(pairs.take(i + 1)) == spec_index_bytes(pairs.take(i))
            + spec_record_bytes(pairs[i]),
{
    assert(pairs.take(i + 1) =~= pairs.take(i) + seq![pairs[i]]);
    lemma_index_bytes_concat(pairs.take(i), seq![pairs[i]]);
    lemma_index_bytes_singleton(pairs[i]);
}

/// The bytes `save` produces: the data region, the entries table, and the
/// footer.
pub open spec fn spec_save_bytes(v: ArchiveView) -> Seq<u8> {
    v.image + spec_index_bytes(v.pairs) + spec_encode_footer(
        Footer {
            index_offset: v.image.len() as u64,
            entry_count: v.pairs.len() as u32,
            magic: FOOTER_MAGIC,
        },
    )
}

/// How inserting a binding changes the bindings: an existing name is
/// replaced in place, a new name is appended.
pub open spec fn spec_pairs_insert(pairs: Seq<IndexPair>, name: Seq<u8>, e: Entry) -> Seq<
    IndexPair,
> {
    if pairs_contain(pairs, name) {
        pairs.update(pair_index_of(pairs, name), IndexPair { name, entry: e })
    } else {
        pairs.push(IndexPair { name, entry: e })
    }
}

/// One walk over an entries table: starting from `cursor` with `count`
/// records to go and the bindings gathered so far, yields the final
/// bindings and whether the walk stopped before reading `count` records.
pub open spec fn spec_parse_entries(
    bytes: Seq<u8>,
    cursor: int,
    footer_pos: int,
    count: int,
    acc: Seq<IndexPair>,
) -> (Seq<IndexPair>, bool)
    decreases count,
{
    if count <= 0 {
        (acc, false)
    } else if cursor + ENTRY_SIZE > footer_pos {
        (acc, true)
    } else {
        let e = spec_decode_entry(bytes.subrange(cursor, cursor + ENTRY_SIZE));
        if cursor + ENTRY_SIZE + e.name_len as int > footer_pos {
            (acc, true)
        } else {
            let name = bytes.subrange(cursor + ENTRY_SIZE, cursor + ENTRY_SIZE + e.name_len as int);
            spec_parse_entries(
                bytes,
                cursor + spec_round8(ENTRY_SIZE + e.name_len as int),
                footer_pos,
                count - 1,
                spec_pairs_insert(acc, name, e),
            )
        }
    }
}

/// What opening an image yields: a fresh archive for an empty image, an
/// error for a structurally invalid one, and otherwise the archive whose
/// index the footer and entries table describe.
pub open spec fn spec_open(bytes: Seq<u8>) -> Result<ArchiveView, BindleError> {
    if bytes.len() == 0 {
        Ok(ArchiveView { image: spec_magic(), pairs: Seq::empty(), partial: false })
    } else if bytes.len() < HEADER_SIZE + FOOTER_SIZE {
        Err(BindleError::FileTooSmall)
    } else if bytes.subrange(0, HEADER_SIZE as int) != spec_magic() {
        Err(BindleError::InvalidHeader)
    } else {
        let footer_pos = bytes.len() - FOOTER_SIZE;
        let footer = spec_decode_footer(bytes.subrange(footer_pos as int, bytes.len() as int));
        if footer.magic != FOOTER_MAGIC {
            Err(BindleError::InvalidFooter)
        } else if footer.index_offset < HEADER_SIZE as u64 || footer.index_offset
            > footer_pos as u64 {
            Err(BindleError::InvalidFooter)
        } else {
            let parsed = spec_parse_entries(
                bytes,
                footer.index_offset as int,
                footer_pos as int,
                footer.entry_count as int,
                Seq::empty(),
            );
            Ok(
                ArchiveView {
                    image: bytes.subrange(0, footer.index_offset as int),
                    pairs: parsed.0,
                    partial: parsed.1,
                },
            )
        }
    }
}

/// What reading a name yields: `None` when the name is absent, its payload
/// range leaves the data region, a compressed payload does not decode, or
/// the checksum disagrees; otherwise the payload bytes.
pub open spec fn spec_read(v: ArchiveView, name: Seq<u8>) -> Option<Seq<u8>> {
    if !v.entries().contains_key(name) {
        Option::None
    } else {
        let e = v.entries()[name];
        if e.compression_type == 1 {
            if e.offset + e.compressed_size <= v.image.len() {
                let raw = v.image.subrange(
                    e.offset as int,
                    e.offset + e.compressed_size,
                );
                match zstd_decompress_of(raw) {
                    Option::Some(d) => if crc32_of(d) == e.crc32 {
                        Option::Some(d)
                    } else {
                        Option::None
                    },
                    Option::None => Option::None,
                }
            } else {
                Option::None
            }
        } else {
            if e.offset + e.uncompressed_size <= v.image.len() {
                let d = v.image.subrange(
                    e.offset as int,
                    e.offset + e.uncompressed_size,
                );
                if crc32_of(d) == e.crc32 {
                    Option::Some(d)
                } else {
                    Option::None
                }
            } else {
                Option::None
            }
        }
    }
}

/// The payload bytes an add stores: the data itself, or its compressed
/// form.
pub open spec fn spec_add_payload(data: Seq<u8>, compressed: bool) -> Seq<u8> {
    if compressed {
        zstd_compress_of(data)
    } else {
        data
    }
}

/// The entry record an add commits.
pub open spec fn spec_add_entry(v: ArchiveView, name: Seq<u8>, data: Seq<u8>, compressed: bool) -> Entry {
    Entry {
        offset: v.image.len() as u64,
        compressed_size: spec_add_payload(data, compressed).len() as u64,
        uncompressed_size: data.len() as u64,
        crc32: crc32_of(data),
        name_len: name.len() as u16,
        compression_type: if compressed {
            1
        } else {
            0
        },
        reserved: 0,
    }
}

/// How adding a payload under a name changes an archive: the stored bytes
/// and alignment padding are appended to the data region, and the index
/// binds the name to the new entry, shadowing any previous binding.
pub open spec fn spec_after_add(v: ArchiveView, name: Seq<u8>, data: Seq<u8>, compressed: bool) -> ArchiveView {
    let payload = spec_add_payload(data, compressed);
    ArchiveView {
        image: v.image + payload + spec_zeros(spec_pad(v.image.len() as int + payload.len() as int)),
        pairs: spec_pairs_insert(v.pairs, name, spec_add_entry(v, name, data, compressed)),
        partial: v.partial,
    }
}

/// Inserting a binding inserts its name into the index's map.
pub proof fn lemma_pairs_insert_map(pairs: Seq<IndexPair>, name: Seq<u8>, e: Entry)
    requires
        pairs_wf(pairs),
    ensures
        map_of(spec_pairs_insert(pairs, name, e)) == map_of(pairs).insert(name, e),
{
    crate::index::lemma_map_of_contains(pairs, name);
    if pairs_contain(pairs, name) {
        let i = pair_index_of(pairs, name);
        assert(0 <= i < pairs.len() && pairs[i].name == name);
        crate::index::lemma_map_of_update(pairs, i, e);
    } else {
        crate::index::lemma_map_of_push(pairs, IndexPair { name, entry: e });
    }
}

/// Adding one entry leaves every other readable entry readable with the
/// same bytes: the data region only grows, and other index bindings keep
/// their records.
pub proof fn lemma_add_preserves_other_reads(
    v: ArchiveView,
    name: Seq<u8>,
    data: Seq<u8>,
    compressed: bool,
    k: Seq<u8>,
)
    requires
        v.wf(),
        k != name,
        spec_read(v, k) is Some,
    ensures
        spec_read(spec_after_add(v, name, data, compressed), k) == spec_read(v, k),
{
    let v2 = spec_after_add(v, name, data, compressed);
    lemma_pairs_insert_map(v.pairs, name, spec_add_entry(v, name, data, compressed));
    assert(v2.entries() == v.entries().insert(name, spec_add_entry(v, name, data, compressed)));
    assert(v.entries().contains_key(k));
    let e = v.entries()[k];
    assert(v2.entries().contains_key(k) && v2.entries()[k] == e);
    if e.compression_type == 1 {
        assert(e.offset + e.compressed_size <= v.image.len());
        assert(v2.image.subrange(e.offset as int, e.offset + e.compressed_size) =~= v.image.subrange(
            e.offset as int,
            e.offset + e.compressed_size,
        ));
    } else {
        assert(e.offset + e.uncompressed_size <= v.image.len());
        assert(v2.image.subrange(e.offset as int, e.offset + e.uncompressed_size)
            =~= v.image.subrange(e.offset as int, e.offset + e.uncompressed_size));
    }
}

/// Every indexed payload lies inside the data region.
pub open spec fn spec_all_in_bounds(v: ArchiveView) -> bool {
    forall|i: int|
        0 <= i < v.pairs.len() ==> (#[trigger] v.pairs[i]).entry.offset + v.pairs[i].entry.compressed_size
            <= v.image.len()
}

/// One step of compaction: the bindings from position `i` on are copied
/// into the data region being built, each entry's offset moved to where its
/// payload now lies, with alignment padding after each payload.
pub open spec fn spec_vacuum_loop(
    old_image: Seq<u8>,
    pairs: Seq<IndexPair>,
    i: int,
    image: Seq<u8>,
    acc: Seq<IndexPair>,
) -> (Seq<u8>, Seq<IndexPair>)
    decreases pairs.len() - i,
{
    if i < 0 || i >= pairs.len() {
        (image, acc)
    } else {
        let p = pairs[i];
        let e = p.entry;
        let chunk = old_image.subrange(e.offset as int, e.offset + e.compressed_size);
        let moved = Entry { offset: image.len() as u64, ..e };
        let image2 = image + chunk + spec_zeros(spec_pad(image.len() as int + chunk.len() as int));
        spec_vacuum_loop(
            old_image,
            pairs,
            i + 1,
            image2,
            acc.push(IndexPair { name: p.name, entry: moved }),
        )
    }
}

/// What the compaction walk produces: one binding per remaining binding,
/// with every field but the offset kept, each offset naming the place in
/// the new data region where that payload's bytes were copied, and the
/// region built so far kept as a stable prefix.
pub proof fn lemma_vacuum_loop_props(
    old_image: Seq<u8>,
    pairs: Seq<IndexPair>,
    i: int,
    image: Seq<u8>,
    acc: Seq<IndexPair>,
)
    requires
        0 <= i <= pairs.len(),
        forall|k: int|
            i <= k < pairs.len() ==> (#[trigger] pairs[k]).entry.offset
                + pairs[k].entry.compressed_size <= old_image.len(),
        spec_vacuum_loop(old_image, pairs, i, image, acc).0.len() <= u64::MAX,
    ensures
        ({
            let r = spec_vacuum_loop(old_image, pairs, i, image, acc);
            &&& r.1.len() == acc.len() + pairs.len() - i
            &&& forall|j: int| 0 <= j < acc.len() ==> #[trigger] r.1[j] == acc[j]
            &&& forall|j: int|
                acc.len() <= j < r.1.len() ==> {
                    let p = pairs[i + j - acc.len()];
                    let q = #[trigger] r.1[j];
                    &&& q.name == p.name
                    &&& q.entry.compressed_size == p.entry.compressed_size
                    &&& q.entry.uncompressed_size == p.entry.uncompressed_size
                    &&& q.entry.crc32 == p.entry.crc32
                    &&& q.entry.name_len == p.entry.name_len
                    &&& q.entry.compression_type == p.entry.compression_type
                    &&& q.entry.offset + q.entry.compressed_size <= r.0.len()
                    &&& r.0.subrange(
                        q.entry.offset as int,
                        q.entry.offset + q.entry.compressed_size,
                    ) == old_image.subrange(
                        p.entry.offset as int,
                        p.entry.offset + p.entry.compressed_size,
                    )
                }
            &&& r.0.len() >= image.len()
            &&& r.0.subrange(0, image.len() as int) == image
        }),
    decreases pairs.len() - i,
{
    let r = spec_vacuum_loop(old_image, pairs, i, image, acc);
    if i == pairs.len() {
        assert(r.0.subrange(0, image.len() as int) =~= image);
    } else {
        let p = pairs[i];
        let e = p.entry;
        let chunk = old_image.subrange(e.offset as int, e.offset + e.compressed_size);
        let moved = Entry { offset: image.len() as u64, ..e };
        let image2 = image + chunk + spec_zeros(spec_pad(image.len() as int + chunk.len() as int));
        let acc2 = acc.push(IndexPair { name: p.name, entry: moved });
        assert(r == spec_vacuum_loop(old_image, pairs, i + 1, image2, acc2));
        lemma_vacuum_loop_props(old_image, pairs, i + 1, image2, acc2);
        assert(r.0.subrange(0, image2.len() as int) == image2);
        assert(r.0.subrange(0, image.len() as int) =~= image);
        assert(image.len() <= image2.len() <= r.0.len() <= u64::MAX);
        assert(moved.offset == image.len());
        assert forall|j: int| acc.len() <= j < r.1.len() implies {
            let pj = pairs[i + j - acc.len()];
            let q = #[trigger] r.1[j];
            &&& q.name == pj.name
            &&& q.entry.compressed_size == pj.entry.compressed_size
            &&& q.entry.uncompressed_size == pj.entry.uncompressed_size
            &&& q.entry.crc32 == pj.entry.crc32
            &&& q.entry.name_len == pj.entry.name_len
            &&& q.entry.compression_type == pj.entry.compression_type
            &&& q.entry.offset + q.entry.compressed_size <= r.0.len()
            &&& r.0.subrange(q.entry.offset as int, q.entry.offset + q.entry.compressed_size)
                == old_image.subrange(
                pj.entry.offset as int,
                pj.entry.offset + pj.entry.compressed_size,
            )
        } by {
            if j == acc.len() {
                assert(r.1[j] == acc2[j]);
                assert(acc2[j] == IndexPair { name: p.name, entry: moved });
                assert(chunk.len() == e.compressed_size);
                assert(image.len() + chunk.len() <= image2.len());
                let pre = r.0.subrange(0, image2.len() as int);
                assert(r.0.subrange(
                    moved.offset as int,
                    moved.offset + moved.compressed_size,
                ) =~= pre.subrange(image.len() as int, image.len() as int + chunk.len() as int));
                assert(image2.subrange(
                    image.len() as int,
                    image.len() as int + chunk.len() as int,
                ) =~= chunk);
            } else {
                let pj = pairs[i + j - acc.len()];
                assert(pairs[i + 1 + j - acc2.len()] == pj);
            }
        }
    }
}

/// What compaction leaves behind: a data region holding only the live
/// payloads, in index order, and the same bindings at their new offsets.
pub open spec fn spec_after_vacuum(v: ArchiveView) -> ArchiveView {
    let r = spec_vacuum_loop(v.image, v.pairs, 0, spec_magic(), Seq::empty());
    ArchiveView { image: r.0, pairs: r.1, partial: false }
}

/// A binary archive of named byte payloads held as an in-memory image.
///
/// Payloads are appended to the data region; the index records where each
/// live payload lies.  `save` serializes the index and footer after the
/// data region; `open` rebuilds an archive from such bytes.
pub struct Bindle {
    /// The data region: magic header plus payload bytes.
    pub image: Vec<u8>,
    /// The in-memory index of live entries.
    pub index: IndexMap,
    /// Whether the index was rebuilt from a truncated entries table.
    pub partial: bool,
}

impl View for Bindle {
    type V = ArchiveView;

    open spec fn view(&self) -> ArchiveView {
        ArchiveView { image: self.image@, pairs: self.index@, partial: self.partial }
    }
}

impl Bindle {
    /// A well-formed archive.
    pub open spec fn wf(&self) -> bool {
        self@.wf()
    }

    /// Builds a fresh, empty archive.
    pub fn create() -> (r: Bindle)
        ensures
            r.wf(),
            r@.image == spec_magic(),
            r@.pairs == Seq::<IndexPair>::empty(),
            !r@.partial,
    {
        let image = magic_bytes();
        let r = Bindle { image, index: IndexMap::new(), partial: false };
        proof {
            assert(r@.image.subrange(0, HEADER_SIZE as int) =~= spec_magic());
        }
        r
    }

    /// Opens an archive from the bytes of its file image.
    ///
    /// An empty image behaves as `create`.  A structurally invalid image is
    /// refused: too short, wrong magic header, or a footer without its
    /// marker or pointing outside the image.  A truncated or malformed
    /// entries table stops the walk early and yields the entries parsed so
    /// far, with the `is_partial` flag set.
    pub fn open(bytes: &[u8]) -> (r: Result<Bindle, BindleError>)
        ensures
            r matches Ok(b) ==> b.wf() && spec_open(bytes@) == Ok::<ArchiveView, BindleError>(b@),
            r matches Err(e) ==> spec_open(bytes@) == Err::<ArchiveView, BindleError>(e),
            bytes@.len() >= HEADER_SIZE + FOOTER_SIZE && bytes@.subrange(0, HEADER_SIZE as int)
                != spec_magic() ==> (r matches Err(e) && e == BindleError::InvalidHeader),
            0 < bytes@.len() < HEADER_SIZE + FOOTER_SIZE ==> (r matches Err(e) && e
                == BindleError::FileTooSmall),
    {
        let len = bytes.len();
        if len == 0 {
            return Ok(Bindle::create());
        }
        if len < HEADER_SIZE + FOOTER_SIZE {
            return Err(BindleError::FileTooSmall);
        }
        let magic = magic_bytes();
        if !bytes_eq(vstd::slice::slice_subrange(bytes, 0, HEADER_SIZE), magic.as_slice()) {
            return Err(BindleError::InvalidHeader);
        }
        let footer_pos = len - FOOTER_SIZE;
        let footer = decode_footer(vstd::slice::slice_subrange(bytes, footer_pos, len));
        if footer.magic != FOOTER_MAGIC {
            return Err(BindleError::InvalidFooter);
        }
        if footer.index_offset < HEADER_SIZE as u64 || footer.index_offset > footer_pos as u64 {
            return Err(BindleError::InvalidFooter);
        }
        let data_end = footer.index_offset as usize;
        let count = footer.entry_count;

        let mut index = IndexMap::new();
        let mut partial = false;
        let mut cursor = data_end;
        let mut k: u32 = 0;
        let ghost whole = spec_parse_entries(
            bytes@,
            data_end as int,
            footer_pos as int,
            count as int,
            Seq::empty(),
        );
        while k < count && !partial
            invariant
                len == bytes@.len(),
                HEADER_SIZE + FOOTER_SIZE <= len <= usize::MAX,
                footer_pos == len - FOOTER_SIZE,
                k <= count,
                cursor <= footer_pos + 7,
                index.wf(),
                !partial ==> whole == spec_parse_entries(
                    bytes@,
                    cursor as int,
                    footer_pos as int,
                    (count - k) as int,
                    index@,
                ),
                partial ==> whole == (index@, true),
            decreases count - k + (if partial { 0int } else { 1int }),
        {
            if footer_pos < cursor || footer_pos - cursor < ENTRY_SIZE {
                partial = true;
            } else {
                let e = decode_entry(
                    vstd::slice::slice_subrange(bytes, cursor, cursor + ENTRY_SIZE),
                );
                let name_len = e.name_len();
                if footer_pos - cursor - ENTRY_SIZE < name_len {
                    partial = true;
                } else {
                    let n_start = cursor + ENTRY_SIZE;
                    let name = copy_range(bytes, n_start, n_start + name_len);
                    let ghost before = index@;
                    proof {
                        crate::index::lemma_map_of_contains(
                            before,
                            bytes@.subrange(n_start as int, n_start + name_len as int),
                        );
                    }
                    index.insert(name, e);
                    proof {
                        assert(index@ =~= spec_pairs_insert(
                            before,
                            bytes@.subrange(n_start as int, n_start + name_len as int),
                            e,
                        ));
                    }
                    let advance = pad((ENTRY_SIZE + name_len) as u64) as usize;
                    cursor = cursor + ENTRY_SIZE + name_len + advance;
                    k = k + 1;
                }
            }
        }
        proof {
            if partial {
                assert(whole == (index@, true));
            } else {
                assert(whole == (index@, false));
            }
        }
        let image = copy_range(bytes, 0, data_end);
        let b = Bindle { image, index, partial };
        proof {
            assert(b@.image.subrange(0, HEADER_SIZE as int) =~= bytes@.subrange(
                0,
                HEADER_SIZE as int,
            ));
        }
        Ok(b)
    }

    /// Serializes the archive: the data region, the entries table in index
    /// order, and the footer.  These bytes are the archive's complete file
    /// image; opening them yields this archive back.
    pub fn save(&self) -> (r: Result<Vec<u8>, BindleError>)
        requires
            self.wf(),
        ensures
            self@.pairs.len() <= u32::MAX ==> (r matches Ok(v) && v@ == spec_save_bytes(self@)),
            self@.pairs.len() > u32::MAX ==> (r matches Err(e) && e == BindleError::TooManyEntries),
    {
        let n = self.index.len();
        if n as u64 > u32::MAX as u64 {
            return Err(BindleError::TooManyEntries);
        }
        let mut out: Vec<u8> = Vec::new();
        extend_bytes(&mut out, self.image.as_slice());
        let ghost pairs = self.index@;
        let mut i: usize = 0;
        while i < n
            invariant
                self.wf(),
                n == self.index@.len(),
                pairs == self.index@,
                i <= n,
                out@ == self@.image + spec_index_bytes(pairs.take(i as int)),
            decreases n - i,
        {
            let rec = encode_entry(self.index.entry_at(i));
            let ghost before = out@;
            extend_bytes(&mut out, rec.as_slice());
            let name = self.index.name_at(i);
            extend_bytes(&mut out, name.as_slice());
            assert(name@.len() <= u16::MAX);
            let padding = pad((ENTRY_SIZE + name.len()) as u64) as usize;
            push_zeros(&mut out, padding);
            proof {
                lemma_index_bytes_step(pairs, i as int);
                assert(out@ =~= before + spec_record_bytes(pairs[i as int]));
                assert(out@ =~= self@.image + spec_index_bytes(pairs.take(i + 1)));
            }
            i = i + 1;
        }
        proof {
            assert(pairs.take(n as int) =~= pairs);
        }
        let footer = Footer::new(self.image.len() as u64, n as u32, FOOTER_MAGIC);
        let rec = encode_footer(&footer);
        extend_bytes(&mut out, rec.as_slice());
        proof {
            assert(out@ =~= spec_save_bytes(self@));
        }
        Ok(out)
    }

    /// The number of entries in the archive.
    pub fn len(&self) -> (r: usize)
        ensures
            r == self@.pairs.len(),
    {
        self.index.len()
    }

    /// Whether the archive holds no entries.
    pub fn is_empty(&self) -> (r: bool)
        ensures
            r == (self@.pairs.len() == 0),
    {
        self.index.is_empty()
    }

    /// Read-only access to the index.
    pub fn index(&self) -> (r: &IndexMap)
        ensures
            r@ == self@.pairs,
    {
        &self.index
    }

    /// Where the data region ends: the position at which `save` writes the
    /// entries table.
    pub fn data_end(&self) -> (r: u64)
        ensures
            r == self@.data_end(),
    {
        self.image.len() as u64
    }

    /// Whether the index was rebuilt from a truncated entries table and may
    /// omit entries that a fully valid image would have.
    pub fn is_partial(&self) -> (r: bool)
        ensures
            r == self@.partial,
    {
        self.partial
    }

    /// Drops every entry from the index.  Payload bytes stay in the data
    /// region until `vacuum`.
    pub fn clear(&mut self)
        requires
            old(self).wf(),
        ensures
            final(self).wf(),
            final(self)@.pairs == Seq::<IndexPair>::empty(),
            final(self)@.image == old(self)@.image,
            final(self)@.partial == old(self)@.partial,
    {
        self.index.clear();
    }

    /// Whether an entry with this name exists.
    pub fn contains(&self, name: &str) -> (r: bool)
        requires
            self.wf(),
        ensures
            r == self@.entries().contains_key(name.spec_bytes()),
    {
        self.index.contains_key(name.as_bytes())
    }

    /// Removes an entry from the index; reports whether it existed.
    /// Payload bytes stay in the data region until `vacuum`.
    pub fn remove(&mut self, name: &str) -> (r: bool)
        requires
            old(self).wf(),
        ensures
            final(self).wf(),
            r == old(self)@.entries().contains_key(name.spec_bytes()),
            final(self)@.entries() == old(self)@.entries().remove(name.spec_bytes()),
            final(self)@.image == old(self)@.image,
            final(self)@.partial == old(self)@.partial,
            r ==> final(self)@.pairs == old(self)@.pairs.remove(
                pair_index_of(old(self)@.pairs, name.spec_bytes()),
            ),
            !r ==> final(self)@.pairs == old(self)@.pairs,
    {
        self.index.remove(name.as_bytes())
    }

    /// Reads an entry's payload, decompressing it if needed and verifying
    /// its checksum.  Yields nothing when the name is absent, the payload
    /// range leaves the data region, decompression fails, or the checksum
    /// disagrees.
    pub fn read(&self, name: &str) -> (r: Option<Vec<u8>>)
        requires
            self.wf(),
        ensures
            r is Some <==> spec_read(self@, name.spec_bytes()) is Some,
            r matches Some(v) ==> Some(v@) == spec_read(self@, name.spec_bytes()),
    {
        let key = name.as_bytes();
        let e = match self.index.get(key) {
            Some(e) => *e,
            None => {
                return None;
            },
        };
        let img_len = self.image.len() as u64;
        if e.compression_type == 1 {
            if e.compressed_size > img_len || e.offset > img_len - e.compressed_size {
                return None;
            }
            let start = e.offset as usize;
            let end = (e.offset + e.compressed_size) as usize;
            let raw = vstd::slice::slice_subrange(self.image.as_slice(), start, end);
            match zstd_decompress(raw) {
                Some(d) => {
                    let crc = crc32_hash(d.as_slice());
                    if crc == e.crc32 {
                        Some(d)
                    } else {
                        None
                    }
                },
                None => None,
            }
        } else {
            if e.uncompressed_size > img_len || e.offset > img_len - e.uncompressed_size {
                return None;
            }
            let start = e.offset as usize;
            let end = (e.offset + e.uncompressed_size) as usize;
            let d = copy_range(self.image.as_slice(), start, end);
            let crc = crc32_hash(d.as_slice());
            if crc == e.crc32 {
                Some(d)
            } else {
                None
            }
        }
    }

    /// Whether this policy compresses a payload of the given size.
    fn should_auto_compress(&self, compress: Compress, len: usize) -> (r: bool)
        ensures
            r == (compress == Compress::Zstd || (compress == Compress::Auto && len
                > AUTO_COMPRESS_THRESHOLD)),
    {
        compress == Compress::Zstd || (compress == Compress::Auto && len > AUTO_COMPRESS_THRESHOLD)
    }

    /// Starts a streaming writer for an entry under this name.
    ///
    /// The policy is resolved here: `Zstd` always compresses, `Raw` never
    /// does, and `Auto` is judged against the payload size known at this
    /// point, which is none yet.  Refused only when the name is longer
    /// than the on-disk length field can record.
    pub fn writer(&self, name: &str, compress: Compress) -> (r: Result<Writer, BindleError>)
        requires
            self.wf(),
        ensures
            name.spec_bytes().len() > u16::MAX ==> (r matches Err(e) && e
                == BindleError::NameTooLong),
            name.spec_bytes().len() <= u16::MAX ==> (r matches Ok(w) && w.wf() && w.name@
                == name.spec_bytes() && w.buf@ == Seq::<u8>::empty() && w.compress == (compress
                == Compress::Zstd)),
    {
        let nb = name.as_bytes();
        if nb.len() > u16::MAX as usize {
            return Err(BindleError::NameTooLong);
        }
        let key = vstd::slice::slice_to_vec(nb);
        let z = self.should_auto_compress(compress, 0);
        Ok(Writer { name: key, compress: z, buf: Vec::new() })
    }

    /// Adds a payload under a name: appends its stored bytes to the data
    /// region and binds the name in the index, shadowing any previous
    /// entry.  The change is in memory only until `save`.
    ///
    /// Succeeds on every name that fits the on-disk length field, except
    /// that a compressed add fails, leaving the archive unchanged, when
    /// the encoder refuses the payload.
    pub fn add(&mut self, name: &str, data: &[u8], compress: Compress) -> (r: Result<
        (),
        BindleError,
    >)
        requires
            old(self).wf(),
        ensures
            final(self).wf(),
            r is Ok ==> final(self)@ == spec_after_add(
                old(self)@,
                name.spec_bytes(),
                data@,
                compress == Compress::Zstd,
            ) && spec_read(final(self)@, name.spec_bytes()) == Some(data@),
            r matches Err(e) ==> *final(self) == *old(self) && (e == BindleError::NameTooLong || e
                == BindleError::CompressionFailed),
            name.spec_bytes().len() > u16::MAX ==> (r matches Err(e) && e
                == BindleError::NameTooLong),
            name.spec_bytes().len() <= u16::MAX && compress != Compress::Zstd ==> r is Ok,
    {
        let w = match self.writer(name, compress) {
            Ok(w) => w,
            Err(e) => {
                return Err(e);
            },
        };
        let mut w = w;
        w.write_chunk(data);
        proof {
            assert(w.buf@ =~= data@);
        }
        w.close(self)
    }

    /// Compacts the archive: rebuilds the data region with only the live
    /// payloads, in index order, dropping the bytes of shadowed and removed
    /// entries, and moves each entry's offset to its new position.  Yields
    /// the complete file image of the compacted archive, ready to be
    /// written out and swapped in for the old file.
    ///
    /// Fails, leaving the archive unchanged, when an indexed payload lies
    /// outside the data region or the index holds more entries than the
    /// footer can count.
    pub fn vacuum(&mut self) -> (r: Result<Vec<u8>, BindleError>)
        requires
            old(self).wf(),
        ensures
            final(self).wf(),
            r matches Ok(bytes) ==> spec_all_in_bounds(old(self)@) && final(self)@
                == spec_after_vacuum(old(self)@) && bytes@ == spec_save_bytes(final(self)@),
            r matches Err(e) ==> *final(self) == *old(self) && (e == BindleError::OutOfBounds || e
                == BindleError::TooManyEntries),
            spec_all_in_bounds(old(self)@) && old(self)@.pairs.len() <= u32::MAX ==> r is Ok,
            old(self)@.pairs.len() > u32::MAX ==> (r matches Err(e) && e
                == BindleError::TooManyEntries),
    {
        let n = self.index.len();
        if n as u64 > u32::MAX as u64 {
            return Err(BindleError::TooManyEntries);
        }
        let ghost old_view = self@;
        let img_len = self.image.len() as u64;
        let mut new_image = magic_bytes();
        let mut new_entries: Vec<crate::index::IndexEntry> = Vec::new();
        let mut i: usize = 0;
        proof {
            assert(new_entries@.map_values(|ie: crate::index::IndexEntry| ie@)
                =~= Seq::<IndexPair>::empty());
        }
        while i < n
            invariant
                self.wf(),
                self@ == old_view,
                new_image@.len() >= HEADER_SIZE,
                new_image@.subrange(0, HEADER_SIZE as int) == spec_magic(),
                n == self@.pairs.len(),
                n <= u32::MAX,
                img_len == self@.image.len(),
                i <= n,
                new_entries@.len() == i,
                forall|j: int|
                    0 <= j < i ==> (#[trigger] self@.pairs[j]).entry.offset
                        + self@.pairs[j].entry.compressed_size <= img_len,
                spec_vacuum_loop(old_view.image, old_view.pairs, 0, spec_magic(), Seq::empty())
                    == spec_vacuum_loop(
                    old_view.image,
                    old_view.pairs,
                    i as int,
                    new_image@,
                    new_entries@.map_values(|ie: crate::index::IndexEntry| ie@),
                ),
            decreases n - i,
        {
            let e = *self.index.entry_at(i);
            if e.compressed_size > img_len || e.offset > img_len - e.compressed_size {
                return Err(BindleError::OutOfBounds);
            }
            let start = e.offset as usize;
            let end = (e.offset + e.compressed_size) as usize;
            let moved = Entry { offset: new_image.len() as u64, ..e };
            let ghost pairs_before = new_entries@.map_values(|ie: crate::index::IndexEntry| ie@);
            extend_bytes(
                &mut new_image,
                vstd::slice::slice_subrange(self.image.as_slice(), start, end),
            );
            let padding = pad(new_image.len() as u64) as usize;
            push_zeros(&mut new_image, padding);
            let name_copy = vstd::slice::slice_to_vec(self.index.name_at(i).as_slice());
            let ghost img_before = new_image@;
            new_entries.push(crate::index::IndexEntry { name: name_copy, entry: moved });
            proof {
                assert(new_image@.subrange(0, HEADER_SIZE as int) =~= img_before.subrange(
                    0,
                    HEADER_SIZE as int,
                ));
                assert(new_entries@.map_values(|ie: crate::index::IndexEntry| ie@)
                    =~= pairs_before.push(
                    IndexPair { name: old_view.pairs[i as int].name, entry: moved },
                ));
            }
            i = i + 1;
        }
        let ghost result = spec_vacuum_loop(
            old_view.image,
            old_view.pairs,
            0,
            spec_magic(),
            Seq::empty(),
        );
        self.image = new_image;
        self.index = IndexMap { entries: new_entries };
        self.partial = false;
        proof {
            vstd::std_specs::vec::axiom_spec_len(&self.image);
            assert(result == (new_image@, self@.pairs));
            assert(result.0.len() <= u64::MAX);
            lemma_vacuum_loop_props(
                old_view.image,
                old_view.pairs,
                0,
                spec_magic(),
                Seq::empty(),
            );
            assert(self@.pairs =~= result.1);
            assert(self@ == spec_after_vacuum(old_view));
            assert(self@.image.subrange(0, HEADER_SIZE as int) == spec_magic());
            assert(pairs_wf(self@.pairs)) by {
                assert(forall|j: int|
                    0 <= j < self@.pairs.len() ==> (#[trigger] self@.pairs[j]).name
                        == old_view.pairs[j].name && self@.pairs[j].entry.name_len
                        == old_view.pairs[j].entry.name_len);
            }
        }
        match self.save() {
            Ok(bytes) => Ok(bytes),
            Err(e) => {
                proof {
                    assert(false);
                }
                Err(e)
            },
        }
    }
}


/// Walking the serialized entries table of well-formed bindings, starting
/// after the first `i` records with the first `i` bindings gathered,
/// recovers all the bindings and does not stop early.
#[verifier::rlimit(50)]
proof fn lemma_parse_table(
    bytes: Seq<u8>,
    pairs: Seq<IndexPair>,
    i: int,
    data_end: int,
    footer_pos: int,
)
    requires
        pairs_wf(pairs),
        0 <= i <= pairs.len(),
        0 <= data_end,
        footer_pos == data_end + spec_index_bytes(pairs).len(),
        footer_pos <= bytes.len(),
        bytes.subrange(data_end, footer_pos) == spec_index_bytes(pairs),
    ensures
        spec_parse_entries(
            bytes,
            data_end + spec_index_bytes(pairs.take(i)).len(),
            footer_pos,
            pairs.len() - i,
            pairs.take(i),
        ) == (pairs, false),
    decreases pairs.len() - i,
{
    if i == pairs.len() {
        assert(pairs.take(i) =~= pairs);
    } else {
        let a = spec_index_bytes(pairs.take(i));
        let p = pairs[i];
        let r = spec_record_bytes(p);
        let tail = spec_index_bytes(pairs.skip(i + 1));
        let cursor = data_end + a.len();
        let nl = p.name.len() as int;

        assert(pairs =~= (pairs.take(i) + seq![p]) + pairs.skip(i + 1));
        lemma_index_bytes_concat(pairs.take(i) + seq![p], pairs.skip(i + 1));
        lemma_index_bytes_concat(pairs.take(i), seq![p]);
        lemma_index_bytes_singleton(p);
        assert(spec_index_bytes(pairs) == (a + r) + tail);
        lemma_entry_roundtrip(p.entry);
        assert(r.len() == ENTRY_SIZE + nl + spec_pad(ENTRY_SIZE + nl));
        assert(spec_pad(ENTRY_SIZE + nl) >= 0);
        assert(cursor + r.len() <= footer_pos);

        // The slice of the table at the cursor is this binding's record.
        let whole_tbl = bytes.subrange(data_end, footer_pos);
        let s_rec = bytes.subrange(cursor, cursor + r.len());
        assert(s_rec =~= whole_tbl.subrange(a.len() as int, a.len() as int + r.len() as int));
        assert(whole_tbl.subrange(a.len() as int, a.len() as int + r.len() as int) =~= r);
        assert(s_rec == r);

        // The fixed record decodes back to the entry.
        assert(bytes.subrange(cursor, cursor + ENTRY_SIZE) =~= s_rec.subrange(
            0,
            ENTRY_SIZE as int,
        ));
        assert(r.subrange(0, ENTRY_SIZE as int) =~= spec_encode_entry(p.entry));
        let e = spec_decode_entry(bytes.subrange(cursor, cursor + ENTRY_SIZE));
        assert(e == p.entry);
        assert(e.name_len as int == nl);
        assert(cursor + ENTRY_SIZE + nl <= footer_pos);

        // The name bytes follow the record.
        assert(bytes.subrange(cursor + ENTRY_SIZE, cursor + ENTRY_SIZE + nl) =~= s_rec.subrange(
            ENTRY_SIZE as int,
            ENTRY_SIZE + nl,
        ));
        assert(r.subrange(ENTRY_SIZE as int, ENTRY_SIZE + nl) =~= p.name);
        assert(bytes.subrange(cursor + ENTRY_SIZE, cursor + ENTRY_SIZE + nl) == p.name);

        // The gathered bindings grow by exactly this binding.
        assert(!pairs_contain(pairs.take(i), p.name)) by {
            if pairs_contain(pairs.take(i), p.name) {
                let j = choose|j: int|
                    0 <= j < pairs.take(i).len() && pairs.take(i)[j].name == p.name;
                assert(pairs[j].name == pairs[i].name);
            }
        }
        assert(spec_pairs_insert(pairs.take(i), p.name, e) == pairs.take(i).push(p));
        assert(pairs.take(i).push(p) =~= pairs.take(i + 1));

        // The cursor advances to the start of the next record.
        lemma_index_bytes_concat(pairs.take(i), seq![p]);
        assert(spec_index_bytes(pairs.take(i + 1)) == a + r) by {
            assert(pairs.take(i + 1) =~= pairs.take(i) + seq![p]);
        }
        assert(cursor + spec_round8(ENTRY_SIZE + nl) == data_end + spec_index_bytes(
            pairs.take(i + 1),
        ).len());

        lemma_parse_table(bytes, pairs, i + 1, data_end, footer_pos);
    }
}

/// Round trip: opening the bytes that `save` produced yields the archive
/// back, with the same data region and the same index, and a parse that
/// ran to completion.  Reads are therefore unchanged across save and
/// reopen.
pub proof fn lemma_save_open_round_trip(v: ArchiveView)
    requires
        v.wf(),
        v.pairs.len() <= u32::MAX,
        spec_save_bytes(v).len() <= usize::MAX,
    ensures
        spec_open(spec_save_bytes(v)) == Ok::<ArchiveView, BindleError>(
            ArchiveView { image: v.image, pairs: v.pairs, partial: false },
        ),
        forall|name: Seq<u8>|
            spec_read(spec_open(spec_save_bytes(v)).unwrap(), name) == spec_read(v, name),
{
    let bytes = spec_save_bytes(v);
    let ib = spec_index_bytes(v.pairs);
    let footer = Footer {
        index_offset: v.image.len() as u64,
        entry_count: v.pairs.len() as u32,
        magic: FOOTER_MAGIC,
    };
    lemma_footer_roundtrip(footer);
    let fb = spec_encode_footer(footer);
    assert(bytes.len() == v.image.len() + ib.len() + FOOTER_SIZE);
    let footer_pos = bytes.len() - FOOTER_SIZE;
    assert(bytes.subrange(0, HEADER_SIZE as int) =~= v.image.subrange(0, HEADER_SIZE as int));
    assert(bytes.subrange(footer_pos as int, bytes.len() as int) =~= fb);
    assert(spec_decode_footer(bytes.subrange(footer_pos as int, bytes.len() as int)) == footer);
    assert(footer.index_offset == v.image.len());
    assert(footer.entry_count == v.pairs.len());
    assert(bytes.subrange(v.image.len() as int, footer_pos as int) =~= ib);
    assert(spec_index_bytes(v.pairs.take(0)) =~= Seq::<u8>::empty()) by {
        assert(v.pairs.take(0) =~= Seq::<IndexPair>::empty());
    }
    lemma_parse_table(bytes, v.pairs, 0, v.image.len() as int, footer_pos as int);
    assert(v.pairs.take(0) =~= Seq::<IndexPair>::empty());
    assert(spec_parse_entries(
        bytes,
        v.image.len() as int,
        footer_pos as int,
        v.pairs.len() as int,
        Seq::empty(),
    ) == (v.pairs, false));
    assert(bytes.subrange(0, v.image.len() as int) =~= v.image);
}


/// Inserting a binding with a matching recorded name length keeps the
/// bindings well formed.
pub proof fn lemma_pairs_insert_wf(pairs: Seq<IndexPair>, name: Seq<u8>, e: Entry)
    requires
        pairs_wf(pairs),
        e.name_len == name.len(),
    ensures
        pairs_wf(spec_pairs_insert(pairs, name, e)),
{
    let pairs2 = spec_pairs_insert(pairs, name, e);
    if pairs_contain(pairs, name) {
        let i = pair_index_of(pairs, name);
        assert(0 <= i < pairs.len() && pairs[i].name == name);
        assert(forall|a: int, b: int|
            0 <= a < b < pairs2.len() ==> pairs2[a].name != pairs2[b].name);
    } else {
        assert(forall|a: int, b: int|
            0 <= a < b < pairs2.len() ==> pairs2[a].name != pairs2[b].name);
    }
}

/// Shadowing: adding under a name that was just added replaces that one
/// binding.  The second add grows the index by nothing, the name is bound
/// exactly once, to the second entry, and the set of names is the old set
/// plus this name.
pub proof fn lemma_shadowing(
    v: ArchiveView,
    name: Seq<u8>,
    d1: Seq<u8>,
    c1: bool,
    d2: Seq<u8>,
    c2: bool,
)
    requires
        v.wf(),
        name.len() <= u16::MAX,
    ensures
        spec_after_add(spec_after_add(v, name, d1, c1), name, d2, c2).pairs.len()
            == spec_after_add(v, name, d1, c1).pairs.len(),
        spec_after_add(v, name, d1, c1).pairs.len() <= v.pairs.len() + 1,
        spec_after_add(spec_after_add(v, name, d1, c1), name, d2, c2).entries() == spec_after_add(
            v,
            name,
            d1,
            c1,
        ).entries().insert(name, spec_add_entry(spec_after_add(v, name, d1, c1), name, d2, c2)),
        spec_after_add(spec_after_add(v, name, d1, c1), name, d2, c2).entries().dom()
            == v.entries().dom().insert(name),
{
    let e1 = spec_add_entry(v, name, d1, c1);
    let v1 = spec_after_add(v, name, d1, c1);
    let e2 = spec_add_entry(v1, name, d2, c2);
    let v2 = spec_after_add(v1, name, d2, c2);
    lemma_pairs_insert_wf(v.pairs, name, e1);
    lemma_pairs_insert_map(v.pairs, name, e1);
    lemma_pairs_insert_map(v1.pairs, name, e2);
    crate::index::lemma_map_of_contains(v.pairs, name);
    crate::index::lemma_map_of_contains(v1.pairs, name);
    assert(pairs_contain(v1.pairs, name)) by {
        if pairs_contain(v.pairs, name) {
            let i = pair_index_of(v.pairs, name);
            assert(v1.pairs[i].name == name);
        } else {
            assert(v1.pairs[v.pairs.len() as int].name == name);
        }
    }
    assert(v2.pairs.len() == v1.pairs.len());
    assert(v2.entries().dom() =~= v.entries().dom().insert(name));
}

/// Compaction preserves every read: for an archive whose indexed payloads
/// lie inside the data region and whose uncompressed entries record equal
/// stored and logical sizes, reading any name after `vacuum` yields exactly
/// what it yielded before.
pub proof fn lemma_vacuum_preserves_reads(v: ArchiveView, name: Seq<u8>)
    requires
        v.wf(),
        spec_all_in_bounds(v),
        spec_after_vacuum(v).image.len() <= u64::MAX,
        forall|i: int|
            0 <= i < v.pairs.len() ==> (#[trigger] v.pairs[i]).entry.compression_type == 1
                || v.pairs[i].entry.uncompressed_size == v.pairs[i].entry.compressed_size,
    ensures
        spec_read(spec_after_vacuum(v), name) == spec_read(v, name),
{
    let v2 = spec_after_vacuum(v);
    lemma_vacuum_loop_props(v.image, v.pairs, 0, spec_magic(), Seq::empty());
    assert(v2.pairs.len() == v.pairs.len());
    assert(forall|j: int|
        0 <= j < v2.pairs.len() ==> (#[trigger] v2.pairs[j]).name == v.pairs[j].name);
    assert(forall|a: int, b: int|
        0 <= a < b < v2.pairs.len() ==> v2.pairs[a].name != v2.pairs[b].name);
    crate::index::lemma_map_of_contains(v.pairs, name);
    crate::index::lemma_map_of_contains(v2.pairs, name);
    if !pairs_contain(v.pairs, name) {
        assert(!pairs_contain(v2.pairs, name)) by {
            if pairs_contain(v2.pairs, name) {
                let j = choose|j: int| 0 <= j < v2.pairs.len() && v2.pairs[j].name == name;
                assert(v.pairs[j].name == name);
            }
        }
    } else {
        let idx = pair_index_of(v.pairs, name);
        assert(0 <= idx < v.pairs.len() && v.pairs[idx].name == name);
        crate::index::lemma_map_of_get(v.pairs, idx);
        assert(v2.pairs[idx].name == name);
        crate::index::lemma_map_of_get(v2.pairs, idx);
        assert(pairs_contain(v2.pairs, name)) by {
            assert(v2.pairs[idx].name == name);
        }
        let e = v.pairs[idx].entry;
        let q = v2.pairs[idx].entry;
        assert(v.entries()[name] == e);
        assert(v2.entries()[name] == q);
        assert(e.offset + e.compressed_size <= v.image.len());
        assert(v2.image.subrange(q.offset as int, q.offset + q.compressed_size)
            == v.image.subrange(e.offset as int, e.offset + e.compressed_size));
        if e.compression_type == 1 {
        } else {
            assert(e.uncompressed_size == e.compressed_size);
            assert(v2.image.subrange(q.offset as int, q.offset + q.uncompressed_size)
                == v.image.subrange(e.offset as int, e.offset + e.uncompressed_size));
        }
    }
}


/// Removal: after a present name is removed, it is no longer in the index,
/// and every other name still reads exactly as before.  Together with the
/// save-and-reopen round trip this persists across a save.
pub proof fn lemma_removal(v: ArchiveView, name: Seq<u8>, k: Seq<u8>)
    requires
        v.wf(),
        pairs_contain(v.pairs, name),
        k != name,
    ensures
        ({
            let vr = ArchiveView {
                image: v.image,
                pairs: v.pairs.remove(pair_index_of(v.pairs, name)),
                partial: v.partial,
            };
            &&& !vr.entries().contains_key(name)
            &&& spec_read(vr, name) is None
            &&& spec_read(vr, k) == spec_read(v, k)
        }),
{
    let i = pair_index_of(v.pairs, name);
    assert(0 <= i < v.pairs.len() && v.pairs[i].name == name);
    crate::index::lemma_map_of_remove(v.pairs, i);
    let vr = ArchiveView {
        image: v.image,
        pairs: v.pairs.remove(i),
        partial: v.partial,
    };
    assert(vr.entries() == v.entries().remove(name));
}


/// Adding an uncompressed payload makes it readable at once: the committed
/// entry points at exactly the appended bytes and carries their checksum.
pub proof fn lemma_add_read_back_raw(v: ArchiveView, name: Seq<u8>, data: Seq<u8>)
    requires
        v.wf(),
        name.len() <= u16::MAX,
        v.image.len() + data.len() + 7 <= usize::MAX,
    ensures
        spec_read(spec_after_add(v, name, data, false), name) == Some(data),
        spec_after_add(v, name, data, false).wf(),
{
    let e = spec_add_entry(v, name, data, false);
    let v2 = spec_after_add(v, name, data, false);
    lemma_pairs_insert_wf(v.pairs, name, e);
    lemma_pairs_insert_map(v.pairs, name, e);
    assert(v2.entries().contains_key(name) && v2.entries()[name] == e);
    assert(e.offset == v.image.len());
    assert(e.uncompressed_size == data.len());
    assert(e.offset + e.uncompressed_size <= v2.image.len());
    assert(v2.image.subrange(e.offset as int, e.offset + e.uncompressed_size) =~= data);
    assert(v2.image.subrange(0, HEADER_SIZE as int) =~= v.image.subrange(0, HEADER_SIZE as int));
    assert(v2.image.len() <= usize::MAX) by {
        assert(spec_pad(v.image.len() as int + data.len() as int) < 8);
        assert(v2.image.len() == v.image.len() + data.len() + spec_pad(
            v.image.len() as int + data.len() as int,
        ));
    }
}

/// Round trip: adding an uncompressed payload, saving, and reopening the
/// saved bytes yields an archive in which the name reads back as exactly
/// that payload.
pub proof fn lemma_add_save_reopen_read(v: ArchiveView, name: Seq<u8>, data: Seq<u8>)
    requires
        v.wf(),
        name.len() <= u16::MAX,
        v.image.len() + data.len() + 7 <= usize::MAX,
        spec_after_add(v, name, data, false).pairs.len() <= u32::MAX,
        spec_save_bytes(spec_after_add(v, name, data, false)).len() <= usize::MAX,
    ensures
        ({
            let reopened = spec_open(spec_save_bytes(spec_after_add(v, name, data, false)));
            &&& reopened is Ok
            &&& spec_read(reopened.unwrap(), name) == Some(data)
        }),
{
    lemma_add_read_back_raw(v, name, data);
    lemma_save_open_round_trip(spec_after_add(v, name, data, false));
}

} // verus!
